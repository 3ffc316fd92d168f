use pow16_search::digits::contains_forbidden_digit;
use pow16_search::oracle::ListOracle;
use pow16_search::oracle::Oracle;
use pow16_search::oracle::Pow16Oracle;

#[test]
fn no_forbidden_digit_in_clean_expansion() {
    assert!(!contains_forbidden_digit(&vec![3, 5, 9, 0, 7, 6]));
    assert!(!contains_forbidden_digit(&vec![]));
}

#[test]
fn each_forbidden_digit_is_seen() {
    assert!(contains_forbidden_digit(&vec![1]));
    assert!(contains_forbidden_digit(&vec![0, 2]));
    assert!(contains_forbidden_digit(&vec![9, 9, 4]));
    assert!(contains_forbidden_digit(&vec![6, 8, 6]));
}

#[test]
fn sixteen_to_the_fourth_omits_the_forbidden_digits() {
    // 16^4 = 65536: the digits are 6, 5, 5, 3, 6 — the last small power
    // with that property, which is why searches start above it
    let oracle = Pow16Oracle {};
    assert!(oracle.evaluate(4));
}

#[test]
fn other_small_powers_of_sixteen_hold_a_forbidden_digit() {
    let oracle = Pow16Oracle {};
    // 16^0 = 1, 16^1 = 16, 16^2 = 256, 16^3 = 4096, 16^5 = 1048576, ...
    for p in [0, 1, 2, 3, 5, 6, 7, 8, 9, 10, 11, 12, 13, 14, 15] {
        assert!(!oracle.evaluate(p));
    }
}

#[test]
fn list_oracle_matches_exactly_its_list() {
    let oracle = ListOracle {
        matching: vec![3, 11],
    };
    assert!(oracle.evaluate(3));
    assert!(oracle.evaluate(11));
    assert!(!oracle.evaluate(0));
    assert!(!oracle.evaluate(4));
}
