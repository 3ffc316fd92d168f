use vstd::prelude::*;

verus! {

/// The digits the reference problem forbids: a candidate power matches
/// exactly when its decimal expansion avoids all of them.
pub open spec fn is_forbidden_digit(d: u8) -> bool {
    d == 1 || d == 2 || d == 4 || d == 8
}

/// Whether some digit of the expansion is one of 1, 2, 4, 8.
pub open spec fn has_forbidden_digit(s: Seq<u8>) -> bool {
    exists|k: int| 0 <= k < s.len() && is_forbidden_digit(s[k])
}

/// Scans a digit expansion for an occurrence of 1, 2, 4 or 8.
pub fn contains_forbidden_digit(digits: &Vec<u8>) -> (r: bool)
    ensures
        r == has_forbidden_digit(digits@),
{
    let mut k: usize = 0;
    while k < digits.len()
        invariant
            k <= digits.len(),
            forall|j: int| 0 <= j < k ==> !is_forbidden_digit(digits@[j]),
        decreases digits.len() - k,
    {
        let d = digits[k];
        if d == 1 || d == 2 || d == 4 || d == 8 {
            proof {
                assert(is_forbidden_digit(digits@[k as int]));
            }
            return true;
        }
        k = k + 1;
    }
    false
}

} // verus!
