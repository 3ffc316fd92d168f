use pow16_search::oracle::ListOracle;
use pow16_search::register::CancelRegister;
use pow16_search::search::min_found;
use pow16_search::search::Phase;
use pow16_search::search::Search;
use pow16_search::worker::run_block;
use pow16_search::worker::Outcome;

fn oracle_of(matching: Vec<u32>) -> ListOracle {
    ListOracle { matching }
}

#[test]
fn register_starts_unbounded() {
    let reg = CancelRegister::new();
    assert_eq!(reg.read(), u32::MAX);
}

#[test]
fn register_lower_takes_minimum_and_never_rises() {
    let mut reg = CancelRegister::new();
    reg.lower(10);
    assert_eq!(reg.read(), 10);
    reg.lower(20);
    assert_eq!(reg.read(), 10);
    reg.lower(5);
    assert_eq!(reg.read(), 5);
}

#[test]
fn worker_finds_first_match_in_block() {
    let oracle = oracle_of(vec![13, 14]);
    let reg = CancelRegister::new();
    assert_eq!(run_block(&oracle, 10, 5, &reg), Outcome::Found(13));
}

#[test]
fn worker_exhausts_block_without_match() {
    let oracle = oracle_of(vec![13]);
    let reg = CancelRegister::new();
    assert_eq!(run_block(&oracle, 0, 5, &reg), Outcome::NoMatchExhausted);
}

#[test]
fn worker_stops_at_ceiling_inside_block() {
    let oracle = oracle_of(vec![13]);
    let mut reg = CancelRegister::new();
    reg.lower(13);
    // scans 10, 11, 12 and stops: 13 is at the ceiling, never evaluated
    assert_eq!(run_block(&oracle, 10, 5, &reg), Outcome::StoppedEarly);
}

#[test]
fn worker_stops_immediately_when_ceiling_below_block() {
    let oracle = oracle_of(vec![2]);
    let mut reg = CancelRegister::new();
    reg.lower(0);
    assert_eq!(run_block(&oracle, 0, 5, &reg), Outcome::StoppedEarly);
}

#[test]
fn worker_finds_match_just_below_ceiling() {
    let oracle = oracle_of(vec![12]);
    let mut reg = CancelRegister::new();
    reg.lower(13);
    assert_eq!(run_block(&oracle, 10, 5, &reg), Outcome::Found(12));
}

#[test]
fn aggregator_of_no_finds_is_none() {
    let found: Vec<u32> = vec![];
    assert_eq!(min_found(&found), None);
}

#[test]
fn aggregator_takes_minimum_not_arrival_order() {
    assert_eq!(min_found(&vec![50, 42]), Some(42));
    assert_eq!(min_found(&vec![13]), Some(13));
    assert_eq!(min_found(&vec![5, 5, 9]), Some(5));
}

#[test]
fn new_seeds_consecutive_blocks() {
    let s = Search::new(oracle_of(vec![]), 4, 2, 6);
    assert_eq!(s.active, vec![6, 8, 10, 12]);
    assert_eq!(s.next_block, 14);
    assert_eq!(s.phase, Phase::Running);
    assert_eq!(s.register.read(), u32::MAX);
}

#[test]
fn match_at_thirteen_is_found_on_the_third_block() {
    // predicate true only at 13, domainStart 0, blockSize 5, poolSize 2:
    // blocks [0,5) and [5,10) are seeded; each finishes without a match and
    // [10,15) is dispatched; its Worker finds 13
    let mut s = Search::new(oracle_of(vec![13]), 2, 5, 0);
    assert_eq!(s.active, vec![0, 5]);
    assert_eq!(s.poll_at(0), Outcome::NoMatchExhausted);
    assert_eq!(s.next_block, 15);
    assert_eq!(s.poll_at(0), Outcome::NoMatchExhausted);
    assert_eq!(s.next_block, 20);
    assert_eq!(s.poll_at(0), Outcome::Found(13));
    assert_eq!(s.register.read(), 13);
    assert_eq!(s.phase, Phase::MatchDraining);
    assert_eq!(s.await_result(0), Some(Some(13)));
    assert_eq!(s.phase, Phase::Done);
}

#[test]
fn match_at_thirteen_via_await_alone() {
    let mut s = Search::new(oracle_of(vec![13]), 2, 5, 0);
    assert_eq!(s.await_result(10), Some(Some(13)));
}

#[test]
fn always_false_predicate_cancelled_run_returns_none() {
    // the predicate never holds; after a few completions the run is
    // cancelled; every Worker then reports StoppedEarly or NoMatchExhausted
    let mut s = Search::new(oracle_of(vec![]), 2, 3, 0);
    assert_eq!(s.poll_at(0), Outcome::NoMatchExhausted);
    assert_eq!(s.poll_at(0), Outcome::NoMatchExhausted);
    s.cancel();
    assert_eq!(s.register.read(), 0);
    assert_eq!(s.phase, Phase::CancelDraining);
    while !s.active.is_empty() {
        let outcome = s.poll_at(0);
        assert!(matches!(
            outcome,
            Outcome::StoppedEarly | Outcome::NoMatchExhausted
        ));
    }
    assert_eq!(s.await_result(0), Some(None));
}

#[test]
fn cancel_then_await_returns_without_budget() {
    let mut s = Search::new(oracle_of(vec![]), 3, 4, 0);
    s.cancel();
    // draining never consumes budget: a zero budget still drains the pool
    assert_eq!(s.await_result(0), Some(None));
    assert_eq!(s.phase, Phase::Done);
}

#[test]
fn cancel_after_match_keeps_the_found_minimum() {
    let mut s = Search::new(oracle_of(vec![7]), 2, 5, 0);
    // the match sits in the second seeded block [5, 10)
    assert_eq!(s.poll_at(1), Outcome::Found(7));
    s.cancel();
    assert_eq!(s.await_result(0), Some(Some(7)));
}

#[test]
fn racing_finds_resolve_to_the_smaller_index() {
    // two Workers hold matches at 50 and 42; the one holding 50 reports
    // first and lowers the ceiling, yet the drain keeps the 42 and the
    // Aggregator's minimum rule makes it the answer
    let mut s = Search::new(oracle_of(vec![42, 50]), 2, 10, 40);
    assert_eq!(s.active, vec![40, 50]);
    assert_eq!(s.poll_at(1), Outcome::Found(50));
    assert_eq!(s.register.read(), 50);
    assert_eq!(s.poll_at(0), Outcome::Found(42));
    assert_eq!(s.register.read(), 42);
    assert_eq!(s.found, vec![50, 42]);
    assert_eq!(s.await_result(0), Some(Some(42)));
}

#[test]
fn smallest_match_wins_for_various_pool_shapes() {
    let mut a = Search::new(oracle_of(vec![29]), 1, 1, 0);
    assert_eq!(a.await_result(40), Some(Some(29)));

    let mut b = Search::new(oracle_of(vec![7, 13]), 3, 4, 0);
    assert_eq!(b.await_result(10), Some(Some(7)));

    let mut c = Search::new(oracle_of(vec![4, 12]), 2, 3, 10);
    // 4 lies below the domain start and is never scanned
    assert_eq!(c.await_result(10), Some(Some(12)));
}

#[test]
fn domain_top_stops_dispatch() {
    // only one whole block still fits below the top of the domain: the pool
    // seeds a single Worker and the run finishes once it exhausts its block
    let start = u32::MAX - 10;
    let mut s = Search::new(oracle_of(vec![]), 3, 8, start);
    assert_eq!(s.active, vec![start]);
    assert_eq!(s.next_block, start + 8);
    assert_eq!(s.poll_at(0), Outcome::NoMatchExhausted);
    assert_eq!(s.await_result(0), Some(None));
}

#[test]
fn budget_exhaustion_reports_still_running() {
    let mut s = Search::new(oracle_of(vec![]), 2, 3, 0);
    assert_eq!(s.await_result(2), None);
    assert_eq!(s.phase, Phase::Running);
    s.cancel();
    assert_eq!(s.await_result(0), Some(None));
}
