use vstd::prelude::*;
use crate::oracle::Oracle;
use crate::register::CancelRegister;

verus! {

/// Terminal outcome of one Worker.
#[derive(Clone, Copy, PartialEq, Eq, Structural, Debug)]
pub enum Outcome {
    /// The cursor hit a matching index: the first match in the block that
    /// lies below the ceiling the Worker observed.
    Found(u32),
    /// The whole block was scanned and no index in it matched.
    NoMatchExhausted,
    /// The ceiling fell at or inside the block: scanning stopped before the
    /// block was exhausted, without a match below the ceiling.
    StoppedEarly,
}

/// No index in `[lo, hi)` matches the oracle.
pub open spec fn none_match<O: Oracle>(o: O, lo: int, hi: int) -> bool {
    forall|i: int| lo <= i < hi ==> !(#[trigger] o.matches(i as u32))
}

/// The exclusive upper bound of the region a Worker over block
/// `[start, start + size)` scans under ceiling `c`: the block end clipped by
/// the ceiling, and never below `start`.
pub open spec fn scan_limit(start: u32, size: u32, c: u32) -> int {
    if c >= start + size {
        start + size
    } else if c >= start {
        c as int
    } else {
        start as int
    }
}

/// The first index in `[lo, hi)` that the oracle matches, or `hi` when none.
pub open spec fn first_match_from<O: Oracle>(o: O, lo: int, hi: int) -> int
    decreases hi - lo,
{
    if lo >= hi {
        hi
    } else if o.matches(lo as u32) {
        lo
    } else {
        first_match_from(o, lo + 1, hi)
    }
}

/// `first_match_from` lies in `[lo, hi]`, nothing before it matches, and when
/// it lies below `hi` it is itself a match.
pub proof fn lemma_first_match_props<O: Oracle>(o: O, lo: int, hi: int)
    requires
        lo <= hi,
    ensures
        lo <= first_match_from(o, lo, hi) <= hi,
        none_match(o, lo, first_match_from(o, lo, hi)),
        first_match_from(o, lo, hi) < hi ==> o.matches(first_match_from(o, lo, hi) as u32),
    decreases hi - lo,
{
    if lo >= hi {
    } else if o.matches(lo as u32) {
    } else {
        lemma_first_match_props(o, lo + 1, hi);
        let fm = first_match_from(o, lo, hi);
        assert forall|i: int| lo <= i < fm implies !(#[trigger] o.matches(i as u32)) by {
            if i == lo {
            } else {
                assert(none_match(o, lo + 1, first_match_from(o, lo + 1, hi)));
            }
        }
    }
}

/// A prefix known to hold no match can be skipped without changing the first
/// match.
pub proof fn lemma_first_match_skip<O: Oracle>(o: O, lo: int, mid: int, hi: int)
    requires
        lo <= mid <= hi,
        none_match(o, lo, mid),
    ensures
        first_match_from(o, lo, hi) == first_match_from(o, mid, hi),
    decreases mid - lo,
{
    if lo < mid {
        assert(!o.matches(lo as u32));
        assert(none_match(o, lo + 1, mid));
        lemma_first_match_skip(o, lo + 1, mid, hi);
    }
}

/// The exclusive end of the region a Worker over `[start, start + size)`
/// evaluates under ceiling `c`: the prefix of the block up to its stopping
/// point, the first match included.
pub open spec fn scan_end<O: Oracle>(o: O, start: u32, size: u32, c: u32) -> int {
    let limit = scan_limit(start, size, c);
    let fm = first_match_from(o, start as int, limit);
    if fm < limit {
        fm + 1
    } else {
        limit
    }
}

/// The set of indices a Worker over `[start, start + size)` evaluates under
/// ceiling `c`.
pub open spec fn scanned_set<O: Oracle>(o: O, start: u32, size: u32, c: u32) -> Set<int> {
    Set::new(|i: int| start <= i < scan_end(o, start, size, c))
}

/// One Worker: scans the block `[start, start + size)` in strictly increasing
/// order, consulting the Cancellation Register before each step. It stops at
/// the first match, at the ceiling, or at the block end, whichever comes
/// first; the contract pins the outcome exactly.
pub fn run_block<O: Oracle>(oracle: &O, start: u32, size: u32, reg: &CancelRegister) -> (r: Outcome)
    requires
        size >= 1,
        start + size <= u32::MAX,
    ensures
        ({
            let c = reg.ceiling();
            let limit = scan_limit(start, size, c);
            let fm = first_match_from(*oracle, start as int, limit);
            &&& (fm < limit ==> r == Outcome::Found(fm as u32))
            &&& (fm == limit && c >= start + size ==> r == Outcome::NoMatchExhausted)
            &&& (fm == limit && c < start + size ==> r == Outcome::StoppedEarly)
        }),
{
    let end = start + size;
    let mut cursor: u32 = start;
    loop
        invariant
            start <= cursor < end,
            end == start + size,
            size >= 1,
            none_match(*oracle, start as int, cursor as int),
        decreases end - cursor,
    {
        let c = reg.read();
        let ghost limit = scan_limit(start, size, c);
        if cursor >= c {
            proof {
                assert(limit <= cursor);
                assert(none_match(*oracle, start as int, limit));
                lemma_first_match_skip(*oracle, start as int, limit, limit);
            }
            return Outcome::StoppedEarly;
        }
        let matched = oracle.evaluate(cursor);
        if matched {
            proof {
                assert(cursor < limit);
                lemma_first_match_skip(*oracle, start as int, cursor as int, limit);
                assert(first_match_from(*oracle, cursor as int, limit) == cursor as int);
            }
            return Outcome::Found(cursor);
        }
        proof {
            assert forall|i: int| start <= i < cursor + 1 implies !(#[trigger] (*oracle).matches(i as u32)) by {
                if i < cursor {
                } else {
                    assert(i == cursor as int);
                }
            }
        }
        cursor = cursor + 1;
        if cursor >= end {
            proof {
                assert(c >= end);
                assert(limit == end);
                assert(none_match(*oracle, start as int, end as int));
                lemma_first_match_skip(*oracle, start as int, limit, limit);
            }
            return Outcome::NoMatchExhausted;
        }
    }
}

} // verus!
