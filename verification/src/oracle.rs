use vstd::prelude::*;
use crate::digits::contains_forbidden_digit;
use crate::digits::has_forbidden_digit;

verus! {

/// The decimal digits, least significant first, of 16 raised to the given
/// power. This names the value computed through num-bigint; it is a pure
/// function of the exponent alone.
pub uninterp spec fn pow16_digits_of(p: u32) -> Seq<u8>;

/// Relies on num_bigint::BigUint: `pow` raises 16 to the given exponent and
/// `to_radix_le` returns the base-10 digits of that value, least significant
/// first. Both depend on the exponent alone.
#[verifier::external_body]
fn pow16_digits(p: u32) -> (r: Vec<u8>)
    ensures
        r@ == pow16_digits_of(p),
{
    let base = num_bigint::BigUint::from(16u32);
    base.pow(p).to_radix_le(10)
}

/// The predicate of the reference problem: domain index `p` matches when the
/// decimal expansion of `16^p` omits the digits 1, 2, 4 and 8.
pub open spec fn pow16_index_matches(p: u32) -> bool {
    !has_forbidden_digit(pow16_digits_of(p))
}

/// The predicate oracle the search consumes: a pure, deterministic test of a
/// single domain index. `matches` is the mathematical predicate; `evaluate`
/// computes it.
pub trait Oracle {
    spec fn matches(&self, i: u32) -> bool;

    fn evaluate(&self, i: u32) -> (r: bool)
        ensures
            r == self.matches(i);
}

/// The oracle of the reference problem: does `16^i` omit 1, 2, 4 and 8?
pub struct Pow16Oracle {}

impl Oracle for Pow16Oracle {
    open spec fn matches(&self, i: u32) -> bool {
        pow16_index_matches(i)
    }

    fn evaluate(&self, i: u32) -> (r: bool) {
        let digits = pow16_digits(i);
        let forbidden = contains_forbidden_digit(&digits);
        !forbidden
    }
}

/// An oracle over an explicit list of matching indices, for driving the
/// search machinery over known data.
pub struct ListOracle {
    pub matching: Vec<u32>,
}

impl Oracle for ListOracle {
    open spec fn matches(&self, i: u32) -> bool {
        self.matching@.contains(i)
    }

    fn evaluate(&self, i: u32) -> (r: bool) {
        let mut k: usize = 0;
        while k < self.matching.len()
            invariant
                k <= self.matching.len(),
                forall|j: int| 0 <= j < k ==> self.matching@[j] != i,
            decreases self.matching.len() - k,
        {
            if self.matching[k] == i {
                proof {
                    assert(self.matching@[k as int] == i);
                }
                return true;
            }
            k = k + 1;
        }
        proof {
            assert(!self.matching@.contains(i));
        }
        false
    }
}

} // verus!
