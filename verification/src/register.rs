use vstd::prelude::*;

verus! {

/// The Cancellation Register: a single word holding the smallest domain index
/// beyond which no further scanning should occur (the "ceiling").
/// `u32::MAX` stands for "unbounded" (no stopping condition yet).
///
/// The ceiling only ever decreases: it is lowered when a match is found, or
/// forced to the domain minimum (0) by external cancellation.
pub struct CancelRegister {
    value: u32,
}

impl CancelRegister {
    /// The current ceiling: a worker must stop scanning as soon as its cursor
    /// reaches or exceeds this index.
    pub closed spec fn ceiling(&self) -> u32 {
        self.value
    }

    pub fn new() -> (r: CancelRegister)
        ensures
            r.ceiling() == u32::MAX,
    {
        CancelRegister { value: u32::MAX }
    }

    pub fn read(&self) -> (r: u32)
        ensures
            r == self.ceiling(),
    {
        self.value
    }

    /// Conditional-lower: sets the register to `min(current, v)`.
    /// The ceiling never increases.
    pub fn lower(&mut self, v: u32)
        ensures
            final(self).ceiling() == (if v < old(self).ceiling() {
                v
            } else {
                old(self).ceiling()
            }),
            final(self).ceiling() <= old(self).ceiling(),
            final(self).ceiling() <= v,
    {
        if v < self.value {
            self.value = v;
        }
    }
}

} // verus!
