//! The kernel's clock: a count of timer ticks that only ever goes up.

use vstd::prelude::*;

verus! {

/// Timer ticks in one second.
pub const TICKS_PER_SECOND: usize = 1000;

/// The number of timer ticks since boot.
pub struct Counter(u128);

impl View for Counter {
    type V = u128;

    closed spec fn view(&self) -> u128 {
        self.0
    }
}

impl Counter {
    /// A counter at zero.
    pub fn new() -> (c: Counter)
        ensures
            c@ == 0,
    {
        Counter(0)
    }

    /// The ticks counted so far.
    pub fn ticks(&self) -> (t: u128)
        ensures
            t == self@,
    {
        self.0
    }

    /// Counts one more tick.
    pub fn inc(&mut self)
        requires
            old(self)@ < u128::MAX,
        ensures
            final(self)@ == old(self)@ + 1,
    {
        self.0 += 1;
    }
}

} // verus!
