//! A time source that is set by hand.

use vstd::prelude::*;

verus! {

/// A clock that stands still until it is moved.
#[derive(Clone, Copy, Debug, PartialEq, Eq, Structural)]
pub struct ManualClock {
    /// Seconds since the epoch.
    pub time: i64,
}

impl ManualClock {
    pub fn new(time: i64) -> (clock: ManualClock)
        ensures
            clock.time == time,
    {
        ManualClock { time }
    }

    pub fn now(&self) -> (time: i64)
        ensures
            time == self.time,
    {
        self.time
    }

    /// Moves the clock `seconds` forward.
    pub fn advance_time(&mut self, seconds: u64)
        requires
            old(self).time + seconds <= i64::MAX,
        ensures
            final(self).time == old(self).time + seconds,
    {
        self.time = (self.time as i128 + seconds as i128) as i64;
    }

    /// Moves the clock `seconds` back.
    pub fn rewind_time(&mut self, seconds: u64)
        requires
            old(self).time - seconds >= i64::MIN,
        ensures
            final(self).time == old(self).time - seconds,
    {
        self.time = (self.time as i128 - seconds as i128) as i64;
    }
}

} // verus!
