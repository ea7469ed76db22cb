//! Sleeping until a point in uptime.

use vstd::prelude::*;

verus! {

/// A pending sleep: done once uptime reaches `end_time_ms`.
pub struct SleepFuture {
    end_time_ms: u64,
}

impl SleepFuture {
    /// Uptime, in milliseconds, at which the sleep ends.
    pub closed spec fn deadline(&self) -> int {
        self.end_time_ms as int
    }

    /// A sleep of `duration_ms` milliseconds starting at uptime `now_ms`.
    pub fn new(now_ms: u64, duration_ms: u64) -> (f: SleepFuture)
        requires
            now_ms + duration_ms <= u64::MAX,
        ensures
            f.deadline() == now_ms + duration_ms,
    {
        SleepFuture { end_time_ms: now_ms + duration_ms }
    }

    /// Uptime at which the sleep ends.
    pub fn end_time_ms(&self) -> (t: u64)
        ensures
            t == self.deadline(),
    {
        self.end_time_ms
    }

    /// The sleep is over at uptime `now_ms`: what a poll answers `Ready` on.
    pub fn is_ready(&self, now_ms: u64) -> (ready: bool)
        ensures
            ready == (now_ms >= self.deadline()),
    {
        now_ms >= self.end_time_ms
    }
}

} // verus!
