//! A stopwatch.

use crate::clock::{duration_millis, elapsed_since, monotonic_now, span_between, whole_millis};
use std::time::{Duration, Instant};
use vstd::prelude::*;

verus! {

/// A stopwatch that starts when it is made and can be read any number of
/// times; reading does not reset it.
pub struct Timer {
    start: Instant,
}

impl Timer {
    /// The reading of the monotonic clock at which the stopwatch started.
    pub closed spec fn started(&self) -> Instant {
        self.start
    }

    /// Whether the stopwatch started at this reading of the clock.
    pub open spec fn started_at(&self, reading: Instant) -> bool {
        self.started() == reading
    }

    /// Starts a stopwatch now: its start is a reading of the clock. Which
    /// reading, the clock decides.
    pub fn new() -> (timer: Self)
        ensures
            exists|now: Instant| #[trigger] timer.started_at(now),
    {
        let now = monotonic_now();
        let timer = Timer { start: now };
        assert(timer.started_at(now));
        timer
    }

    /// The time from the stopwatch's own start to a reading of the clock
    /// now. The stopwatch itself is left as it was.
    pub fn elapsed(&self) -> (d: Duration)
        ensures
            exists|now: Instant| d == #[trigger] span_between(now, self.started()),
    {
        let d = elapsed_since(&self.start);
        let ghost now = choose|now: Instant| d == #[trigger] span_between(now, self.start);
        assert(d == span_between(now, self.started()));
        d
    }

    /// The time from the stopwatch's own start to a reading of the clock
    /// now, in whole milliseconds.
    pub fn elapsed_millis(&self) -> (ms: u128)
        ensures
            exists|now: Instant|
                ms == duration_millis(#[trigger] span_between(now, self.started())),
    {
        let d = self.elapsed();
        let ghost now = choose|now: Instant| d == #[trigger] span_between(now, self.started());
        let ms = whole_millis(&d);
        assert(ms == duration_millis(span_between(now, self.started())));
        ms
    }
}

} // verus!
