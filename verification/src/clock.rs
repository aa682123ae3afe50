//! Readings of the system's clocks.

use std::time::{Duration, Instant, SystemTime, SystemTimeError};
use vstd::prelude::*;

verus! {

/// `std::time::SystemTime`, a reading of the wall clock.
#[verifier::external_type_specification]
#[verifier::external_body]
pub struct ExSystemTime(SystemTime);

/// `std::time::SystemTimeError`, for a reading that lies before the time
/// it is measured from.
#[verifier::external_type_specification]
#[verifier::external_body]
pub struct ExSystemTimeError(SystemTimeError);

/// `std::time::Instant`, a reading of the monotonic clock.
#[verifier::external_type_specification]
#[verifier::external_body]
pub struct ExInstant(Instant);

/// `SystemTime::now` of std: the wall clock's reading, of which nothing is
/// known beforehand.
#[verifier::external_body]
pub(crate) fn wall_clock_now() -> SystemTime {
    SystemTime::now()
}

/// `SystemTime::duration_since` of std, counted from the Unix epoch: the
/// time that has passed since then, or an error for a reading before it.
#[verifier::external_body]
pub(crate) fn since_epoch(t: &SystemTime) -> Result<Duration, SystemTimeError> {
    t.duration_since(std::time::UNIX_EPOCH)
}

/// What `Duration::as_millis` of std gives for a duration: the number of
/// whole milliseconds that it holds.
pub uninterp spec fn duration_millis(d: Duration) -> u128;

/// `Duration::as_millis` of std: the whole milliseconds of a duration, which
/// depend on the duration alone.
#[verifier::external_body]
pub(crate) fn whole_millis(d: &Duration) -> (ms: u128)
    ensures
        ms == duration_millis(*d),
{
    d.as_millis()
}

/// `Instant::now` of std: the monotonic clock's reading.
#[verifier::external_body]
pub(crate) fn monotonic_now() -> Instant {
    Instant::now()
}

/// What `Instant::duration_since` of std gives: the time from the earlier
/// reading of the monotonic clock to the later one.
pub uninterp spec fn span_between(later: Instant, earlier: Instant) -> Duration;

/// `Instant::elapsed` of std: the time from the reading `start` to a
/// reading of the clock taken during the call. Which reading that is, the
/// clock decides.
#[verifier::external_body]
pub(crate) fn elapsed_since(start: &Instant) -> (d: Duration)
    ensures
        exists|now: Instant| d == #[trigger] span_between(now, *start),
{
    start.elapsed()
}

} // verus!
