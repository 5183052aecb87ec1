//! The clocks of the standard library. Nothing is known of what they read.

use vstd::prelude::*;
use std::time::{Duration, Instant, SystemTime};

verus! {

/// A point on the monotonic clock (`std::time::Instant`): carried, never
/// looked into.
#[verifier::external_type_specification]
#[verifier::external_body]
pub struct ExInstant(Instant);

/// A point on the wall clock (`std::time::SystemTime`): carried, never
/// looked into.
#[verifier::external_type_specification]
#[verifier::external_body]
pub struct ExSystemTime(SystemTime);

/// `Instant::now` reads the monotonic clock; nothing is claimed of the
/// reading.
pub assume_specification[ Instant::now ]() -> Instant;

/// `SystemTime::now` reads the wall clock; nothing is claimed of the
/// reading.
pub assume_specification[ SystemTime::now ]() -> SystemTime;

/// `Instant::checked_add` moves an instant forward, or returns `None` where
/// the result cannot be represented; nothing is claimed of which.
pub assume_specification[ Instant::checked_add ](instant: &Instant, duration: Duration) -> Option<
    Instant,
>;

/// `Duration::from_secs` makes a duration of whole seconds; it accepts
/// every `u64`.
pub assume_specification[ Duration::from_secs ](secs: u64) -> Duration;

/// `Duration::as_secs` returns the whole seconds of a duration.
pub assume_specification[ Duration::as_secs ](duration: &Duration) -> u64;

/// `Duration::subsec_nanos` returns the fractional part of a duration in
/// nanoseconds, which is less than a second.
pub assume_specification[ Duration::subsec_nanos ](duration: &Duration) -> (nanos: u32)
    ensures
        nanos < 1_000_000_000,
;

/// The time between the Unix epoch and `time`, or `None` for a time before
/// the epoch. Wraps `SystemTime::duration_since` with `UNIX_EPOCH`.
#[verifier::external_body]
pub(crate) fn since_epoch(time: &SystemTime) -> Option<Duration> {
    match time.duration_since(std::time::UNIX_EPOCH) {
        Ok(elapsed) => Some(elapsed),
        Err(_) => None,
    }
}

/// The whole seconds since the Unix epoch on the wall clock; 0 for a clock
/// that stands before the epoch.
pub fn unix_seconds() -> u64 {
    let now = SystemTime::now();
    match since_epoch(&now) {
        Some(elapsed) => elapsed.as_secs(),
        None => 0,
    }
}

/// The nanoseconds within the current second of the wall clock; 0 for a
/// clock that stands before the epoch.
pub fn clock_nanos() -> (nanos: u32)
    ensures
        nanos < 1_000_000_000,
{
    let now = SystemTime::now();
    match since_epoch(&now) {
        Some(elapsed) => elapsed.subsec_nanos(),
        None => 0,
    }
}

/// The instant `secs` seconds from now on the monotonic clock, or `None`
/// where it cannot be represented.
pub fn instant_after(secs: u64) -> Option<Instant> {
    let now = Instant::now();
    now.checked_add(Duration::from_secs(secs))
}

} // verus!
