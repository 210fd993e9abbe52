use std::time::Duration;
use std::time::Instant;
use vstd::prelude::*;

verus! {

#[verifier::external_type_specification]
#[verifier::external_body]
pub struct ExInstant(std::time::Instant);

/// `std::time::Instant::now`: a reading of the monotonic clock.
/// Nothing is stated of the value: it depends on the time of the call.
#[verifier::external_body]
fn instant_now() -> (origin: Instant) {
    Instant::now()
}

/// `std::time::Instant::elapsed`: the time passed since `origin`.
/// Nothing is stated of the value: it depends on the time of the call.
#[verifier::external_body]
fn instant_elapsed(origin: &Instant) -> (passed: Duration) {
    origin.elapsed()
}

/// `std::time::Duration::as_nanos`: the whole number of nanoseconds in `span`.
/// `Duration` is opaque to Verus, so its nanosecond count cannot be named here;
/// the result is left unsaid.
#[verifier::external_body]
fn duration_as_nanos(span: &Duration) -> (nanos: u128) {
    span.as_nanos()
}

/// A monotonic clock that reads nanoseconds since the moment it was started.
/// Every time stamp of the library is such a reading.
#[derive(Clone, Copy, Debug)]
pub struct Clock {
    origin: Instant,
}

impl Clock {
    /// Starts a clock at the current instant.
    pub fn start() -> (clock: Clock) {
        Clock { origin: instant_now() }
    }

    /// Nanoseconds passed since the clock was started. The reading depends on
    /// the time of the call, so no clause states it.
    pub fn now(&self) -> (nanos: u128) {
        let passed = instant_elapsed(&self.origin);
        duration_as_nanos(&passed)
    }
}

/// Time from `then` to `now` in nanoseconds; zero when `then` lies after `now`,
/// as `Instant::duration_since` saturates.
pub open spec fn elapsed(now: u128, then: u128) -> int {
    if now >= then {
        now - then
    } else {
        0
    }
}

/// Computes `elapsed(now, then)`.
pub fn elapsed_between(now: u128, then: u128) -> (passed: u128)
    ensures
        passed == elapsed(now, then),
{
    if now >= then {
        now - then
    } else {
        0
    }
}

/// Nanoseconds in `ms` milliseconds.
pub open spec fn millis_to_nanos(ms: u64) -> int {
    ms * 1_000_000
}

/// Computes `millis_to_nanos(ms)`; it cannot overflow a `u128`.
pub fn nanos_of_millis(ms: u64) -> (nanos: u128)
    ensures
        nanos == millis_to_nanos(ms),
{
    (ms as u128) * 1_000_000
}

} // verus!
