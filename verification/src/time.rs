//! Spans of time as plain counts of nanoseconds, and the monotonic clock they
//! are read from.

use vstd::prelude::*;
use std::time::Instant;

verus! {

/// A span of time, counted in nanoseconds.
#[derive(Clone, Copy, Debug, Default, PartialEq, Eq, Structural, PartialOrd, Ord, Hash)]
pub struct Duration {
    pub nanos: u128,
}

impl Duration {
    /// The span of `nanos` nanoseconds.
    pub fn from_nanos(nanos: u128) -> (d: Duration)
        ensures
            d.nanos == nanos,
    {
        Duration { nanos }
    }

    /// The span of `millis` milliseconds.
    pub fn from_millis(millis: u64) -> (d: Duration)
        ensures
            d.nanos == millis * 1_000_000,
    {
        Duration { nanos: (millis as u128) * 1_000_000 }
    }

    /// The span of `secs` seconds.
    pub fn from_secs(secs: u64) -> (d: Duration)
        ensures
            d.nanos == secs * 1_000_000_000,
    {
        Duration { nanos: (secs as u128) * 1_000_000_000 }
    }

    /// The empty span.
    pub fn zero() -> (d: Duration)
        ensures
            d.nanos == 0,
    {
        Duration { nanos: 0 }
    }

    /// The length of the span in nanoseconds.
    pub fn as_nanos(&self) -> (n: u128)
        ensures
            n == self.nanos,
    {
        self.nanos
    }
}

/// The largest span, in nanoseconds, that a `std::time::Duration` can hold:
/// `u64::MAX` whole seconds and 999 999 999 nanoseconds.
pub const STD_DURATION_MAX_NANOS: u128 = 18_446_744_073_709_551_615_999_999_999u128;

#[verifier::external_type_specification]
#[verifier::external_body]
pub struct ExInstant(Instant);

/// Reads the monotonic clock through `std::time::Instant::now`. The reading
/// depends on when the call is made, so nothing is claimed of it.
#[verifier::external_body]
pub(crate) fn clock_now() -> (now: Instant) {
    Instant::now()
}

/// `std::time::Instant::elapsed`: the time that has passed on the monotonic
/// clock since `start`. It depends on when the call is made, so nothing is
/// claimed of it.
#[verifier::external_body]
fn std_elapsed(start: &Instant) -> (d: std::time::Duration) {
    start.elapsed()
}

/// `std::time::Duration::as_nanos`: the whole span in nanoseconds. Its
/// documentation bounds a `Duration` by `u64::MAX` seconds plus less than one
/// second, so the count is at most `STD_DURATION_MAX_NANOS`; what the count is
/// beyond that bound is left unsaid, since a `std::time::Duration` is opaque
/// here.
#[verifier::external_body]
fn std_nanos(d: std::time::Duration) -> (n: u128)
    ensures
        n <= STD_DURATION_MAX_NANOS,
{
    d.as_nanos()
}

/// The time that has passed since `start`, as a span of this library. It
/// depends on when the call is made; all that holds of every reading is that
/// it fits a `std::time::Duration`.
pub(crate) fn time_since(start: &Instant) -> (d: Duration)
    ensures
        d.nanos <= STD_DURATION_MAX_NANOS,
{
    Duration { nanos: std_nanos(std_elapsed(start)) }
}

} // verus!
