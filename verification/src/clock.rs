//! Instants and durations as plain integers of nanoseconds.
//!
//! The wall clock is read through chrono; everything that is decided from
//! the time works on the integer that this module hands out.
use vstd::prelude::*;

verus! {

/// Nanoseconds in one second.
pub const NANOS_PER_SEC: i128 = 1_000_000_000;

/// The largest number of nanoseconds that a `std::time::Duration` holds:
/// `u64::MAX` seconds and 999,999,999 nanoseconds.
pub const MAX_DURATION_NANOS: u128 = 18_446_744_073_709_551_615_999_999_999;

/// An instant given as seconds since the Unix epoch and the nanoseconds
/// past that second, counted in nanoseconds.
pub open spec fn instant_of(secs: i64, subsec_nanos: u32) -> int {
    secs as int * NANOS_PER_SEC + subsec_nanos as int
}

/// Reads the wall clock: `chrono::Utc::now()`, taken apart into
/// `DateTime::timestamp` (whole seconds since the epoch) and
/// `DateTime::timestamp_subsec_nanos`. chrono documents that the nanosecond
/// part stays below two billion (it passes one billion only inside a leap
/// second); nothing else is claimed of the time that comes back. chrono
/// panics when the system clock reads a time before the Unix epoch.
#[verifier::external_body]
fn utc_now_parts() -> (r: (i64, u32))
    ensures
        r.1 < 2_000_000_000,
{
    let now = chrono::Utc::now();
    (now.timestamp(), now.timestamp_subsec_nanos())
}

/// The current instant in nanoseconds since the Unix epoch.
pub fn now_nanos() -> (t: i128)
    ensures
        exists|secs: i64, sub: u32| sub < 2_000_000_000 && t == instant_of(secs, sub),
        i64::MIN as int * NANOS_PER_SEC <= t,
        t < (i64::MAX as int + 2) * NANOS_PER_SEC,
{
    let (secs, sub) = utc_now_parts();
    let t = secs as i128 * NANOS_PER_SEC + sub as i128;
    assert(t == instant_of(secs, sub));
    t
}

/// The total number of nanoseconds in the duration `d`, as
/// `Duration::as_nanos` gives it.
pub uninterp spec fn nanos_of(d: std::time::Duration) -> u128;

/// The length of a `std::time::Duration` in nanoseconds:
/// `Duration::as_nanos`. It depends on the duration alone; its
/// documentation gives the total number of nanoseconds in the duration,
/// which is at most that of `Duration::MAX`.
#[verifier::external_body]
pub(crate) fn duration_nanos(d: &std::time::Duration) -> (n: u128)
    ensures
        n == nanos_of(*d),
        n <= MAX_DURATION_NANOS,
{
    d.as_nanos()
}

/// `Duration::from_secs`: a duration of whole seconds.
#[verifier::external_body]
pub(crate) fn seconds(n: u64) -> std::time::Duration {
    std::time::Duration::from_secs(n)
}

} // verus!
