//! Readings of the system clock. What a clock reading returns depends on
//! the time it is taken, so nothing is promised of it; the logic that uses
//! a reading takes it as an argument and is verified for every value.

use std::time::{Duration, SystemTime};
use vstd::prelude::*;

verus! {

/// The standard library's wall-clock time point, held opaquely.
#[verifier::external_type_specification]
#[verifier::external_body]
pub struct ExSystemTime(SystemTime);

/// Calls `std::time::SystemTime::now`: the current wall-clock time. Nothing
/// is stated of the result, which depends on when it is called.
#[verifier::external_body]
pub fn system_now() -> (t: SystemTime) {
    SystemTime::now()
}

/// Calls `SystemTime::duration_since(UNIX_EPOCH)`: the time elapsed since
/// the Unix epoch, `None` when `t` lies before it. Nothing is stated of the
/// result, since `SystemTime` is opaque here.
#[verifier::external_body]
pub fn since_unix_epoch(t: &SystemTime) -> (d: Option<Duration>) {
    t.duration_since(std::time::UNIX_EPOCH).ok()
}

/// The whole number of nanoseconds in a duration, as `Duration::as_nanos`
/// computes it from the duration alone.
pub uninterp spec fn nanos_of(d: Duration) -> u128;

/// Calls `Duration::as_nanos`: the whole number of nanoseconds in `d`. The
/// contract names the result as a function of `d`; what that number is for
/// a given duration is left to the standard library.
#[verifier::external_body]
pub fn duration_nanos(d: &Duration) -> (n: u128)
    ensures
        n == nanos_of(*d),
{
    d.as_nanos()
}

/// The current wall-clock time in nanoseconds since the Unix epoch, or 0
/// when the clock reads earlier than the epoch.
pub fn unix_nanos_now() -> (n: u128) {
    let now = system_now();
    match since_unix_epoch(&now) {
        Some(d) => duration_nanos(&d),
        None => 0,
    }
}

/// The current wall-clock time in whole milliseconds since the Unix
/// epoch, or 0 when the clock reads earlier than the epoch.
pub fn now_millis() -> (n: u128)
    ensures
        n <= u128::MAX / 1_000_000,
{
    unix_nanos_now() / 1_000_000
}

} // verus!
