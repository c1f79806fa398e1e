//! Reading the wall clock as whole seconds since the Unix epoch.

use vstd::prelude::*;

use std::time::{Duration, SystemTime, SystemTimeError};

verus! {

#[verifier::external_type_specification]
#[verifier::external_body]
pub struct ExSystemTime(SystemTime);

#[verifier::external_type_specification]
#[verifier::external_body]
pub struct ExSystemTimeError(SystemTimeError);

/// Calls `SystemTime::now`. Nothing is stated of the result: it is the time
/// at which the call runs.
#[verifier::external_body]
fn system_time_now() -> SystemTime {
    SystemTime::now()
}

/// Calls `SystemTime::duration_since` with `UNIX_EPOCH`. Nothing is stated
/// of the result: it depends on the clock reading `t`.
#[verifier::external_body]
fn duration_since_unix_epoch(t: &SystemTime) -> Result<Duration, SystemTimeError> {
    t.duration_since(std::time::UNIX_EPOCH)
}

/// Calls `Duration::as_secs`. Nothing is stated of the result, which is the
/// number of whole seconds in `d`.
#[verifier::external_body]
fn duration_as_secs(d: &Duration) -> u64 {
    d.as_secs()
}

/// The whole seconds elapsed since the Unix epoch, or 0 when the clock read
/// earlier than the epoch (`None`).
pub fn seconds_or_zero(elapsed: Option<u64>) -> (secs: u64)
    ensures
        secs == match elapsed {
            Some(s) => s,
            None => 0,
        },
{
    match elapsed {
        Some(s) => s,
        None => 0,
    }
}

/// Seconds since the Unix epoch now, or 0 when the clock reads earlier than
/// the epoch. Nothing more can be said of the result: it is the time.
pub fn unix_seconds_now() -> u64 {
    let now = system_time_now();
    let elapsed = match duration_since_unix_epoch(&now) {
        Ok(d) => Some(duration_as_secs(&d)),
        Err(_) => None,
    };
    seconds_or_zero(elapsed)
}

} // verus!
