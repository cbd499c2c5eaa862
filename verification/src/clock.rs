//! The wall clock, read in whole seconds since the Unix epoch.
use vstd::prelude::*;
use std::time::{Duration, SystemTime, SystemTimeError, UNIX_EPOCH};

verus! {

#[verifier::external_type_specification]
#[verifier::external_body]
pub struct ExSystemTime(SystemTime);

#[verifier::external_type_specification]
#[verifier::external_body]
pub struct ExSystemTimeError(SystemTimeError);

/// `SystemTime::now`: the system clock's reading, of which nothing is stated.
#[verifier::external_body]
fn clock_now() -> SystemTime {
    SystemTime::now()
}

/// `SystemTime::duration_since`, measured from `UNIX_EPOCH`: an error where the
/// reading lies before the epoch. Nothing is stated of the outcome, which rests on
/// the clock.
#[verifier::external_body]
fn since_unix_epoch(t: &SystemTime) -> Result<Duration, SystemTimeError> {
    t.duration_since(UNIX_EPOCH)
}

/// `Duration::as_secs`: the whole seconds of a duration, whose value Verus does not see.
#[verifier::external_body]
fn whole_seconds(d: &Duration) -> u64 {
    d.as_secs()
}

/// The current time in whole seconds since the Unix epoch; `None` where the clock
/// reads a time before the epoch.
pub fn now_epoch_seconds() -> Option<u64> {
    let now = clock_now();
    match since_unix_epoch(&now) {
        Ok(d) => Some(whole_seconds(&d)),
        Err(_) => None,
    }
}

} // verus!
