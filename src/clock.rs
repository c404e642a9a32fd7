//! The wall clock, read in microseconds since the Unix epoch.
use vstd::prelude::*;

use std::time::{Duration, SystemTime, SystemTimeError};

verus! {

#[verifier::external_type_specification]
#[verifier::external_body]
pub struct ExSystemTime(SystemTime);

#[verifier::external_type_specification]
#[verifier::external_body]
pub struct ExSystemTimeError(SystemTimeError);

/// Relies on std's SystemTime::now: a reading of the wall clock, of which nothing is known.
pub assume_specification[ SystemTime::now ]() -> SystemTime;

/// Relies on std's SystemTime::duration_since: the time from `earlier` to
/// `self`, or an error when `earlier` is later; nothing more is promised.
pub assume_specification[ SystemTime::duration_since ](
    this: &SystemTime,
    earlier: SystemTime,
) -> Result<Duration, SystemTimeError>;

/// Relies on std's Duration::as_micros: the whole microseconds of a duration.
pub assume_specification[ Duration::as_micros ](this: &Duration) -> u128;

/// Relies on std's SystemTime::UNIX_EPOCH: the instant that clock readings are measured from.
#[verifier::external_body]
fn unix_epoch() -> SystemTime {
    SystemTime::UNIX_EPOCH
}

/// Microseconds since the Unix epoch, or `None` when the clock reads earlier.
pub fn clock_micros() -> Option<u128> {
    match SystemTime::now().duration_since(unix_epoch()) {
        Ok(d) => Some(d.as_micros()),
        Err(_) => None,
    }
}

} // verus!
