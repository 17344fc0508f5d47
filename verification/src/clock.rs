//! The time of day.

use std::time::{Duration, SystemTime, SystemTimeError};
use vstd::prelude::*;

verus! {

/// `std::time::SystemTime`: a moment that the system's clock has shown. Nothing
/// inside it is looked at.
#[verifier::external_type_specification]
#[verifier::external_body]
pub struct ExSystemTime(SystemTime);

/// `std::time::SystemTimeError`: one moment is not after another. Nothing inside
/// it is looked at.
#[verifier::external_type_specification]
#[verifier::external_body]
pub struct ExSystemTimeError(SystemTimeError);

/// `std::time::SystemTime::now`: some time, of which nothing can be said
/// beforehand.
pub assume_specification[ std::time::SystemTime::now ]() -> (now: SystemTime);

/// `std::time::Duration::as_secs`: the number of whole seconds of a duration.
/// The only durations here come from the clock, so nothing is said of it.
pub assume_specification[ std::time::Duration::as_secs ](duration: &Duration) -> (secs: u64);

/// `std::time::SystemTime::duration_since` the Unix epoch: how long after the
/// epoch `time` is, or an error where it is before. Which of the two rests on
/// what the system's clock showed, so nothing is said of the result.
#[verifier::external_body]
fn since_epoch(time: SystemTime) -> (elapsed: Result<Duration, SystemTimeError>) {
    time.duration_since(std::time::UNIX_EPOCH)
}

/// The timestamp for a clock that shows `seconds` since the epoch; zero where
/// it shows a time before the epoch, or one too late for the type.
pub open spec fn timestamp_of(seconds: Option<u64>) -> i64 {
    match seconds {
        Some(seconds) => if seconds <= i64::MAX {
            seconds as i64
        } else {
            0
        },
        None => 0,
    }
}

/// The timestamp for what the clock shows.
pub fn timestamp_from(seconds: Option<u64>) -> (timestamp: i64)
    ensures
        timestamp == timestamp_of(seconds),
{
    match seconds {
        Some(seconds) => if seconds <= i64::MAX as u64 {
            seconds as i64
        } else {
            0
        },
        None => 0,
    }
}

/// The seconds since the Unix epoch, as the system's clock shows them. What it
/// shows is not known beforehand; whatever it is, the timestamp is not negative,
/// and `timestamp_from` says which one belongs to it.
pub fn unix_timestamp() -> (timestamp: i64)
    ensures
        timestamp >= 0,
{
    let seconds: Option<u64> = match since_epoch(SystemTime::now()) {
        Ok(elapsed) => Some(elapsed.as_secs()),
        Err(_) => None,
    };
    timestamp_from(seconds)
}

} // verus!
