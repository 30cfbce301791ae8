//! The creation date: the system clock read as seconds since the Unix epoch.

use vstd::prelude::*;

verus! {

#[verifier::external_type_specification]
#[verifier::external_body]
pub struct ExSystemTime(std::time::SystemTime);

/// Calls `std::time::SystemTime::now`. The result is whatever the clock says:
/// nothing is claimed of it.
#[verifier::external_body]
fn system_now() -> std::time::SystemTime {
    std::time::SystemTime::now()
}

/// Calls `std::time::SystemTime::duration_since` with the Unix epoch, and
/// hands back the duration where the clock stands at or after the epoch,
/// `None` where it stands before. Nothing is claimed of the duration.
#[verifier::external_body]
fn since_epoch(now: &std::time::SystemTime) -> Option<std::time::Duration> {
    match now.duration_since(std::time::UNIX_EPOCH) {
        Ok(elapsed) => Some(elapsed),
        Err(_) => None,
    }
}

/// Calls `std::time::Duration::as_secs`: the whole seconds of a duration.
/// Nothing is claimed of their number.
#[verifier::external_body]
fn whole_seconds(elapsed: &std::time::Duration) -> u64 {
    elapsed.as_secs()
}

/// The timestamp for a count of seconds since the epoch, where it fits.
pub open spec fn timestamp_of(seconds: u64) -> Option<i64> {
    if seconds <= i64::MAX {
        Some(seconds as i64)
    } else {
        None
    }
}

/// A count of seconds since the epoch as a signed timestamp, or `None` where
/// the count is beyond what a timestamp can hold.
pub fn timestamp_from_seconds(seconds: u64) -> (t: Option<i64>)
    ensures
        t == timestamp_of(seconds),
{
    if seconds <= 9223372036854775807u64 {
        Some(seconds as i64)
    } else {
        None
    }
}

/// The current Unix timestamp, or `None` where the clock stands before the
/// epoch or beyond what a timestamp can hold. A timestamp that is returned
/// is never negative.
pub fn time() -> (t: Option<i64>)
    ensures
        t is Some ==> t->Some_0 >= 0,
{
    let now = system_now();
    match since_epoch(&now) {
        Some(elapsed) => timestamp_from_seconds(whole_seconds(&elapsed)),
        None => None,
    }
}

} // verus!
