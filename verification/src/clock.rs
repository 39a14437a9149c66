//! The wall clock.

use std::time::{SystemTime, UNIX_EPOCH};
use vstd::prelude::*;

verus! {

/// Reads the system clock with `SystemTime::now` and gives the whole seconds
/// that have passed since the Unix epoch, or `None` where the clock stands
/// before the epoch. Nothing is claimed of the number: two readings may differ
/// in either direction.
#[verifier::external_body]
fn unix_seconds() -> (secs: Option<u64>) {
    match SystemTime::now().duration_since(UNIX_EPOCH) {
        Ok(elapsed) => Some(elapsed.as_secs()),
        Err(_) => None,
    }
}

/// The timestamp for a reading of the clock: the seconds read, and 0 for a
/// clock that stands before the epoch.
pub open spec fn timestamp_of(reading: Option<u64>) -> u64 {
    match reading {
        Some(secs) => secs,
        None => 0,
    }
}

/// The timestamp for a reading of the clock.
pub fn timestamp_from(reading: Option<u64>) -> (timestamp: u64)
    ensures
        timestamp == timestamp_of(reading),
{
    match reading {
        Some(secs) => secs,
        None => 0,
    }
}

/// The current time as a timestamp: whole seconds since the Unix epoch. The
/// clock may be set at any time, so a later call may give a smaller number.
pub fn now() -> (timestamp: u64) {
    timestamp_from(unix_seconds())
}

} // verus!
