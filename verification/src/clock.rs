//! The wall clock.

use std::time::SystemTime;
use vstd::prelude::*;

verus! {

/// A reading of the system's clock, `std::time::SystemTime`. Nothing inside
/// it is looked at.
#[verifier::external_type_specification]
#[verifier::external_body]
pub struct ExSystemTime(std::time::SystemTime);

/// `std::time::SystemTime::now` reads the system's clock. What it returns
/// rests on the machine and the moment, so nothing is claimed of it.
pub assume_specification[ std::time::SystemTime::now ]() -> (r: std::time::SystemTime)
;

/// The whole seconds from the Unix epoch to `t`, from
/// `std::time::SystemTime::duration_since`; `None` where `t` lies before the
/// epoch. `t` comes from the machine's clock and cannot be looked into, so
/// nothing is claimed of the number.
#[verifier::external_body]
fn seconds_since_epoch(t: SystemTime) -> (r: Option<u64>) {
    t.duration_since(std::time::UNIX_EPOCH).ok().map(|d| d.as_secs())
}

/// A clock reading in Unix seconds; a clock set before the epoch reads zero.
pub fn unix_seconds(reading: Option<u64>) -> (r: u64)
    ensures
        reading matches Some(s) ==> r == s,
        reading is None ==> r == 0,
{
    match reading {
        Some(s) => s,
        None => 0,
    }
}

/// Unix seconds at this moment. The clock decides what comes back, so no
/// caller may rely on any particular value.
pub fn now() -> (r: u64) {
    unix_seconds(seconds_since_epoch(SystemTime::now()))
}

} // verus!
