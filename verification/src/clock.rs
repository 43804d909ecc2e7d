//! The wall clock.

use std::time::SystemTime;

use vstd::prelude::*;

verus! {

/// A point in time of the system's clock.
#[verifier::external_type_specification]
#[verifier::external_body]
pub struct ExSystemTime(SystemTime);

/// `SystemTime::now`: what the clock says. Any time can come.
pub assume_specification[ SystemTime::now ]() -> SystemTime;

/// `SystemTime::duration_since` the Unix epoch, in whole seconds; `None` for a
/// time before it. Which time it is depends on the clock, so nothing is
/// claimed of it.
#[verifier::external_body]
fn secs_since_epoch(t: SystemTime) -> Option<u64> {
    t.duration_since(SystemTime::UNIX_EPOCH).ok().map(|d| d.as_secs())
}

/// Seconds since the Unix epoch, for a reading of the clock; 0 for one before
/// the epoch.
pub fn secs_or_zero(reading: Option<u64>) -> (r: u64)
    ensures
        r == (match reading {
            Some(secs) => secs,
            None => 0,
        }),
{
    match reading {
        Some(secs) => secs,
        None => 0,
    }
}

/// Seconds since the Unix epoch; 0 where the clock is set before it.
pub fn now_secs() -> u64 {
    secs_or_zero(secs_since_epoch(SystemTime::now()))
}

} // verus!
