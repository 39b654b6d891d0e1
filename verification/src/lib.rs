use vstd::prelude::*;

pub mod admission;
pub mod storage;
pub mod types;
pub mod web;

verus! {

use crate::types::{ErrorTypes, TrackerResult};

/// Relies on std::time::SystemTime::now and duration_since: the wall clock,
/// read as milliseconds since the Unix epoch. Yields nothing when the clock
/// reads before the epoch or past what fits in a u64. Nothing is promised of
/// the reading itself; callers state what holds of every outcome.
#[verifier::external_body]
fn system_now_millis() -> Option<u64> {
    match std::time::SystemTime::now().duration_since(std::time::UNIX_EPOCH) {
        Ok(d) => u64::try_from(d.as_millis()).ok(),
        Err(_) => None,
    }
}

/// Return the current time in ms, or `TimeAnomaly` when the clock source
/// reports an inconsistency.
pub fn get_current_time_in_ms() -> (r: TrackerResult<u64>)
    ensures
        r matches Err(e) ==> e is TimeAnomaly,
{
    match system_now_millis() {
        Some(ms) => Ok(ms),
        None => Err(ErrorTypes::TimeAnomaly),
    }
}

} // verus!
