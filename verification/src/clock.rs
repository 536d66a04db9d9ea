//! The wall clock, behind one trusted call.

use vstd::prelude::*;

verus! {

/// Relies on `std::time::SystemTime::now` and `duration_since`: the
/// current wall clock as nanoseconds since the Unix epoch, or 0 when the
/// clock stands before the epoch or past what 64 bits can carry. Neither
/// call panics, and nothing is promised of the result: it depends on the
/// clock.
#[verifier::external_body]
pub fn now_nanos() -> (r: i64) {
    match std::time::SystemTime::now().duration_since(std::time::UNIX_EPOCH) {
        Ok(d) => i64::try_from(d.as_nanos()).unwrap_or(0),
        Err(_) => 0,
    }
}

} // verus!
