//! The system clock.

use vstd::prelude::*;

verus! {

/// Reads the seconds since the Unix epoch with `SystemTime::now()`; the clock
/// is outside the program, so nothing is promised of the value (0 when the
/// clock reads before the epoch).
#[verifier::external_body]
pub(crate) fn unix_time_now() -> (r: u64) {
    match std::time::SystemTime::now().duration_since(std::time::UNIX_EPOCH) {
        Ok(d) => d.as_secs(),
        Err(_) => 0,
    }
}

} // verus!
