//! The wall clock, behind the one trusted boundary of the cache engine: every
//! engine operation takes the reading as a plain argument, so all cache logic
//! is verified for every possible clock value.

use vstd::prelude::*;

verus! {

/// Relies on `std::time::SystemTime::now` and `SystemTime::duration_since`:
/// the wall clock as milliseconds since the Unix epoch, clamped into `u64`
/// (a clock before the epoch reads as zero). Nothing is assumed about the
/// value; callers state what holds for every reading.
#[verifier::external_body]
pub fn now_millis() -> u64 {
    match std::time::SystemTime::now().duration_since(std::time::UNIX_EPOCH) {
        Ok(d) => u64::try_from(d.as_millis()).unwrap_or(u64::MAX),
        Err(_) => 0,
    }
}

} // verus!
