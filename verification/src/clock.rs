//! The wall clock, behind one trusted wrapper. Nothing is promised of the
//! value: every caller's contract holds whatever time comes back.

use vstd::prelude::*;

verus! {

/// Relies on `std::time::SystemTime::now`: the milliseconds since the Unix
/// epoch, or zero if the clock reads earlier than the epoch. No contract:
/// the time is not a function of anything the library knows.
#[verifier::external_body]
pub fn current_timestamp() -> u64 {
    match std::time::SystemTime::now().duration_since(std::time::UNIX_EPOCH) {
        Ok(d) => d.as_millis() as u64,
        Err(_) => 0,
    }
}

} // verus!
