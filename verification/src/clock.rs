//! The one place where the library reads the system clock.

use vstd::prelude::*;

verus! {

/// Relies on `std::time::SystemTime::now`: milliseconds since the Unix
/// epoch. The clock is not monotonic and nothing is assumed of the value
/// returned; callers pass it on to the `*_at` operations, which are
/// verified for every value of it.
#[verifier::external_body]
pub(crate) fn now_millis() -> u64 {
    match std::time::SystemTime::now().duration_since(std::time::UNIX_EPOCH) {
        Ok(d) => d.as_millis() as u64,
        Err(_) => 0,
    }
}

} // verus!
