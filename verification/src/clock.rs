//! The wall clock, in milliseconds.
use vstd::prelude::*;

verus! {

/// Milliseconds since the Unix epoch, read from `std::time::SystemTime`
/// (`UNIX_EPOCH.elapsed()`, truncated to 64 bits; 0 when the clock reads
/// earlier than the epoch). Nothing is stated of the value: it is the time.
#[verifier::external_body]
pub(crate) fn clock_millis() -> u64 {
    match std::time::UNIX_EPOCH.elapsed() {
        Ok(d) => d.as_millis() as u64,
        Err(_) => 0,
    }
}

} // verus!
