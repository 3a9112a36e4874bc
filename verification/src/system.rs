//! What the library reads from the machine: the wall clock and random
//! numbers.
use vstd::prelude::*;

verus! {

/// Milliseconds since the Unix epoch, read with `SystemTime::elapsed` on
/// `std::time::UNIX_EPOCH`;
/// 0 when the clock stands before the epoch.  Nothing is stated of the
/// reading: it depends on the machine's clock, which may step backwards.
/// Only the operations that read the clock themselves use it; each has a
/// variant that takes the time as an argument, for callers that keep a
/// monotonic clock.
#[verifier::external_body]
pub(crate) fn now_ms() -> u64 {
    match std::time::UNIX_EPOCH.elapsed() {
        Ok(d) => d.as_millis() as u64,
        Err(_) => 0,
    }
}

/// A random number from `rand::random`.  Nothing is stated of its value.
#[verifier::external_body]
pub(crate) fn random_u64() -> u64 {
    rand::random::<u64>()
}

} // verus!
