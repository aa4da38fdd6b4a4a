//! The wall clock, read once per event.
use vstd::prelude::*;

verus! {

/// `SystemTime::now()` as microseconds since the Unix epoch (0 before the epoch).
/// Nothing is claimed of the value: it is the time.
#[verifier::external_body]
pub(crate) fn now_micros() -> (r: u64) {
    std::time::SystemTime::now()
        .duration_since(std::time::UNIX_EPOCH)
        .map(|d| d.as_micros() as u64)
        .unwrap_or(0)
}

} // verus!
