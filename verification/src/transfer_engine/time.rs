//! Wall-clock time.
use vstd::prelude::*;

verus! {

/// Milliseconds since the UNIX epoch: `std::time::SystemTime::elapsed` of the
/// epoch, or zero for a clock that is set before it. Nothing is promised of the
/// value, since clocks are set and differ.
#[verifier::external_body]
pub fn now_ms() -> u64 {
    std::time::SystemTime::UNIX_EPOCH.elapsed().map(|d| d.as_millis() as u64).unwrap_or(0)
}

/// The clock showed `t` when it was read.
pub open spec fn was_read(t: u64) -> bool {
    call_ensures(now_ms, (), t)
}

} // verus!
