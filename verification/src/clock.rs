//! The system clock and intervals on it.

use vstd::prelude::*;

verus! {

/// Milliseconds since the Unix epoch, by `SystemTime::now` and
/// `SystemTime::duration_since`; 0 where the clock stands before the epoch.
/// Nothing is known of the value.
#[verifier::external_body]
pub(crate) fn now_millis() -> (r: u64) {
    std::time::SystemTime::now()
        .duration_since(std::time::UNIX_EPOCH)
        .unwrap_or_default()
        .as_millis() as u64
}

/// Time from `then` to `now` on a clock of 64 bits.
pub open spec fn elapsed(now: u64, then: u64) -> int {
    if now >= then {
        now - then
    } else {
        now - then + 0x1_0000_0000_0000_0000
    }
}

/// Time from `then` to `now` on a clock of 64 bits.
pub fn millis_between(now: u64, then: u64) -> (r: u64)
    ensures
        r == elapsed(now, then),
{
    now.wrapping_sub(then)
}

} // verus!
