//! Wall-clock access for the lifecycle core.

use vstd::prelude::*;

verus! {

/// Relies on `chrono::Utc::now` and `DateTime::timestamp`: the current
/// wall-clock time, in seconds since the epoch. Nothing can be promised
/// of what the clock reads.
#[verifier::external_body]
pub(crate) fn now_timestamp() -> i64 {
    chrono::Utc::now().timestamp()
}

/// A possibly negative timestamp clamped to the non-negative seconds the
/// lifecycle core counts in.
pub open spec fn spec_clamp_timestamp(t: int) -> u64 {
    if t < 0 {
        0
    } else {
        t as u64
    }
}

/// Clamp a timestamp to non-negative seconds.
pub fn clamp_timestamp(t: i64) -> (r: u64)
    ensures
        r == spec_clamp_timestamp(t as int),
{
    if t < 0 {
        0
    } else {
        t as u64
    }
}

/// The current wall-clock time, clamped to non-negative seconds.
pub fn now_seconds() -> u64 {
    clamp_timestamp(now_timestamp())
}

} // verus!
