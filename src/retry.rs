//! The push retry policy: retry without end, waiting longer each time up to a cap.
use vstd::prelude::*;
use crate::config::BACKOFF_CAP_SECS;

verus! {

/// The delay after `current`: doubled, but never above the cap.
pub open spec fn next_backoff_spec(current: nat) -> nat {
    if 2 * current > BACKOFF_CAP_SECS { BACKOFF_CAP_SECS as nat } else { 2 * current }
}

/// The delay that follows a failed attempt that waited `current` seconds.
pub fn next_backoff(current: u64) -> (r: u64)
    ensures
        r == next_backoff_spec(current as nat),
        r <= BACKOFF_CAP_SECS,
{
    if current > BACKOFF_CAP_SECS / 2 { BACKOFF_CAP_SECS } else { 2 * current }
}

/// What to do after a push attempt.
#[derive(Clone, Copy, Debug, PartialEq, Eq, Structural)]
pub enum PushStep {
    /// The push went through.
    Done,
    /// Wait `wait_secs`, push again, and on failure wait `next_secs`.
    RetryAfter { wait_secs: u64, next_secs: u64 },
}

/// The decision after a push attempt made with delay `backoff` pending.
pub fn after_push(pushed: bool, backoff: u64) -> (r: PushStep)
    ensures
        pushed ==> r == PushStep::Done,
        !pushed ==> r == (PushStep::RetryAfter { wait_secs: backoff, next_secs: next_backoff_spec(backoff as nat) as u64 }),
{
    if pushed {
        PushStep::Done
    } else {
        PushStep::RetryAfter { wait_secs: backoff, next_secs: next_backoff(backoff) }
    }
}

} // verus!
