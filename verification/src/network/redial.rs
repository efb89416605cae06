//! When a node dials a peer again after a link attempt: exponential backoff
//! that starts over once a link was made, doubling up to a cap.
use vstd::prelude::*;

verus! {

/// Delay before the first redial, and after a link that was made, in milliseconds.
pub const INITIAL_BACKOFF_MS: u64 = 250;

/// Longest delay between two dials, in milliseconds.
pub const MAX_BACKOFF_MS: u64 = 10_000;

/// Twice `ms`, but never more than the cap.
pub open spec fn doubled_capped(ms: int) -> int {
    if 2 * ms <= MAX_BACKOFF_MS { 2 * ms } else { MAX_BACKOFF_MS as int }
}

/// One step of the redial loop. Given the current backoff and whether the
/// attempt that just ended had made a link, returns how long to wait before
/// dialing again and the backoff to carry into the next step: a made link
/// resets the wait to the initial delay, and the carried backoff is the wait
/// doubled, up to the cap.
pub fn redial_step(backoff_ms: u64, linked: bool) -> (r: (u64, u64))
    ensures
        r.0 == (if linked { INITIAL_BACKOFF_MS } else { backoff_ms }),
        r.1 == doubled_capped(r.0 as int),
{
    let wait: u64 = if linked { INITIAL_BACKOFF_MS } else { backoff_ms };
    let next: u64 = if wait <= MAX_BACKOFF_MS / 2 { wait * 2 } else { MAX_BACKOFF_MS };
    (wait, next)
}

/// The carried backoff never exceeds the cap and never shrinks below a wait
/// that was within it: the schedule grows until it reaches the cap and stays there.
pub proof fn lemma_backoff_bounded(ms: int)
    requires
        0 <= ms <= MAX_BACKOFF_MS,
    ensures
        ms <= doubled_capped(ms) <= MAX_BACKOFF_MS,
{
}

} // verus!
