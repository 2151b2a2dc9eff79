//! The decisions of the accept loop.
use vstd::prelude::*;

verus! {

/// How many connections are served at once.
pub const MAX_CONNECTIONS: usize = 256;

/// The longest wait, in seconds, before accepting is given up.
pub const MAX_BACKOFF: u64 = 64;

/// After a failed accept, having waited `backoff` seconds before: the next
/// wait, doubled, or `None` once the wait has passed 64 seconds and the
/// error must be raised.
pub fn next_backoff(backoff: u64) -> (r: Option<u64>)
    ensures
        backoff > MAX_BACKOFF ==> r is None,
        backoff <= MAX_BACKOFF ==> r == Some((2 * backoff) as u64),
{
    if backoff > MAX_BACKOFF {
        None
    } else {
        Some(backoff * 2)
    }
}

} // verus!
