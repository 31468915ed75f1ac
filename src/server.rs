//! The server's decisions around accepting connections.

use vstd::prelude::*;

verus! {

/// The longest wait, in seconds, after which accepting is tried again.
pub const MAX_BACKOFF: u64 = 64;

/// After accepting failed with a wait of `backoff` seconds due: `None` to
/// give up, or the wait that is due after the next failure, twice as long.
/// The caller waits `backoff` seconds before it tries again.
pub fn next_backoff(backoff: u64) -> (r: Option<u64>)
    ensures
        backoff > MAX_BACKOFF ==> r is None,
        backoff <= MAX_BACKOFF ==> r == Some((backoff * 2) as u64),
{
    if backoff > MAX_BACKOFF {
        None
    } else {
        Some(backoff * 2)
    }
}

} // verus!
