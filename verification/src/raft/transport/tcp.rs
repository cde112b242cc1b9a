//! The rules of the TCP transport: how long to wait after a failed accept, and
//! how much of the budget for unread bytes a frame takes.

use vstd::prelude::*;
use vstd::string::*;

use crate::error::{self, io_error, IoKind, Result};

verus! {

/// Bytes of frames that may be held unread.
pub const INBOUND_BYTE_BUDGET: usize = 16_777_216;

/// The wait after the first failed accept, in milliseconds.
pub const INITIAL_ACCEPT_BACKOFF: u64 = 10;

/// The longest wait between two accepts, in milliseconds.
pub const MAX_ACCEPT_BACKOFF: u64 = 1000;

/// Tracks the wait for consecutive failures to accept a connection.
///
/// A listener stays alive through bursts of errors: the policy never gives up.
/// The wait doubles up to a limit, and collapses on the next success.
pub struct AcceptFailurePolicy {
    next_delay: u64,
}

/// The wait, in milliseconds, after `n` failures in a row before this one.
pub open spec fn backoff(n: nat) -> nat
    decreases n,
{
    if n == 0 {
        10
    } else if 2 * backoff((n - 1) as nat) < 1000 {
        2 * backoff((n - 1) as nat)
    } else {
        1000
    }
}

impl AcceptFailurePolicy {
    /// The wait that comes next is the one after `n` failures.
    pub closed spec fn after(self, n: nat) -> bool {
        self.next_delay == backoff(n)
    }

    pub fn new() -> (r: AcceptFailurePolicy)
        ensures
            r.after(0),
    {
        AcceptFailurePolicy { next_delay: INITIAL_ACCEPT_BACKOFF }
    }

    /// The wait before the next try. There always is one: failures slow the
    /// listener down and never stop it.
    pub fn next_delay(&mut self) -> (delay: u64)
        ensures
            forall|n: nat| #[trigger]
                old(self).after(n) ==> delay == backoff(n) && final(self).after(n + 1),
    {
        let delay: u64 = self.next_delay;
        let doubled: u64 = if delay > u64::MAX / 2 { u64::MAX } else { delay * 2 };
        self.next_delay = if doubled < MAX_ACCEPT_BACKOFF { doubled } else { MAX_ACCEPT_BACKOFF };
        proof {
            assert forall|n: nat| #[trigger] old(self).after(n) implies delay == backoff(n)
                && self.after(n + 1) by {
                backoff_bounds(n);
            }
        }
        delay
    }

    /// A connection was accepted.
    pub fn reset(&mut self)
        ensures
            final(self).after(0),
    {
        self.next_delay = INITIAL_ACCEPT_BACKOFF;
    }
}

/// Waits stay between the first one and the limit, and never shrink in a burst
/// of failures.
pub proof fn backoff_bounds(n: nat)
    ensures
        10 <= backoff(n) <= 1000,
        backoff(n) <= backoff(n + 1),
    decreases n,
{
    if n > 0 {
        backoff_bounds((n - 1) as nat);
    }
}

/// From the eighth failure in a row on, the wait is the longest.
pub proof fn backoff_is_capped(n: nat)
    requires
        n >= 7,
    ensures
        backoff(n) == 1000,
    decreases n,
{
    if n == 7 {
        reveal_with_fuel(backoff, 8);
    } else {
        backoff_is_capped((n - 1) as nat);
    }
}

/// The first wait is ten milliseconds, and each wait is twice the one before,
/// but for the limit of a second.
pub proof fn waits_double(n: nat)
    ensures
        backoff(0) == 10,
        backoff(n + 1) <= 1000,
        backoff(n + 1) == 2 * backoff(n) || (backoff(n + 1) == 1000 && 2 * backoff(n) > 1000),
{
    backoff_bounds(n + 1);
}

/// How much of a budget of `capacity` bytes a frame takes: its length, but
/// never more than there is.
pub fn inbound_permits(payload_len: usize, capacity: usize) -> (r: Result<u32>)
    ensures
        ({
            let least = if payload_len < capacity {
                payload_len
            } else {
                capacity
            };
            match r {
                Ok(permits) => permits == least,
                Err(e) => least > u32::MAX && e@ == error::io_fault(
                    IoKind::InvalidInput,
                    "inbound byte budget exceeds semaphore permit range"@,
                ),
            }
        }),
{
    let least: usize = if payload_len < capacity { payload_len } else { capacity };
    if least as u64 > u32::MAX as u64 {
        return Err(
            io_error(
                IoKind::InvalidInput,
                "inbound byte budget exceeds semaphore permit range",
            ),
        );
    }
    Ok(least as u32)
}

} // verus!
