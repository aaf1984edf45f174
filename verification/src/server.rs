//! Listener-side bookkeeping: the connection cap and the accept
//! backoff schedule.
//!
//! The accept loop acquires a permit before accepting a socket and
//! gives it back when the handler exits; the permit pool is what
//! bounds the live handlers. Transient accept failures back off
//! exponentially and give up after the longest pause.

use vstd::prelude::*;

verus! {

/// The most connections served at once.
pub const MAX_CONNECTIONS: u64 = 250;

/// The longest accept backoff, in seconds; one more failure is fatal.
pub const MAX_BACKOFF_SECS: u64 = 64;

/// The pool of connection permits. The count of live connections is
/// `MAX_CONNECTIONS` minus the permits still available, so it can
/// never exceed `MAX_CONNECTIONS`.
pub struct ConnectionLimiter {
    available: u64,
}

impl ConnectionLimiter {
    /// Permits not handed out.
    pub closed spec fn spec_available(self) -> int {
        self.available as int
    }

    /// Connections currently admitted.
    pub open spec fn spec_live(self) -> int {
        MAX_CONNECTIONS - self.spec_available()
    }

    /// No more permits exist than the cap.
    pub closed spec fn wf(self) -> bool {
        self.available <= MAX_CONNECTIONS
    }

    /// A full pool: no connection is live.
    pub fn new() -> (p: ConnectionLimiter)
        ensures
            p.wf(),
            p.spec_live() == 0,
    {
        ConnectionLimiter { available: MAX_CONNECTIONS }
    }

    /// Take a permit before accepting a connection. Refused exactly
    /// when the cap is reached, so the live count never passes it.
    pub fn try_acquire(&mut self) -> (r: bool)
        requires
            old(self).wf(),
        ensures
            final(self).wf(),
            r == (old(self).spec_live() < MAX_CONNECTIONS),
            r ==> final(self).spec_live() == old(self).spec_live() + 1,
            !r ==> *final(self) == *old(self),
            final(self).spec_live() <= MAX_CONNECTIONS,
    {
        if self.available > 0 {
            self.available = self.available - 1;
            true
        } else {
            false
        }
    }

    /// Return the permit a finished handler held.
    pub fn release(&mut self)
        requires
            old(self).wf(),
            old(self).spec_live() > 0,
        ensures
            final(self).wf(),
            final(self).spec_live() == old(self).spec_live() - 1,
    {
        self.available = self.available + 1;
    }
}

/// The connection cap is never exceeded: however permits are taken
/// and returned, a well-formed pool admits at most `MAX_CONNECTIONS`
/// live connections, and `try_acquire` keeps the pool well formed.
pub proof fn lemma_live_bounded(p: ConnectionLimiter)
    requires
        p.wf(),
    ensures
        0 <= p.spec_live() <= MAX_CONNECTIONS,
{
}

/// One accept-failure step: how long to sleep now, and the backoff to
/// carry into the next failure — or nothing, when the retries are
/// exhausted and the accept loop must give up. Starting from 1, the
/// pauses run 1, 2, 4, …, 64 seconds; the failure after the 64-second
/// pause is fatal.
pub fn accept_backoff(backoff: u64) -> (r: Option<(u64, u64)>)
    requires
        1 <= backoff <= 2 * MAX_BACKOFF_SECS,
    ensures
        match r {
            Some(p) => backoff <= MAX_BACKOFF_SECS && p.0 == backoff && p.1 == 2 * backoff,
            None => backoff > MAX_BACKOFF_SECS,
        },
{
    if backoff > MAX_BACKOFF_SECS {
        None
    } else {
        Some((backoff, 2 * backoff))
    }
}

} // verus!
