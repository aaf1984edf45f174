//! The sticky shutdown observer owned by each connection handler.
//!
//! The one-shot broadcast that delivers the signal lives with the I/O
//! layer; this type keeps the latched state, so that a handler that has
//! already seen the signal never waits on the channel again.

use vstd::prelude::*;

verus! {

/// Tracks whether the shutdown signal has been observed.
///
/// The flag latches: once `note_signal` has run, `is_shutdown` returns
/// `true` forever after.
pub struct Shutdown {
    received: bool,
}

impl Shutdown {
    /// A fresh observer; no signal has been seen yet.
    pub fn new() -> (s: Shutdown)
        ensures
            !s.signalled(),
    {
        Shutdown { received: false }
    }

    /// Whether the signal has been observed.
    pub closed spec fn signalled(self) -> bool {
        self.received
    }

    /// Returns `true` exactly when the signal has been observed.
    pub fn is_shutdown(&self) -> (r: bool)
        ensures
            r == self.signalled(),
    {
        self.received
    }

    /// Latch the flag after the broadcast delivered its one value.
    /// The flag never goes back down.
    pub fn note_signal(&mut self)
        ensures
            final(self).signalled(),
    {
        self.received = true;
    }
}

} // verus!
