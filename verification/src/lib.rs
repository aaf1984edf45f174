//! A verified core for a small Redis-compatible server: the RESP frame
//! codec, the command parser, the in-memory store with timed expiration,
//! the pub/sub broadcast model, and the connection-lifecycle state.
//!
//! Network I/O and task scheduling live outside this crate; every function
//! here is pure with respect to the outside world and carries a contract.

pub mod cmd;
pub mod connection;
pub mod db;
pub mod frame;
pub mod laws;
pub mod parser;
pub mod pubsub;
pub mod server;
pub mod session;
pub mod shutdown;
pub mod util;

use vstd::prelude::*;

verus! {

/// Default port a server built on this library listens on.
pub const DEFAULT_PORT: u16 = 6379;

} // verus!
