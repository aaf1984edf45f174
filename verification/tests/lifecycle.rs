//! Connection admission, accept backoff, and the shutdown latch.

use mini_redis::server::{accept_backoff, ConnectionLimiter};
use mini_redis::shutdown::Shutdown;

#[test]
fn at_most_250_connections_are_admitted() {
    let mut pool = ConnectionLimiter::new();
    for _ in 0..250 {
        assert!(pool.try_acquire());
    }
    // the 251st connection waits
    assert!(!pool.try_acquire());
    assert!(!pool.try_acquire());
    // a finished handler makes room for exactly one more
    pool.release();
    assert!(pool.try_acquire());
    assert!(!pool.try_acquire());
}

#[test]
fn accept_backoff_doubles_then_gives_up() {
    let mut pauses = Vec::new();
    let mut backoff = 1u64;
    loop {
        match accept_backoff(backoff) {
            Some((sleep_for, next)) => {
                pauses.push(sleep_for);
                backoff = next;
            },
            None => break,
        }
    }
    assert_eq!(pauses, vec![1, 2, 4, 8, 16, 32, 64]);
    assert_eq!(backoff, 128);
}

#[test]
fn shutdown_flag_latches() {
    let mut s = Shutdown::new();
    assert!(!s.is_shutdown());
    s.note_signal();
    assert!(s.is_shutdown());
    s.note_signal();
    assert!(s.is_shutdown());
}
