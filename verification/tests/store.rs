//! The store's observable behaviour: writes, reads, TTLs, deletion
//! and eviction, plus commands applied end to end on the wire.

use mini_redis::cmd::{Applied, Command};
use mini_redis::connection::{parse_frame, write_frame};
use mini_redis::db::Db;
use mini_redis::frame::Frame;
use mini_redis::util::duration_from_ms_str;

fn decode(bytes: &[u8]) -> Frame {
    let buf = bytes.to_vec();
    match parse_frame(&buf) {
        Ok(Some((f, len))) => {
            assert_eq!(len, bytes.len());
            f
        },
        other => panic!("expected a frame, got {:?}", other),
    }
}

fn run(db: &mut Db, wire: &[u8], now: u64) -> (Frame, bool) {
    let cmd = Command::from_frame(decode(wire)).expect("command should parse");
    match cmd.apply(db, now) {
        Applied::Reply(f, notify) => (f, notify),
        other => panic!("expected a reply, got {:?}", other),
    }
}

fn encode(f: &Frame) -> Vec<u8> {
    let mut out: Vec<u8> = Vec::new();
    write_frame(&mut out, f);
    out
}

#[test]
fn ping_answers_pong() {
    // wire scenario: *1\r\n$4\r\nping\r\n answered by +PONG\r\n
    let mut db = Db::new();
    let (resp, _) = run(&mut db, b"*1\r\n$4\r\nping\r\n", 0);
    assert_eq!(encode(&resp), b"+PONG\r\n".to_vec());
}

#[test]
fn ping_echoes_payload() {
    // wire scenario: *2\r\n$4\r\nping\r\n$3\r\nhey\r\n answered by $3\r\nhey\r\n
    let mut db = Db::new();
    let (resp, _) = run(&mut db, b"*2\r\n$4\r\nping\r\n$3\r\nhey\r\n", 0);
    assert_eq!(encode(&resp), b"$3\r\nhey\r\n".to_vec());
}

#[test]
fn set_then_get() {
    // SET hello world -> +OK; GET hello -> $5\r\nworld\r\n
    let mut db = Db::new();
    let (resp, notify) = run(
        &mut db,
        b"*3\r\n$3\r\nset\r\n$5\r\nhello\r\n$5\r\nworld\r\n",
        0,
    );
    assert_eq!(encode(&resp), b"+OK\r\n".to_vec());
    assert!(!notify);
    let (resp, _) = run(&mut db, b"*2\r\n$3\r\nget\r\n$5\r\nhello\r\n", 1);
    assert_eq!(encode(&resp), b"$5\r\nworld\r\n".to_vec());
}

#[test]
fn get_never_set_is_nil() {
    let mut db = Db::new();
    let (resp, _) = run(&mut db, b"*2\r\n$3\r\nget\r\n$5\r\nhello\r\n", 0);
    assert_eq!(encode(&resp), b"$-1\r\n".to_vec());
}

#[test]
fn set_with_px_expires() {
    // SET k v PX 100 -> +OK; GET right away sees it; 150 ms on it is nil
    let mut db = Db::new();
    let (resp, notify) = run(
        &mut db,
        b"*5\r\n$3\r\nset\r\n$1\r\nk\r\n$1\r\nv\r\n$2\r\npx\r\n$3\r\n100\r\n",
        0,
    );
    assert_eq!(encode(&resp), b"+OK\r\n".to_vec());
    assert!(notify);
    let (resp, _) = run(&mut db, b"*2\r\n$3\r\nget\r\n$1\r\nk\r\n", 50);
    assert_eq!(encode(&resp), b"$1\r\nv\r\n".to_vec());
    let (resp, _) = run(&mut db, b"*2\r\n$3\r\nget\r\n$1\r\nk\r\n", 150);
    assert_eq!(encode(&resp), b"$-1\r\n".to_vec());
}

#[test]
fn set_with_ex_counts_seconds() {
    let mut db = Db::new();
    run(
        &mut db,
        b"*5\r\n$3\r\nset\r\n$1\r\nk\r\n$1\r\nv\r\n$2\r\nEX\r\n$1\r\n2\r\n",
        0,
    );
    assert_eq!(db.get(&b"k".to_vec(), 1999), Some(b"v".to_vec()));
    assert_eq!(db.get(&b"k".to_vec(), 2000), None);
}

#[test]
fn ttl_zero_expires_immediately() {
    // the documented choice for EX 0 / PX 0: due at once
    let mut db = Db::new();
    run(
        &mut db,
        b"*5\r\n$3\r\nset\r\n$1\r\nk\r\n$1\r\nv\r\n$2\r\npx\r\n$1\r\n0\r\n",
        7,
    );
    assert_eq!(db.get(&b"k".to_vec(), 7), None);
    assert_eq!(db.get(&b"k".to_vec(), 8), None);
}

#[test]
fn overwrite_drops_previous_ttl() {
    let mut db = Db::new();
    db.set(b"k".to_vec(), b"v1".to_vec(), Some(10), 0);
    db.set(b"k".to_vec(), b"v2".to_vec(), None, 5);
    assert_eq!(db.get(&b"k".to_vec(), 1_000_000), Some(b"v2".to_vec()));
}

#[test]
fn del_is_idempotent() {
    // DEL k; DEL k both answer +OK and the second is a no-op
    let mut db = Db::new();
    db.set(b"k".to_vec(), b"v".to_vec(), None, 0);
    let (resp, _) = run(&mut db, b"*2\r\n$3\r\ndel\r\n$1\r\nk\r\n", 0);
    assert_eq!(encode(&resp), b"+OK\r\n".to_vec());
    assert_eq!(db.get(&b"k".to_vec(), 0), None);
    let (resp, _) = run(&mut db, b"*2\r\n$3\r\ndel\r\n$1\r\nk\r\n", 0);
    assert_eq!(encode(&resp), b"+OK\r\n".to_vec());
    assert_eq!(db.get(&b"k".to_vec(), 0), None);
}

#[test]
fn del_removes_several_keys() {
    let mut db = Db::new();
    db.set(b"a".to_vec(), b"1".to_vec(), None, 0);
    db.set(b"b".to_vec(), b"2".to_vec(), Some(100), 0);
    db.set(b"c".to_vec(), b"3".to_vec(), None, 0);
    let (resp, _) = run(&mut db, b"*3\r\n$3\r\ndel\r\n$1\r\na\r\n$1\r\nb\r\n", 0);
    assert_eq!(encode(&resp), b"+OK\r\n".to_vec());
    assert_eq!(db.get(&b"a".to_vec(), 0), None);
    assert_eq!(db.get(&b"b".to_vec(), 0), None);
    assert_eq!(db.get(&b"c".to_vec(), 0), Some(b"3".to_vec()));
}

#[test]
fn eviction_sweep_removes_due_keys_only() {
    let mut db = Db::new();
    db.set(b"a".to_vec(), b"1".to_vec(), Some(10), 0);
    db.set(b"b".to_vec(), b"2".to_vec(), Some(20), 0);
    assert_eq!(db.next_expiration(), Some(10));
    let next = db.purge_expired_keys(15);
    assert_eq!(next, Some(20));
    assert_eq!(db.get(&b"a".to_vec(), 15), None);
    assert_eq!(db.get(&b"b".to_vec(), 15), Some(b"2".to_vec()));
    let next = db.purge_expired_keys(25);
    assert_eq!(next, None);
    assert_eq!(db.get(&b"b".to_vec(), 25), None);
}

#[test]
fn eviction_worker_exits_on_shutdown() {
    let mut db = Db::new();
    db.set(b"a".to_vec(), b"1".to_vec(), Some(10), 0);
    assert!(!db.is_shutdown());
    db.shutdown_purge_task();
    assert!(db.is_shutdown());
    // a sweep under shutdown does nothing and reports nothing
    assert_eq!(db.purge_expired_keys(100), None);
    assert_eq!(db.next_expiration(), Some(10));
}

#[test]
fn unknown_command_is_answered_with_an_error() {
    let mut db = Db::new();
    let (resp, _) = run(&mut db, b"*1\r\n$4\r\nboom\r\n", 0);
    assert_eq!(encode(&resp), b"-ERR unknown command 'boom'\r\n".to_vec());
}

#[test]
fn command_names_are_case_insensitive() {
    let mut db = Db::new();
    let (resp, _) = run(
        &mut db,
        b"*3\r\n$3\r\nSeT\r\n$1\r\nk\r\n$1\r\nv\r\n",
        0,
    );
    assert_eq!(encode(&resp), b"+OK\r\n".to_vec());
    let (resp, _) = run(&mut db, b"*2\r\n$3\r\nGET\r\n$1\r\nk\r\n", 0);
    assert_eq!(encode(&resp), b"$1\r\nv\r\n".to_vec());
}

#[test]
fn set_with_unknown_option_is_rejected() {
    let mut db = Db::new();
    let frame = decode(b"*5\r\n$3\r\nset\r\n$1\r\nk\r\n$1\r\nv\r\n$2\r\nzz\r\n$1\r\n1\r\n");
    assert!(Command::from_frame(frame).is_err());
    assert_eq!(db.get(&b"k".to_vec(), 0), None);
}

#[test]
fn get_with_wrong_shape_is_rejected() {
    let frame = decode(b"*1\r\n$3\r\nget\r\n");
    assert!(Command::from_frame(frame).is_err());
    let frame = decode(b"*3\r\n$3\r\nget\r\n$1\r\nk\r\n$1\r\nx\r\n");
    assert!(Command::from_frame(frame).is_err());
}

#[test]
fn non_array_frame_is_rejected() {
    let frame = decode(b"+ping\r\n");
    assert!(Command::from_frame(frame).is_err());
}

#[test]
fn bulk_key_must_be_utf8() {
    // next_string rejects a bulk token whose bytes are not UTF-8
    let frame = Frame::Array(vec![
        Frame::Bulk(b"get".to_vec()),
        Frame::Bulk(vec![0xff, 0xfe]),
    ]);
    assert!(Command::from_frame(frame).is_err());
    // the same bytes are fine where raw bytes are expected
    let mut db = Db::new();
    let frame = Frame::Array(vec![
        Frame::Bulk(b"set".to_vec()),
        Frame::Bulk(b"k".to_vec()),
        Frame::Bulk(vec![0xff, 0xfe]),
    ]);
    let cmd = Command::from_frame(frame).expect("value may be any bytes");
    cmd.apply(&mut db, 0);
    assert_eq!(db.get(&b"k".to_vec(), 0), Some(vec![0xff, 0xfe]));
}

#[test]
fn expiry_argument_parses_as_milliseconds() {
    // the whole text must be a number: an optional `+`, then digits
    assert_eq!(duration_from_ms_str(&b"100".to_vec()), Some(100));
    assert_eq!(duration_from_ms_str(&b"+7".to_vec()), Some(7));
    assert_eq!(duration_from_ms_str(&b"100abc".to_vec()), None);
    assert_eq!(duration_from_ms_str(&b"oops".to_vec()), None);
    assert_eq!(duration_from_ms_str(&b"".to_vec()), None);
    assert_eq!(duration_from_ms_str(&b"+".to_vec()), None);
    assert_eq!(duration_from_ms_str(&b"-1".to_vec()), None);
    assert_eq!(
        duration_from_ms_str(&b"18446744073709551615".to_vec()),
        Some(u64::MAX)
    );
    assert_eq!(duration_from_ms_str(&b"18446744073709551616".to_vec()), None);
}

#[test]
fn huge_ex_ttl_saturates_instead_of_wrapping() {
    // EX with the largest seconds count clamps to the largest instant
    let mut db = Db::new();
    run(
        &mut db,
        b"*5\r\n$3\r\nset\r\n$1\r\nk\r\n$1\r\nv\r\n$2\r\nex\r\n$20\r\n18446744073709551615\r\n",
        5,
    );
    assert_eq!(db.get(&b"k".to_vec(), 1_000_000_000), Some(b"v".to_vec()));
}

#[test]
fn unsubscribe_outside_a_subscription_is_fatal() {
    // it yields an error response, and the connection then closes
    let mut db = Db::new();
    let cmd = Command::from_frame(decode(b"*1\r\n$11\r\nunsubscribe\r\n")).unwrap();
    match cmd.apply(&mut db, 0) {
        Applied::Fatal(msg) => assert_eq!(
            encode(&Frame::Error(msg)),
            b"-ERR unsubscribe is unsupported in this context\r\n".to_vec()
        ),
        other => panic!("unexpected {:?}", other),
    }
}
