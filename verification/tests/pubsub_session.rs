//! Pub/sub delivery and the subscribe-mode session.

use mini_redis::cmd::{Applied, Command};
use mini_redis::connection::{parse_frame, write_frame};
use mini_redis::db::Db;
use mini_redis::frame::Frame;
use mini_redis::pubsub::RecvOutcome;
use mini_redis::session::{handle_command, make_message_frame, subscribe_to_channel};

fn decode(bytes: &[u8]) -> Frame {
    let buf = bytes.to_vec();
    match parse_frame(&buf) {
        Ok(Some((f, _))) => f,
        other => panic!("expected a frame, got {:?}", other),
    }
}

fn encode(f: &Frame) -> Vec<u8> {
    let mut out: Vec<u8> = Vec::new();
    write_frame(&mut out, f);
    out
}

#[test]
fn publish_without_subscribers_returns_zero() {
    let mut db = Db::new();
    let cmd = Command::from_frame(decode(b"*3\r\n$7\r\npublish\r\n$5\r\nhello\r\n$5\r\nworld\r\n"))
        .unwrap();
    match cmd.apply(&mut db, 0) {
        Applied::Reply(f, _) => assert_eq!(encode(&f), b":0\r\n".to_vec()),
        other => panic!("unexpected {:?}", other),
    }
}

#[test]
fn subscribe_publish_deliver() {
    // connection A subscribes; B publishes; A receives the message
    let mut db = Db::new();
    let mut subs = Vec::new();
    let ack = subscribe_to_channel(b"hello".to_vec(), &mut subs, &mut db);
    assert_eq!(
        encode(&ack),
        b"*3\r\n$9\r\nsubscribe\r\n$5\r\nhello\r\n:1\r\n".to_vec()
    );
    let count = db.publish(&b"hello".to_vec(), b"world".to_vec());
    assert_eq!(count, 1);
    match db.recv(&mut subs[0]) {
        RecvOutcome::Message(m) => {
            let f = make_message_frame(b"hello".to_vec(), m);
            assert_eq!(
                encode(&f),
                b"*3\r\n$7\r\nmessage\r\n$5\r\nhello\r\n$5\r\nworld\r\n".to_vec()
            );
        },
        other => panic!("unexpected {:?}", other),
    }
}

#[test]
fn messages_arrive_in_publish_order() {
    let mut db = Db::new();
    let mut subs = Vec::new();
    subscribe_to_channel(b"c".to_vec(), &mut subs, &mut db);
    db.publish(&b"c".to_vec(), b"one".to_vec());
    db.publish(&b"c".to_vec(), b"two".to_vec());
    assert_eq!(db.recv(&mut subs[0]), RecvOutcome::Message(b"one".to_vec()));
    assert_eq!(db.recv(&mut subs[0]), RecvOutcome::Message(b"two".to_vec()));
    assert_eq!(db.recv(&mut subs[0]), RecvOutcome::Empty);
}

#[test]
fn messages_before_subscription_are_not_delivered() {
    let mut db = Db::new();
    let mut early = Vec::new();
    subscribe_to_channel(b"c".to_vec(), &mut early, &mut db);
    db.publish(&b"c".to_vec(), b"old".to_vec());
    let mut subs = Vec::new();
    subscribe_to_channel(b"c".to_vec(), &mut subs, &mut db);
    db.publish(&b"c".to_vec(), b"new".to_vec());
    assert_eq!(db.recv(&mut subs[0]), RecvOutcome::Message(b"new".to_vec()));
    assert_eq!(db.recv(&mut subs[0]), RecvOutcome::Empty);
}

#[test]
fn slow_subscriber_lags_and_resumes() {
    let mut db = Db::new();
    let mut subs = Vec::new();
    subscribe_to_channel(b"c".to_vec(), &mut subs, &mut db);
    // two more messages than the ring retains
    for i in 0..1026u32 {
        db.publish(&b"c".to_vec(), i.to_string().into_bytes());
    }
    // the first two were overwritten: one lag signal, then delivery
    // resumes at the oldest retained message
    assert_eq!(db.recv(&mut subs[0]), RecvOutcome::Lagged);
    assert_eq!(db.recv(&mut subs[0]), RecvOutcome::Message(b"2".to_vec()));
    assert_eq!(db.recv(&mut subs[0]), RecvOutcome::Message(b"3".to_vec()));
}

#[test]
fn publish_counts_every_live_subscriber() {
    let mut db = Db::new();
    let mut a = Vec::new();
    let mut b = Vec::new();
    subscribe_to_channel(b"c".to_vec(), &mut a, &mut db);
    subscribe_to_channel(b"c".to_vec(), &mut b, &mut db);
    assert_eq!(db.publish(&b"c".to_vec(), b"m".to_vec()), 2);
    db.unsubscribe_receiver(&a[0]);
    assert_eq!(db.publish(&b"c".to_vec(), b"m".to_vec()), 1);
}

#[test]
fn unsubscribe_all_counts_down() {
    // after subscribing to a and b, a bare UNSUBSCRIBE acks each
    // channel with the counts 1 then 0
    let mut db = Db::new();
    let mut subs = Vec::new();
    let mut pending = Vec::new();
    subscribe_to_channel(b"a".to_vec(), &mut subs, &mut db);
    subscribe_to_channel(b"b".to_vec(), &mut subs, &mut db);
    let frames = handle_command(
        &mut db,
        decode(b"*1\r\n$11\r\nunsubscribe\r\n"),
        &mut pending,
        &mut subs,
    )
    .unwrap();
    assert_eq!(frames.len(), 2);
    assert_eq!(
        encode(&frames[0]),
        b"*3\r\n$11\r\nunsubscribe\r\n$1\r\na\r\n:1\r\n".to_vec()
    );
    assert_eq!(
        encode(&frames[1]),
        b"*3\r\n$11\r\nunsubscribe\r\n$1\r\nb\r\n:0\r\n".to_vec()
    );
    assert!(subs.is_empty());
}

#[test]
fn unsubscribe_listed_channel_only() {
    let mut db = Db::new();
    let mut subs = Vec::new();
    let mut pending = Vec::new();
    subscribe_to_channel(b"a".to_vec(), &mut subs, &mut db);
    subscribe_to_channel(b"b".to_vec(), &mut subs, &mut db);
    let frames = handle_command(
        &mut db,
        decode(b"*2\r\n$11\r\nunsubscribe\r\n$1\r\na\r\n"),
        &mut pending,
        &mut subs,
    )
    .unwrap();
    assert_eq!(frames.len(), 1);
    assert_eq!(
        encode(&frames[0]),
        b"*3\r\n$11\r\nunsubscribe\r\n$1\r\na\r\n:1\r\n".to_vec()
    );
    assert_eq!(subs.len(), 1);
}

#[test]
fn session_queues_further_subscriptions() {
    let mut db = Db::new();
    let mut subs = Vec::new();
    let mut pending = Vec::new();
    let frames = handle_command(
        &mut db,
        decode(b"*3\r\n$9\r\nsubscribe\r\n$1\r\nx\r\n$1\r\ny\r\n"),
        &mut pending,
        &mut subs,
    )
    .unwrap();
    assert!(frames.is_empty());
    assert_eq!(pending, vec![b"x".to_vec(), b"y".to_vec()]);
    assert!(subs.is_empty());
}

#[test]
fn session_answers_ping_and_rejects_other_commands() {
    let mut db = Db::new();
    let mut subs = Vec::new();
    let mut pending = Vec::new();
    let frames = handle_command(
        &mut db,
        decode(b"*1\r\n$4\r\nping\r\n"),
        &mut pending,
        &mut subs,
    )
    .unwrap();
    assert_eq!(encode(&frames[0]), b"+PONG\r\n".to_vec());
    let frames = handle_command(
        &mut db,
        decode(b"*2\r\n$3\r\nget\r\n$1\r\nk\r\n"),
        &mut pending,
        &mut subs,
    )
    .unwrap();
    assert_eq!(
        encode(&frames[0]),
        b"-ERR unknown command 'get'\r\n".to_vec()
    );
}
