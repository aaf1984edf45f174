//! Subscribe-mode state for one connection.
//!
//! After a `SUBSCRIBE`, a handler keeps a set of subscriptions and a
//! list of channels still to subscribe to, and answers only
//! subscription commands and pings. The functions here perform every
//! state change and build every response frame; the I/O layer only
//! moves frames and waits.

use crate::cmd::{
    err_unknown, name_subscribe, name_unsubscribe, names_view, pong_msg, spec_cmd_name,
    spec_command, spec_err_unknown, Command, CommandV,
};
use crate::db::{history_of, receivers_of, Db};
use crate::frame::{Frame, FrameV};
use crate::parser::ParserError;
use crate::pubsub::Receiver;
use crate::util::clone_bytes;
use vstd::prelude::*;

verus! {

broadcast use vstd::std_specs::vec::group_vec_axioms;

/// The word `message`.
pub open spec fn message_word() -> Seq<u8> {
    seq![109u8, 101u8, 115u8, 115u8, 97u8, 103u8, 101u8]
}

/// The ack sent for one newly subscribed channel.
pub open spec fn spec_subscribe_frame(channel: Seq<u8>, n: u64) -> FrameV {
    FrameV::Array(
        seq![FrameV::Bulk(name_subscribe()), FrameV::Bulk(channel), FrameV::Integer(n)],
    )
}

/// The ack sent for one unsubscribed channel.
pub open spec fn spec_unsubscribe_frame(channel: Seq<u8>, n: u64) -> FrameV {
    FrameV::Array(
        seq![FrameV::Bulk(name_unsubscribe()), FrameV::Bulk(channel), FrameV::Integer(n)],
    )
}

/// The frame that forwards one published message to the subscriber.
pub open spec fn spec_message_frame(channel: Seq<u8>, msg: Seq<u8>) -> FrameV {
    FrameV::Array(seq![FrameV::Bulk(message_word()), FrameV::Bulk(channel), FrameV::Bulk(msg)])
}

/// Build `["subscribe", channel, n]`.
pub fn make_subscribe_frame(channel_name: Vec<u8>, num_subs: u64) -> (f: Frame)
    ensures
        f@ == spec_subscribe_frame(channel_name@, num_subs),
{
    let word: Vec<u8> = vec![115u8, 117u8, 98u8, 115u8, 99u8, 114u8, 105u8, 98u8, 101u8];
    proof {
        assert(word@ =~= name_subscribe());
    }
    let ghost cn = channel_name@;
    let f = Frame::array().push_bulk(word).push_bulk(channel_name).push_int(num_subs);
    proof {
        assert(f@->Array_0 =~= seq![
            FrameV::Bulk(name_subscribe()),
            FrameV::Bulk(cn),
            FrameV::Integer(num_subs),
        ]);
    }
    f
}

/// Build `["unsubscribe", channel, n]`.
pub fn make_unsubscribe_frame(channel_name: Vec<u8>, num_subs: u64) -> (f: Frame)
    ensures
        f@ == spec_unsubscribe_frame(channel_name@, num_subs),
{
    let word: Vec<u8> = vec![117u8, 110u8, 115u8, 117u8, 98u8, 115u8, 99u8, 114u8, 105u8,
        98u8, 101u8];
    proof {
        assert(word@ =~= name_unsubscribe());
    }
    let ghost cn = channel_name@;
    let f = Frame::array().push_bulk(word).push_bulk(channel_name).push_int(num_subs);
    proof {
        assert(f@->Array_0 =~= seq![
            FrameV::Bulk(name_unsubscribe()),
            FrameV::Bulk(cn),
            FrameV::Integer(num_subs),
        ]);
    }
    f
}

/// Build `["message", channel, payload]`.
pub fn make_message_frame(channel_name: Vec<u8>, msg: Vec<u8>) -> (f: Frame)
    ensures
        f@ == spec_message_frame(channel_name@, msg@),
{
    let word: Vec<u8> = vec![109u8, 101u8, 115u8, 115u8, 97u8, 103u8, 101u8];
    proof {
        assert(word@ =~= message_word());
    }
    let ghost cn = channel_name@;
    let ghost mv = msg@;
    let f = Frame::array().push_bulk(word).push_bulk(channel_name).push_bulk(msg);
    proof {
        assert(f@->Array_0 =~= seq![
            FrameV::Bulk(message_word()),
            FrameV::Bulk(cn),
            FrameV::Bulk(mv),
        ]);
    }
    f
}

/// Subscribe this connection to one channel: register with the store,
/// track the receiver, and build the ack (whose count is the number of
/// channels this connection is now subscribed to).
pub fn subscribe_to_channel(channel_name: Vec<u8>, subscriptions: &mut Vec<Receiver>, db:
    &mut Db) -> (f: Frame)
    requires
        old(db).wf(),
        receivers_of(*old(db), channel_name@) < u64::MAX,
    ensures
        final(db).wf(),
        forall|k: Seq<u8>| final(db).spec_entry(k) == old(db).spec_entry(k),
        final(db).spec_shutdown() == old(db).spec_shutdown(),
        final(db).spec_next_expiration() == old(db).spec_next_expiration(),
        history_of(*final(db), channel_name@) == history_of(*old(db), channel_name@),
        receivers_of(*final(db), channel_name@) == receivers_of(*old(db), channel_name@) + 1,
        forall|n: Seq<u8>| n != channel_name@ ==> final(db).spec_channel(n) == old(db).spec_channel(n),
        final(db).spec_channel(channel_name@) is Some,
        final(subscriptions)@.len() == old(subscriptions)@.len() + 1,
        forall|i: int| 0 <= i < old(subscriptions)@.len() ==> final(subscriptions)@[i] == (
        #[trigger] old(subscriptions)@[i]),
        final(subscriptions)@.last().spec_channel() == channel_name@,
        final(subscriptions)@.last().spec_next() == history_of(*old(db), channel_name@).len(),
        final(subscriptions)@.last().log_ok(),
        final(subscriptions)@.last().spec_log() == Seq::<(int, Seq<u8>)>::empty(),
        f@ == spec_subscribe_frame(channel_name@, (old(subscriptions)@.len() + 1) as u64),
{
    let name2 = clone_bytes(&channel_name);
    let rx = db.subscribe(name2);
    subscriptions.push(rx);
    let count = subscriptions.len() as u64;
    make_subscribe_frame(channel_name, count)
}

/// Remove every subscription, acknowledging each removed channel in
/// order with the count of channels still subscribed after it: with
/// `n` subscriptions the acks count down `n-1, …, 1, 0`, one per
/// removed channel, and none remain afterwards.
#[verifier::loop_isolation(false)]
pub fn unsubscribe_all(db: &mut Db, subscriptions: &mut Vec<Receiver>) -> (acks: Vec<Frame>)
    requires
        old(db).wf(),
    ensures
        final(db).wf(),
        forall|k: Seq<u8>| final(db).spec_entry(k) == old(db).spec_entry(k),
        final(db).spec_shutdown() == old(db).spec_shutdown(),
        final(db).spec_next_expiration() == old(db).spec_next_expiration(),
        forall|n: Seq<u8>| history_of(*final(db), n) == history_of(*old(db), n),
        final(subscriptions)@.len() == 0,
        acks@.len() == old(subscriptions)@.len(),
        forall|i: int|
            0 <= i < acks@.len() ==> (#[trigger] acks@[i])@ == spec_unsubscribe_frame(
                old(subscriptions)@[i].spec_channel(),
                (old(subscriptions)@.len() - 1 - i) as u64,
            ),
{
    let ghost pre = subscriptions@;
    let mut acks: Vec<Frame> = Vec::new();
    while subscriptions.len() > 0
        invariant
            db.wf(),
            forall|k: Seq<u8>| db.spec_entry(k) == old(db).spec_entry(k),
            db.spec_shutdown() == old(db).spec_shutdown(),
            db.spec_next_expiration() == old(db).spec_next_expiration(),
            forall|n: Seq<u8>| history_of(*db, n) == history_of(*old(db), n),
            acks@.len() + subscriptions@.len() == pre.len(),
            forall|j: int| 0 <= j < subscriptions@.len() ==> (#[trigger] subscriptions@[j])
                == pre[acks@.len() + j],
            forall|i: int|
                0 <= i < acks@.len() ==> (#[trigger] acks@[i])@ == spec_unsubscribe_frame(
                    pre[i].spec_channel(),
                    (pre.len() - 1 - i) as u64,
                ),
        decreases subscriptions@.len(),
    {
        let rx = subscriptions.remove(0);
        db.unsubscribe_receiver(&rx);
        let count = subscriptions.len() as u64;
        let name = clone_bytes(rx.channel_name());
        let f = make_unsubscribe_frame(name, count);
        acks.push(f);
    }
    acks
}

/// The subscription list after removing the first subscription to
/// `name`, if any.
pub open spec fn spec_remove_first(s: Seq<Receiver>, name: Seq<u8>) -> Seq<Receiver>
    decreases s.len(),
{
    if s.len() == 0 {
        s
    } else if s[0].spec_channel() == name {
        s.skip(1)
    } else {
        seq![s[0]] + spec_remove_first(s.skip(1), name)
    }
}

/// The subscription list after unsubscribing from the listed channels
/// in order.
pub open spec fn spec_unsub_state(subs: Seq<Receiver>, chans: Seq<Seq<u8>>) -> Seq<Receiver>
    decreases chans.len(),
{
    if chans.len() == 0 {
        subs
    } else {
        spec_unsub_state(spec_remove_first(subs, chans[0]), chans.skip(1))
    }
}

/// The acks emitted while unsubscribing from the listed channels: one
/// per listed channel, counting the subscriptions that remain after
/// its removal.
pub open spec fn spec_unsub_acks(subs: Seq<Receiver>, chans: Seq<Seq<u8>>) -> Seq<FrameV>
    decreases chans.len(),
{
    if chans.len() == 0 {
        Seq::empty()
    } else {
        seq![
            spec_unsubscribe_frame(chans[0], spec_remove_first(subs, chans[0]).len() as u64),
        ] + spec_unsub_acks(spec_remove_first(subs, chans[0]), chans.skip(1))
    }
}

/// The first subscription to `name` sits at `j`: removing it realizes
/// `spec_remove_first`.
proof fn lemma_remove_first_at(s: Seq<Receiver>, name: Seq<u8>, j: int)
    requires
        0 <= j < s.len(),
        s[j].spec_channel() == name,
        forall|i: int| 0 <= i < j ==> (#[trigger] s[i]).spec_channel() != name,
    ensures
        spec_remove_first(s, name) == s.remove(j),
    decreases s.len(),
{
    if j == 0 {
        assert(s.remove(0) =~= s.skip(1));
    } else {
        assert(s[0].spec_channel() != name);
        assert forall|i: int| 0 <= i < j - 1 implies (#[trigger] s.skip(1)[i]).spec_channel()
            != name by {
            assert(s.skip(1)[i] == s[i + 1]);
        }
        assert(s.skip(1)[j - 1] == s[j]);
        lemma_remove_first_at(s.skip(1), name, j - 1);
        assert(s.remove(j) =~= seq![s[0]] + s.skip(1).remove(j - 1));
    }
}

/// With no subscription to `name`, removal changes nothing.
proof fn lemma_remove_first_absent(s: Seq<Receiver>, name: Seq<u8>)
    requires
        forall|i: int| 0 <= i < s.len() ==> (#[trigger] s[i]).spec_channel() != name,
    ensures
        spec_remove_first(s, name) == s,
    decreases s.len(),
{
    if s.len() > 0 {
        assert forall|i: int| 0 <= i < s.skip(1).len() implies (
        #[trigger] s.skip(1)[i]).spec_channel() != name by {
            assert(s.skip(1)[i] == s[i + 1]);
        }
        lemma_remove_first_absent(s.skip(1), name);
        assert(seq![s[0]] + s.skip(1) =~= s);
    }
}

/// Drop this connection's first subscription to `name`, if it has
/// one, and tell the store.
#[verifier::loop_isolation(false)]
fn remove_first_rx(db: &mut Db, subscriptions: &mut Vec<Receiver>, name: &Vec<u8>)
    requires
        old(db).wf(),
    ensures
        final(db).wf(),
        forall|k: Seq<u8>| final(db).spec_entry(k) == old(db).spec_entry(k),
        final(db).spec_shutdown() == old(db).spec_shutdown(),
        final(db).spec_next_expiration() == old(db).spec_next_expiration(),
        forall|n: Seq<u8>| history_of(*final(db), n) == history_of(*old(db), n),
        final(subscriptions)@ == spec_remove_first(old(subscriptions)@, name@),
{
    let mut j: usize = 0;
    while j < subscriptions.len()
        invariant
            j <= subscriptions@.len(),
            *db == *old(db),
            subscriptions@ == old(subscriptions)@,
            forall|i: int| 0 <= i < j ==> (#[trigger] subscriptions@[i]).spec_channel()
                != name@,
        decreases subscriptions@.len() - j,
    {
        if crate::util::bytes_eq(subscriptions[j].channel_name(), name) {
            proof {
                lemma_remove_first_at(subscriptions@, name@, j as int);
            }
            let rx = subscriptions.remove(j);
            db.unsubscribe_receiver(&rx);
            return ;
        }
        j = j + 1;
    }
    proof {
        lemma_remove_first_absent(subscriptions@, name@);
    }
}

/// Unsubscribe from the listed channels in order, acknowledging each
/// with the count of subscriptions remaining after its removal. A
/// channel this connection is not subscribed to still gets its ack,
/// with the count unchanged.
#[verifier::loop_isolation(false)]
pub fn unsubscribe_listed(db: &mut Db, subscriptions: &mut Vec<Receiver>, channels: &Vec<
    Vec<u8>,
>) -> (acks: Vec<Frame>)
    requires
        old(db).wf(),
    ensures
        final(db).wf(),
        forall|k: Seq<u8>| final(db).spec_entry(k) == old(db).spec_entry(k),
        final(db).spec_shutdown() == old(db).spec_shutdown(),
        final(db).spec_next_expiration() == old(db).spec_next_expiration(),
        forall|n: Seq<u8>| history_of(*final(db), n) == history_of(*old(db), n),
        final(subscriptions)@ == spec_unsub_state(
            old(subscriptions)@,
            crate::cmd::names_view(*channels),
        ),
        acks@.len() == channels@.len(),
        forall|i: int|
            0 <= i < acks@.len() ==> (#[trigger] acks@[i])@ == spec_unsub_acks(
                old(subscriptions)@,
                crate::cmd::names_view(*channels),
            )[i],
{
    let ghost pre = subscriptions@;
    let ghost chans = crate::cmd::names_view(*channels);
    let mut acks: Vec<Frame> = Vec::new();
    let mut i: usize = 0;
    while i < channels.len()
        invariant
            i <= channels@.len(),
            db.wf(),
            forall|k: Seq<u8>| db.spec_entry(k) == old(db).spec_entry(k),
            db.spec_shutdown() == old(db).spec_shutdown(),
            db.spec_next_expiration() == old(db).spec_next_expiration(),
            forall|n: Seq<u8>| history_of(*db, n) == history_of(*old(db), n),
            subscriptions@ == spec_unsub_state(pre, chans.take(i as int)),
            acks@.len() == i,
            forall|j: int| 0 <= j < i ==> (#[trigger] acks@[j])@ == spec_unsub_acks(
                pre,
                chans,
            )[j],
        decreases channels@.len() - i,
    {
        remove_first_rx(db, subscriptions, &channels[i]);
        let count = subscriptions.len() as u64;
        let name = clone_bytes(&channels[i]);
        let f = make_unsubscribe_frame(name, count);
        acks.push(f);
        i = i + 1;
        proof {
            lemma_unsub_step(pre, chans, i as int);
        }
    }
    proof {
        assert(chans.take(chans.len() as int) =~= chans);
    }
    acks
}

/// Unfolding `spec_unsub_state`/`spec_unsub_acks` one listed channel
/// at a time.
proof fn lemma_unsub_step(pre: Seq<Receiver>, chans: Seq<Seq<u8>>, i: int)
    requires
        1 <= i <= chans.len(),
    ensures
        spec_unsub_state(pre, chans.take(i)) == spec_remove_first(
            spec_unsub_state(pre, chans.take(i - 1)),
            chans[i - 1],
        ),
        spec_unsub_acks(pre, chans).len() >= i,
        spec_unsub_acks(pre, chans)[i - 1] == spec_unsubscribe_frame(
            chans[i - 1],
            spec_remove_first(spec_unsub_state(pre, chans.take(i - 1)), chans[i - 1]).len()
                as u64,
        ),
    decreases i,
{
    lemma_unsub_acks_len(pre, chans);
    lemma_unsub_prefix(pre, chans, i);
}

/// There is one ack per listed channel.
proof fn lemma_unsub_acks_len(pre: Seq<Receiver>, chans: Seq<Seq<u8>>)
    ensures
        spec_unsub_acks(pre, chans).len() == chans.len(),
    decreases chans.len(),
{
    if chans.len() > 0 {
        lemma_unsub_acks_len(spec_remove_first(pre, chans[0]), chans.skip(1));
    }
}

/// The state and ack after `i` listed channels depend only on the
/// first `i` channels.
proof fn lemma_unsub_prefix(pre: Seq<Receiver>, chans: Seq<Seq<u8>>, i: int)
    requires
        1 <= i <= chans.len(),
    ensures
        spec_unsub_state(pre, chans.take(i)) == spec_remove_first(
            spec_unsub_state(pre, chans.take(i - 1)),
            chans[i - 1],
        ),
        spec_unsub_acks(pre, chans)[i - 1] == spec_unsubscribe_frame(
            chans[i - 1],
            spec_remove_first(spec_unsub_state(pre, chans.take(i - 1)), chans[i - 1]).len()
                as u64,
        ),
    decreases i,
{
    lemma_unsub_acks_len(pre, chans);
    if i == 1 {
        assert(chans.take(0) =~= Seq::<Seq<u8>>::empty());
        let t1 = chans.take(1);
        assert(t1[0] == chans[0]);
        assert(t1.skip(1) =~= Seq::<Seq<u8>>::empty());
        assert(spec_unsub_state(pre, t1) == spec_unsub_state(
            spec_remove_first(pre, chans[0]),
            t1.skip(1),
        ));
    } else {
        let pre2 = spec_remove_first(pre, chans[0]);
        let rest = chans.skip(1);
        lemma_unsub_prefix(pre2, rest, i - 1);
        assert(rest[i - 2] == chans[i - 1]);
        assert(chans.take(i).skip(1) =~= rest.take(i - 1));
        assert(chans.take(i - 1).skip(1) =~= rest.take(i - 2));
        assert(chans.take(i)[0] == chans[0]);
        assert(chans.take(i - 1)[0] == chans[0]);
        assert(spec_unsub_state(pre, chans.take(i)) == spec_unsub_state(pre2, rest.take(i - 1)));
        assert(spec_unsub_state(pre, chans.take(i - 1)) == spec_unsub_state(
            pre2,
            rest.take(i - 2),
        ));
        assert(spec_unsub_acks(pre, chans)[i - 1] == spec_unsub_acks(pre2, rest)[i - 2]) by {
            lemma_unsub_acks_len(pre2, rest);
        }
    }
}

/// Move every name of `src` to the end of `dst`.
#[verifier::loop_isolation(false)]
fn move_all(dst: &mut Vec<Vec<u8>>, src: Vec<Vec<u8>>)
    ensures
        final(dst)@.len() == old(dst)@.len() + src@.len(),
        forall|i: int| 0 <= i < old(dst)@.len() ==> final(dst)@[i] == (#[trigger] old(dst)@[i]),
        forall|i: int| 0 <= i < src@.len() ==> (#[trigger] final(dst)@[old(dst)@.len() + i])@
            == src@[i]@,
{
    let ghost srcv = names_view(src);
    let mut rest = src;
    while rest.len() > 0
        invariant
            dst@.len() == old(dst)@.len() + srcv.len() - rest@.len(),
            rest@.len() <= srcv.len(),
            forall|i: int| 0 <= i < old(dst)@.len() ==> dst@[i] == (#[trigger] old(dst)@[i]),
            forall|i: int|
                0 <= i < srcv.len() - rest@.len() ==> (#[trigger] dst@[old(dst)@.len() + i])@
                    == srcv[i],
            forall|i: int| 0 <= i < rest@.len() ==> (#[trigger] rest@[i])@ == srcv[srcv.len()
                - rest@.len() + i],
        decreases rest@.len(),
    {
        let ghost restpre = rest@;
        let name = rest.remove(0);
        dst.push(name);
    }
}

/// One subscribe-mode step for a frame the client sent.
///
/// `SUBSCRIBE` queues its channels for the caller to subscribe to
/// before the next wait; `UNSUBSCRIBE` removes subscriptions (all of
/// them when none is listed) and yields one ack per listed or removed
/// channel; `PING` is answered directly; any other command, known or
/// not, is answered with `ERR unknown command '<name>'` and the
/// session continues. A malformed frame is an error and the
/// connection must close.
pub fn handle_command(
    db: &mut Db,
    frame: Frame,
    pending: &mut Vec<Vec<u8>>,
    subscriptions: &mut Vec<Receiver>,
) -> (r: Result<Vec<Frame>, Vec<u8>>)
    requires
        old(db).wf(),
    ensures
        final(db).wf(),
        final(db).spec_shutdown() == old(db).spec_shutdown(),
        forall|k: Seq<u8>| final(db).spec_entry(k) == old(db).spec_entry(k),
        final(db).spec_next_expiration() == old(db).spec_next_expiration(),
        forall|n: Seq<u8>| history_of(*final(db), n) == history_of(*old(db), n),
        match r {
            Err(_) => !(frame@ is Array) || spec_command(frame@->Array_0) is None,
            Ok(frames) => frame@ is Array && (spec_command(frame@->Array_0) matches Some(cv)
                && match cv {
                CommandV::Subscribe { channels } => *final(db) == *old(db) && final(subscriptions)@ == old(subscriptions)@ && frames@.len() == 0 && final(pending)@.len() == old(pending)@.len() + channels.len() && (forall|i: int|
                    0 <= i < old(pending)@.len() ==> final(pending)@[i] == (#[trigger] old(pending)@[i])) && (forall|i: int|
                    0 <= i < channels.len() ==> (#[trigger] final(pending)@[old(pending)@.len() + i])@ == channels[i]),
                CommandV::Unsubscribe { channels } => final(pending)@ == old(pending)@ && (
                channels.len() == 0 ==> final(subscriptions)@.len() == 0 && frames@.len() == old(subscriptions)@.len() && (forall|i: int|
                    0 <= i < frames@.len() ==> (#[trigger] frames@[i])@
                        == spec_unsubscribe_frame(
                        old(subscriptions)@[i].spec_channel(),
                        (old(subscriptions)@.len() - 1 - i) as u64,
                    ))) && (channels.len() > 0 ==> final(subscriptions)@ == spec_unsub_state(
                    old(subscriptions)@,
                    channels,
                ) && frames@.len() == channels.len() && (forall|i: int|
                    0 <= i < frames@.len() ==> (#[trigger] frames@[i])@ == spec_unsub_acks(
                        old(subscriptions)@,
                        channels,
                    )[i])),
                CommandV::Ping { msg } => *final(db) == *old(db) && final(pending)@ == old(pending)@ && final(subscriptions)@ == old(subscriptions)@ && frames@.len() == 1
                    && frames@[0]@ == match msg {
                    Option::Some(m) => FrameV::Bulk(m),
                    Option::None => FrameV::Simple(crate::cmd::pong_bytes()),
                },
                _ => *final(db) == *old(db) && final(pending)@ == old(pending)@ && final(subscriptions)@ == old(subscriptions)@ && frames@.len() == 1 && frames@[0]@
                    == FrameV::Error(spec_err_unknown(spec_cmd_name(cv))),
            }),
        },
{
    let cmd = match Command::from_frame(frame) {
        Ok(c) => c,
        Err(e) => {
            return Err(
                match e {
                    ParserError::Other(m) => m,
                    ParserError::EndOfStream => Vec::new(),
                },
            );
        },
    };
    match cmd {
        Command::Subscribe(s) => {
            move_all(pending, s.channels);
            Ok(Vec::new())
        },
        Command::Unsubscribe(u) => {
            if u.channels.len() == 0 {
                Ok(unsubscribe_all(db, subscriptions))
            } else {
                let acks = unsubscribe_listed(db, subscriptions, &u.channels);
                Ok(acks)
            }
        },
        Command::Ping(p) => {
            let resp = match p.msg {
                Some(m) => Frame::Bulk(m),
                None => Frame::Simple(pong_msg()),
            };
            let mut frames: Vec<Frame> = Vec::new();
            frames.push(resp);
            Ok(frames)
        },
        other => {
            let name = other.get_name();
            let msg = err_unknown(&name);
            let mut frames: Vec<Frame> = Vec::new();
            frames.push(Frame::Error(msg));
            Ok(frames)
        },
    }
}

} // verus!