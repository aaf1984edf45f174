//! The per-channel broadcast: a bounded ring with per-subscriber
//! cursors.
//!
//! Each channel retains at most the last `CHANNEL_CAPACITY` published
//! messages. A subscriber holds a cursor into the channel's publish
//! history; receiving yields the message at the cursor and advances
//! it. A subscriber whose cursor has fallen behind the retained window
//! observes a distinguishable lag signal and resumes at the oldest
//! message still retained; lag skips messages but never reorders them.

use crate::util::{bytes_eq, clone_bytes};
use vstd::prelude::*;

verus! {

broadcast use vstd::std_specs::vec::group_vec_axioms;

/// How many messages a channel retains for slow subscribers.
pub const CHANNEL_CAPACITY: usize = 1024;

/// One pub/sub channel: its name, the retained tail of its publish
/// history, and the count of live subscribers.
pub struct Channel {
    name: Vec<u8>,
    /// The retained messages: publish history from index `base` on.
    buffer: Vec<Vec<u8>>,
    /// Publish-history index of `buffer[0]`.
    base: u64,
    /// Live subscriber count.
    receivers: u64,
    /// The whole publish history of this channel.
    history: Ghost<Seq<Seq<u8>>>,
}

/// A subscription handle: a cursor into one channel's history, with a
/// ghost log of what has been delivered through it.
pub struct Receiver {
    channel: Vec<u8>,
    /// Publish-history index of the next message to deliver.
    next: u64,
    /// History index at which this subscription was created.
    birth: Ghost<int>,
    /// Every delivered message with its history index, in delivery
    /// order.
    log: Ghost<Seq<(int, Seq<u8>)>>,
}

/// What one receive attempt yields.
#[derive(Debug, Clone, PartialEq)]
pub enum RecvOutcome {
    /// The next message, in publish order.
    Message(Vec<u8>),
    /// The cursor had fallen behind the retained window; it now points
    /// at the oldest retained message. No message is lost beyond the
    /// skipped gap, and order is preserved.
    Lagged,
    /// Nothing published past the cursor yet; the caller waits.
    Empty,
}

impl Channel {
    /// The channel's name.
    pub closed spec fn spec_name(self) -> Seq<u8> {
        self.name@
    }

    /// Every message ever published, in publish order.
    pub closed spec fn spec_history(self) -> Seq<Seq<u8>> {
        self.history@
    }

    /// The live subscriber count.
    pub closed spec fn spec_receivers(self) -> int {
        self.receivers as int
    }

    /// History index of the oldest retained message.
    pub closed spec fn spec_base(self) -> int {
        self.base as int
    }

    /// The retained window is a suffix of the history: the whole
    /// history while it is short, and exactly the last
    /// `CHANNEL_CAPACITY` messages once it is longer.
    pub closed spec fn wf(self) -> bool {
        &&& self.base + self.buffer@.len() == self.history@.len()
        &&& self.history@.len() <= u64::MAX
        &&& self.buffer@.len() == if self.history@.len() < CHANNEL_CAPACITY {
            self.history@.len() as int
        } else {
            CHANNEL_CAPACITY as int
        }
        &&& forall|i: int|
            0 <= i < self.buffer@.len() ==> #[trigger] self.buffer@[i]@ == self.history@[
                self.base + i
            ]
    }

    /// A fresh channel with no history and no subscribers.
    pub fn new(name: Vec<u8>) -> (c: Channel)
        ensures
            c.wf(),
            c.spec_name() == name@,
            c.spec_history() == Seq::<Seq<u8>>::empty(),
            c.spec_receivers() == 0,
            c.spec_base() == 0,
    {
        Channel {
            name,
            buffer: Vec::new(),
            base: 0,
            receivers: 0,
            history: Ghost(Seq::empty()),
        }
    }

    /// The live subscriber count.
    pub fn receiver_count(&self) -> (r: u64)
        ensures
            r as int == self.spec_receivers(),
    {
        self.receivers
    }

    /// How many messages have ever been published here.
    pub fn history_len(&self) -> (r: u64)
        requires
            self.wf(),
        ensures
            r as int == self.spec_history().len(),
    {
        self.base + self.buffer.len() as u64
    }

    /// Name accessor for callers that look a channel up.
    pub fn name_is(&self, name: &Vec<u8>) -> (r: bool)
        ensures
            r == (self.spec_name() == name@),
    {
        bytes_eq(&self.name, name)
    }

    /// Publish one message: append it to the history, dropping the
    /// oldest retained message if the ring is full. Returns the live
    /// subscriber count (the publish response hint). The retained
    /// window slides forward only when it already held
    /// `CHANNEL_CAPACITY` messages, so a subscriber loses messages
    /// only by falling more than the capacity behind.
    pub fn publish(&mut self, msg: Vec<u8>) -> (r: u64)
        requires
            old(self).wf(),
            old(self).spec_history().len() + 1 <= u64::MAX,
        ensures
            final(self).wf(),
            final(self).spec_name() == old(self).spec_name(),
            final(self).spec_history() == old(self).spec_history().push(msg@),
            final(self).spec_receivers() == old(self).spec_receivers(),
            final(self).spec_base() == old(self).spec_base() + (if old(
                self,
            ).spec_history().len() - old(self).spec_base() >= CHANNEL_CAPACITY {
                1int
            } else {
                0int
            }),
            r as int == old(self).spec_receivers(),
    {
        let ghost mv = msg@;
        if self.buffer.len() >= CHANNEL_CAPACITY {
            let _oldest = self.buffer.remove(0);
            self.base = self.base + 1;
        }
        self.buffer.push(msg);
        proof {
            self.history@ = self.history@.push(mv);
        }
        self.receivers
    }

    /// Hand out a new subscription: the cursor starts at the present
    /// end of the history, so exactly the messages published after
    /// this call are eligible for delivery.
    pub fn subscribe(&mut self) -> (rx: Receiver)
        requires
            old(self).wf(),
            old(self).spec_receivers() + 1 <= u64::MAX,
        ensures
            final(self).wf(),
            final(self).spec_name() == old(self).spec_name(),
            final(self).spec_history() == old(self).spec_history(),
            final(self).spec_receivers() == old(self).spec_receivers() + 1,
            final(self).spec_base() == old(self).spec_base(),
            rx.spec_channel() == old(self).spec_name(),
            rx.spec_next() == old(self).spec_history().len(),
            rx.spec_birth() == old(self).spec_history().len(),
            rx.spec_log() == Seq::<(int, Seq<u8>)>::empty(),
            rx.log_ok(),
    {
        self.receivers = self.receivers + 1;
        let name = clone_bytes(&self.name);
        let next = self.base + self.buffer.len() as u64;
        Receiver {
            channel: name,
            next,
            birth: Ghost(next as int),
            log: Ghost(Seq::empty()),
        }
    }

    /// Drop one subscription.
    pub fn unsubscribe(&mut self)
        ensures
            final(self).wf() == old(self).wf(),
            final(self).spec_name() == old(self).spec_name(),
            final(self).spec_history() == old(self).spec_history(),
            final(self).spec_receivers() == if old(self).spec_receivers() > 0 {
                old(self).spec_receivers() - 1
            } else {
                0int
            },
            final(self).spec_base() == old(self).spec_base(),
    {
        if self.receivers > 0 {
            self.receivers = self.receivers - 1;
        }
    }

    /// One receive attempt for `rx` on this channel.
    ///
    /// Every delivered message is `history[cursor]` for a cursor that
    /// only ever moves forward and never below the index at which the
    /// receiver subscribed: the delivered sequence is a subsequence of
    /// the publish order after subscription, contiguous except where a
    /// lag was signalled.
    pub fn recv(&self, rx: &mut Receiver) -> (r: RecvOutcome)
        requires
            self.wf(),
            old(rx).spec_channel() == self.spec_name(),
            old(rx).spec_next() <= self.spec_history().len(),
            old(rx).log_ok(),
        ensures
            final(rx).spec_channel() == old(rx).spec_channel(),
            final(rx).spec_birth() == old(rx).spec_birth(),
            final(rx).spec_next() <= self.spec_history().len(),
            final(rx).spec_next() >= old(rx).spec_next(),
            final(rx).log_ok(),
            log_matches(old(rx).spec_log(), self.spec_history()) ==> log_matches(
                final(rx).spec_log(),
                self.spec_history(),
            ),
            match r {
                RecvOutcome::Message(m) => old(rx).spec_next() >= self.spec_base() && old(rx).spec_next() < self.spec_history().len() && m@ == self.spec_history()[old(rx).spec_next()] && final(rx).spec_next() == old(rx).spec_next() + 1 && final(rx).spec_log() == old(rx).spec_log().push((old(rx).spec_next(), m@)),
                RecvOutcome::Lagged => old(rx).spec_next() < self.spec_base() && final(rx).spec_next() == self.spec_base() && final(rx).spec_log() == old(rx).spec_log(),
                RecvOutcome::Empty => old(rx).spec_next() == self.spec_history().len() && final(rx).spec_next() == old(rx).spec_next() && final(rx).spec_log() == old(rx).spec_log(),
            },
    {
        if rx.next < self.base {
            rx.next = self.base;
            RecvOutcome::Lagged
        } else {
            let pos = rx.next - self.base;
            if pos >= self.buffer.len() as u64 {
                RecvOutcome::Empty
            } else {
                let m = clone_bytes(&self.buffer[pos as usize]);
                proof {
                    rx.log@ = rx.log@.push((rx.next as int, m@));
                }
                rx.next = rx.next + 1;
                RecvOutcome::Message(m)
            }
        }
    }
}

impl Receiver {
    /// The channel this handle is subscribed to.
    pub closed spec fn spec_channel(self) -> Seq<u8> {
        self.channel@
    }

    /// The history index of the next message to deliver.
    pub closed spec fn spec_next(self) -> int {
        self.next as int
    }

    /// The history index at which this subscription was created.
    pub closed spec fn spec_birth(self) -> int {
        self.birth@
    }

    /// Every message delivered through this handle, with its history
    /// index, in delivery order.
    pub closed spec fn spec_log(self) -> Seq<(int, Seq<u8>)> {
        self.log@
    }

    /// The delivery log is well formed: indices are strictly
    /// increasing, never before the subscription point, and always
    /// before the cursor.
    pub closed spec fn log_ok(self) -> bool {
        &&& self.birth@ <= self.next as int
        &&& forall|i: int| 0 <= i < self.log@.len() ==> (#[trigger] self.log@[i]).0
            >= self.birth@
        &&& forall|i: int| 0 <= i < self.log@.len() ==> (#[trigger] self.log@[i]).0 < self.next
            as int
        &&& forall|i: int|
            0 <= i && i + 1 < self.log@.len() ==> (#[trigger] self.log@[i]).0 < self.log@[
                i + 1
            ].0
    }

    /// The channel name, for looking the channel up.
    pub fn channel_name(&self) -> (r: &Vec<u8>)
        ensures
            r@ == self.spec_channel(),
    {
        &self.channel
    }
}

/// Whether the delivery log tells the truth about a publish history:
/// every logged message is the history entry at its logged index.
pub open spec fn log_matches(log: Seq<(int, Seq<u8>)>, history: Seq<Seq<u8>>) -> bool {
    forall|i: int| 0 <= i < log.len() ==> 0 <= (#[trigger] log[i]).0 < history.len()
        && log[i].1 == history[log[i].0]
}

/// Publishing more messages never invalidates a delivery log: the
/// logged entries still sit at their indices in the longer history.
pub proof fn lemma_log_matches_extend(log: Seq<(int, Seq<u8>)>, history: Seq<Seq<u8>>, m: Seq<u8>)
    requires
        log_matches(log, history),
    ensures
        log_matches(log, history.push(m)),
{
    assert forall|i: int| 0 <= i < log.len() implies 0 <= (#[trigger] log[i]).0 < history.push(
        m,
    ).len() && log[i].1 == history.push(m)[log[i].0] by {
        assert(log[i].1 == history[log[i].0]);
    }
}

/// The lag bound: a cursor sits below the retained window — the one
/// condition under which `recv` signals a lag and skips messages —
/// exactly when the subscriber has fallen more than `CHANNEL_CAPACITY`
/// messages behind the publishers. Within the capacity no message is
/// ever skipped.
pub proof fn lemma_lag_means_beyond_capacity(ch: Channel, rx: Receiver)
    requires
        ch.wf(),
        0 <= rx.spec_next() <= ch.spec_history().len(),
    ensures
        (rx.spec_next() < ch.spec_base()) <==> ch.spec_history().len() - rx.spec_next()
            > CHANNEL_CAPACITY,
{
}

/// A subscriber that is up to date when a message is published
/// receives exactly that message next: its cursor is inside the new
/// retained window and points at the published message, so `recv`'s
/// contract leaves only the delivery outcome.
pub proof fn lemma_publish_reaches_current_subscriber(ch0: Channel, ch1: Channel, rx: Receiver,
    m: Seq<u8>)
    requires
        ch0.wf(),
        ch1.wf(),
        rx.spec_next() == ch0.spec_history().len(),
        ch1.spec_history() == ch0.spec_history().push(m),
        ch1.spec_base() == ch0.spec_base() + (if ch0.spec_history().len() - ch0.spec_base()
            >= CHANNEL_CAPACITY {
            1int
        } else {
            0int
        }),
    ensures
        ch1.spec_base() <= rx.spec_next() < ch1.spec_history().len(),
        ch1.spec_history()[rx.spec_next()] == m,
{
}

/// The delivery-order law for one subscriber on one channel: every
/// message it ever received is a message published on that channel,
/// they were received in publish order at strictly increasing
/// positions, and none was published before the subscription. The
/// delivered sequence is therefore a (possibly gap-containing)
/// subsequence of the publish order after the subscription instant;
/// `recv` adds a gap only where it signalled a lag.
pub proof fn lemma_subscriber_sees_publish_order(ch: Channel, rx: Receiver)
    requires
        ch.wf(),
        rx.log_ok(),
        rx.spec_next() <= ch.spec_history().len(),
        log_matches(rx.spec_log(), ch.spec_history()),
    ensures
        forall|i: int| 0 <= i < rx.spec_log().len() ==> (#[trigger] rx.spec_log()[i]).1
            == ch.spec_history()[rx.spec_log()[i].0],
        forall|i: int| 0 <= i < rx.spec_log().len() ==> (#[trigger] rx.spec_log()[i]).0
            >= rx.spec_birth(),
        forall|i: int|
            0 <= i && i + 1 < rx.spec_log().len() ==> (#[trigger] rx.spec_log()[i]).0 < rx.spec_log()[
                i + 1
            ].0,
{
}

} // verus!
