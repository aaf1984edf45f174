//! The shared in-memory store: key table, expiration index, and
//! pub/sub channel registry.
//!
//! This is the state guarded by the server's single mutex; every
//! operation here is one critical section. Time enters as an explicit
//! millisecond instant, supplied by the caller, so the store's
//! behaviour is a function of its inputs.

use crate::pubsub::{log_matches, Channel, Receiver, RecvOutcome, CHANNEL_CAPACITY};
use crate::util::{bytes_eq, clone_bytes};
use vstd::prelude::*;

verus! {

broadcast use vstd::std_specs::vec::group_vec_axioms;

/// An entry of the key table.
pub struct Entry {
    /// The stored value.
    pub data: Vec<u8>,
    /// The instant (in ms) at which the entry expires, if any.
    pub expires_at: Option<u64>,
}

/// The mathematical value of an entry.
pub struct EntryV {
    pub data: Seq<u8>,
    pub expires_at: Option<u64>,
}

/// Model of an entry.
pub open spec fn entry_view(e: Entry) -> EntryV {
    EntryV { data: e.data@, expires_at: e.expires_at }
}

/// An entry is due at `now` when its expiration instant has passed.
/// An entry whose instant equals `now` counts as expired, so a TTL of
/// zero expires immediately.
pub open spec fn spec_expired(e: EntryV, now: u64) -> bool {
    match e.expires_at {
        Option::Some(w) => w <= now,
        Option::None => false,
    }
}

/// The entry mapped to `k`, reading the pair list from the end (the
/// key-uniqueness invariant makes the direction irrelevant).
pub open spec fn lookup(s: Seq<(Vec<u8>, Entry)>, k: Seq<u8>) -> Option<EntryV>
    decreases s.len(),
{
    if s.len() == 0 {
        Option::None
    } else if s.last().0@ == k {
        Option::Some(entry_view(s.last().1))
    } else {
        lookup(s.drop_last(), k)
    }
}

/// The channel with the given name, if registered.
pub open spec fn chan_lookup(s: Seq<Channel>, name: Seq<u8>) -> Option<Channel>
    decreases s.len(),
{
    if s.len() == 0 {
        Option::None
    } else if s.last().spec_name() == name {
        Option::Some(s.last())
    } else {
        chan_lookup(s.drop_last(), name)
    }
}

/// What a lookup at instant `now` yields: the stored data, unless the
/// key is absent or its expiration has passed.
pub open spec fn spec_get(db: Db, k: Seq<u8>, now: u64) -> Option<Seq<u8>> {
    match db.spec_entry(k) {
        Option::Some(e) => if spec_expired(e, now) {
            Option::None
        } else {
            Option::Some(e.data)
        },
        Option::None => Option::None,
    }
}

/// The saturating expiration instant `now + ttl`.
pub open spec fn spec_deadline(now: u64, ttl: u64) -> u64 {
    if now + ttl > u64::MAX {
        u64::MAX
    } else {
        (now + ttl) as u64
    }
}

/// The store: key table, time-ordered expiration index, channel
/// registry, and the shutdown flag for the eviction worker.
pub struct Db {
    entries: Vec<(Vec<u8>, Entry)>,
    expirations: Vec<(u64, Vec<u8>)>,
    channels: Vec<Channel>,
    is_shutdown: bool,
}

impl Db {
    /// The key table as a partial map from key to entry.
    pub closed spec fn spec_entry(self, k: Seq<u8>) -> Option<EntryV> {
        lookup(self.entries@, k)
    }

    /// The registered channel of that name, if any.
    pub closed spec fn spec_channel(self, name: Seq<u8>) -> Option<Channel> {
        chan_lookup(self.channels@, name)
    }

    /// The shutdown flag.
    pub closed spec fn spec_shutdown(self) -> bool {
        self.is_shutdown
    }

    /// The earliest instant in the expiration index.
    pub closed spec fn spec_next_expiration(self) -> Option<u64> {
        if self.expirations@.len() == 0 {
            Option::None
        } else {
            Option::Some(self.expirations@[0].0)
        }
    }

    /// Key-table keys are unique.
    pub closed spec fn keys_unique(self) -> bool {
        forall|i: int, j: int|
            0 <= i < j < self.entries@.len() ==> (#[trigger] self.entries@[i]).0@ != (
            #[trigger] self.entries@[j]).0@
    }

    /// The expiration index is sorted by instant and holds at most one
    /// pair per key.
    pub closed spec fn exp_sorted(self) -> bool {
        &&& forall|i: int, j: int|
            0 <= i < j < self.expirations@.len() ==> (#[trigger] self.expirations@[i]).0 <= (
            #[trigger] self.expirations@[j]).0
        &&& forall|i: int, j: int|
            0 <= i < j < self.expirations@.len() ==> (#[trigger] self.expirations@[i]).1@ != (
            #[trigger] self.expirations@[j]).1@
    }

    /// Every index pair points at an entry whose expiration equals the
    /// pair's instant.
    pub closed spec fn exp_sound(self) -> bool {
        forall|j: int|
            0 <= j < self.expirations@.len() ==> match lookup(
                self.entries@,
                (#[trigger] self.expirations@[j]).1@,
            ) {
                Option::Some(e) => e.expires_at == Option::Some(self.expirations@[j].0),
                Option::None => false,
            }
    }

    /// There is an index pair for the key.
    pub closed spec fn has_pair(self, k: Seq<u8>) -> bool {
        exists|j: int| 0 <= j < self.expirations@.len() && (#[trigger] self.expirations@[j]).1@
            == k
    }

    /// Every entry with an expiration has its index pair.
    pub closed spec fn exp_complete(self) -> bool {
        forall|i: int|
            0 <= i < self.entries@.len() ==> match (#[trigger] self.entries@[i]).1.expires_at {
                Option::Some(_) => self.has_pair(self.entries@[i].0@),
                Option::None => true,
            }
    }

    /// Channel names are unique and every channel is well formed.
    pub closed spec fn channels_wf(self) -> bool {
        &&& forall|i: int, j: int|
            0 <= i < j < self.channels@.len() ==> (#[trigger] self.channels@[i]).spec_name()
                != (#[trigger] self.channels@[j]).spec_name()
        &&& forall|i: int| 0 <= i < self.channels@.len() ==> (
        #[trigger] self.channels@[i]).wf()
    }

    /// The store invariant.
    pub closed spec fn wf(self) -> bool {
        &&& self.keys_unique()
        &&& self.exp_sorted()
        &&& self.exp_sound()
        &&& self.exp_complete()
        &&& self.channels_wf()
    }

    /// A fresh, empty store.
    pub fn new() -> (db: Db)
        ensures
            db.wf(),
            !db.spec_shutdown(),
            forall|k: Seq<u8>| db.spec_entry(k) is None,
            forall|name: Seq<u8>| db.spec_channel(name) is None,
            db.spec_next_expiration() is None,
    {
        Db {
            entries: Vec::new(),
            expirations: Vec::new(),
            channels: Vec::new(),
            is_shutdown: false,
        }
    }
}

// ---------------------------------------------------------------------
// Lemmas about `lookup`
// ---------------------------------------------------------------------

/// If no pair holds the key, the lookup misses.
proof fn lemma_lookup_absent(s: Seq<(Vec<u8>, Entry)>, k: Seq<u8>)
    requires
        forall|i: int| 0 <= i < s.len() ==> (#[trigger] s[i]).0@ != k,
    ensures
        lookup(s, k) is None,
    decreases s.len(),
{
    if s.len() > 0 {
        assert(s.last().0@ != k);
        lemma_lookup_absent(s.drop_last(), k);
    }
}

/// If the pair at `i` holds the key and keys are unique, the lookup
/// finds exactly that pair's entry.
proof fn lemma_lookup_at(s: Seq<(Vec<u8>, Entry)>, k: Seq<u8>, i: int)
    requires
        0 <= i < s.len(),
        s[i].0@ == k,
        forall|a: int, b: int| 0 <= a < b < s.len() ==> (#[trigger] s[a]).0@ != (
        #[trigger] s[b]).0@,
    ensures
        lookup(s, k) == Option::Some(entry_view(s[i].1)),
    decreases s.len(),
{
    if i == s.len() - 1 {
    } else {
        assert(s.last().0@ != k);
        lemma_lookup_at(s.drop_last(), k, i);
    }
}

/// A hit means some pair holds the key.
proof fn lemma_lookup_index(s: Seq<(Vec<u8>, Entry)>, k: Seq<u8>)
    requires
        lookup(s, k) is Some,
    ensures
        exists|i: int| 0 <= i < s.len() && (#[trigger] s[i]).0@ == k,
    decreases s.len(),
{
    if s.len() > 0 {
        if s.last().0@ == k {
            assert(s[s.len() - 1].0@ == k);
        } else {
            lemma_lookup_index(s.drop_last(), k);
            let i = choose|i: int| 0 <= i < s.drop_last().len() && (#[trigger] s.drop_last()[
                i
            ]).0@ == k;
            assert(s[i].0@ == k);
        }
    }
}

/// Removing the pair at `i` removes its key and nothing else.
proof fn lemma_lookup_remove(s: Seq<(Vec<u8>, Entry)>, k: Seq<u8>, i: int)
    requires
        0 <= i < s.len(),
        forall|a: int, b: int| 0 <= a < b < s.len() ==> (#[trigger] s[a]).0@ != (
        #[trigger] s[b]).0@,
    ensures
        lookup(s.remove(i), k) == if s[i].0@ == k {
            Option::<EntryV>::None
        } else {
            lookup(s, k)
        },
    decreases s.len(),
{
    let r = s.remove(i);
    if i == s.len() - 1 {
        assert(r =~= s.drop_last());
        if s[i].0@ == k {
            assert forall|a: int| 0 <= a < r.len() implies (#[trigger] r[a]).0@ != k by {
                assert(s[a].0@ != s[i].0@);
            }
            lemma_lookup_absent(r, k);
        }
    } else {
        assert(r.last() == s.last());
        assert(r.drop_last() =~= s.drop_last().remove(i));
        if s.last().0@ == k {
            assert(s[i].0@ != k);
        } else {
            lemma_lookup_remove(s.drop_last(), k, i);
        }
    }
}

/// Appending a pair with a fresh key adds its key and nothing else.
proof fn lemma_lookup_push(s: Seq<(Vec<u8>, Entry)>, k: Seq<u8>, p: (Vec<u8>, Entry))
    ensures
        lookup(s.push(p), k) == if p.0@ == k {
            Option::Some(entry_view(p.1))
        } else {
            lookup(s, k)
        },
{
    assert(s.push(p).last() == p);
    assert(s.push(p).drop_last() =~= s);
}

// ---------------------------------------------------------------------
// Reads
// ---------------------------------------------------------------------

impl Db {
    /// Index of the key's pair in the key table.
    #[verifier::loop_isolation(false)]
    fn find_entry(&self, key: &Vec<u8>) -> (r: Option<usize>)
        requires
            self.keys_unique(),
        ensures
            match r {
                Some(i) => i < self.entries@.len() && self.entries@[i as int].0@ == key@
                    && self.spec_entry(key@) == Option::Some(
                    entry_view(self.entries@[i as int].1),
                ),
                None => self.spec_entry(key@) is None,
            },
    {
        let mut i: usize = 0;
        while i < self.entries.len()
            invariant
                i <= self.entries@.len(),
                forall|j: int| 0 <= j < i ==> (#[trigger] self.entries@[j]).0@ != key@,
            decreases self.entries@.len() - i,
        {
            let pair = &self.entries[i];
            if bytes_eq(&pair.0, key) {
                proof {
                    lemma_lookup_at(self.entries@, key@, i as int);
                }
                return Some(i);
            }
            i = i + 1;
        }
        proof {
            lemma_lookup_absent(self.entries@, key@);
        }
        None
    }

    /// Index of the key's pair in the expiration index.
    #[verifier::loop_isolation(false)]
    fn find_exp_idx(&self, key: &Vec<u8>) -> (r: Option<usize>)
        ensures
            match r {
                Some(j) => j < self.expirations@.len() && self.expirations@[j as int].1@
                    == key@,
                None => forall|j: int|
                    0 <= j < self.expirations@.len() ==> (#[trigger] self.expirations@[j]).1@
                        != key@,
            },
    {
        let mut j: usize = 0;
        while j < self.expirations.len()
            invariant
                j <= self.expirations@.len(),
                forall|i: int| 0 <= i < j ==> (#[trigger] self.expirations@[i]).1@ != key@,
            decreases self.expirations@.len() - j,
        {
            let pair = &self.expirations[j];
            if bytes_eq(&pair.1, key) {
                return Some(j);
            }
            j = j + 1;
        }
        None
    }

    /// Look a key up at instant `now`. An entry whose expiration has
    /// passed is invisible even before the eviction worker removes it.
    pub fn get(&self, key: &Vec<u8>, now: u64) -> (r: Option<Vec<u8>>)
        requires
            self.wf(),
        ensures
            match r {
                Some(v) => self.spec_entry(key@) matches Some(e) && !spec_expired(e, now)
                    && v@ == e.data,
                None => match self.spec_entry(key@) {
                    Option::Some(e) => spec_expired(e, now),
                    Option::None => true,
                },
            },
    {
        match self.find_entry(key) {
            Some(i) => {
                let pair = &self.entries[i];
                match pair.1.expires_at {
                    Some(w) => {
                        if w <= now {
                            None
                        } else {
                            Some(clone_bytes(&pair.1.data))
                        }
                    },
                    None => Some(clone_bytes(&pair.1.data)),
                }
            },
            None => None,
        }
    }

    /// Remove a key's entry and its expiration pair, if present.
    fn remove_key(&mut self, key: &Vec<u8>)
        requires
            old(self).wf(),
        ensures
            final(self).wf(),
            final(self).spec_entry(key@) is None,
            forall|k: Seq<u8>| k != key@ ==> final(self).spec_entry(k) == old(self).spec_entry(
                k,
            ),
            !final(self).has_pair(key@),
            final(self).expirations@.len() == old(self).expirations@.len() - (if old(self).has_pair(key@) {
                1int
            } else {
                0int
            }),
            final(self).spec_shutdown() == old(self).spec_shutdown(),
            final(self).channels@ == old(self).channels@,
    {
        let ghost pre = *self;
        match self.find_entry(key) {
            None => {
                proof {
                    if pre.has_pair(key@) {
                        let j = choose|j: int| 0 <= j < pre.expirations@.len() && (
                        #[trigger] pre.expirations@[j]).1@ == key@;
                        assert(lookup(pre.entries@, pre.expirations@[j].1@) is Some);
                    }
                    assert(!pre.has_pair(key@));
                }
            },
            Some(i) => {
                let _removed = self.entries.remove(i);
                proof {
                    lemma_lookup_remove(pre.entries@, key@, i as int);
                    assert forall|k: Seq<u8>| k != key@ implies lookup(self.entries@, k)
                        == lookup(pre.entries@, k) by {
                        lemma_lookup_remove(pre.entries@, k, i as int);
                    }
                    // keys stay unique after the removal
                    assert forall|a: int, b: int|
                        0 <= a < b < self.entries@.len() implies (
                    #[trigger] self.entries@[a]).0@ != (#[trigger] self.entries@[b]).0@ by {
                        let ai = if a < i as int {
                            a
                        } else {
                            a + 1
                        };
                        let bi = if b < i as int {
                            b
                        } else {
                            b + 1
                        };
                        assert(self.entries@[a] == pre.entries@[ai]);
                        assert(self.entries@[b] == pre.entries@[bi]);
                    }
                }
                match self.find_exp_idx(key) {
                    Some(j) => {
                        let ghost expre = self.expirations@;
                        let _pair = self.expirations.remove(j);
                        proof {
                            assert(pre.has_pair(key@));
                            assert forall|a: int|
                                0 <= a < self.expirations@.len() implies (
                            #[trigger] self.expirations@[a]).1@ != key@ by {
                                let ai = if a < j as int {
                                    a
                                } else {
                                    a + 1
                                };
                                assert(self.expirations@[a] == expre[ai]);
                                if ai != j as int {
                                    assert(expre[ai].1@ != expre[j as int].1@);
                                }
                            }
                        }
                    },
                    None => {
                        proof {
                            assert(pre.exp_complete());
                            assert(pre.entries@[i as int].1.expires_at is Some ==> pre.has_pair(
                                key@,
                            ));
                            if pre.has_pair(key@) {
                                let j = choose|j: int|
                                    0 <= j < pre.expirations@.len() && (
                                    #[trigger] pre.expirations@[j]).1@ == key@;
                                assert(self.expirations@[j].1@ == key@);
                                assert(false);
                            }
                            // no expiration pair: the entry had none
                        }
                    },
                }
                proof {
                    lemma_remove_key_wf(pre, *self, key@, i as int);
                }
            },
        }
    }
}

/// After removing an entry (and its pair, if any), the invariant
/// holds again.
proof fn lemma_remove_key_wf(pre: Db, post: Db, key: Seq<u8>, i: int)
    requires
        pre.wf(),
        0 <= i < pre.entries@.len(),
        pre.entries@[i].0@ == key,
        post.entries@ == pre.entries@.remove(i),
        forall|k: Seq<u8>| k != key ==> lookup(post.entries@, k) == lookup(pre.entries@, k),
        lookup(post.entries@, key) is None,
        forall|a: int| 0 <= a < post.expirations@.len() ==> (#[trigger] post.expirations@[
            a
        ]).1@ != key,
        // the expiration pairs that remain all come from `pre`, in order
        post.expirations@.len() == pre.expirations@.len() || exists|j: int|
            0 <= j < pre.expirations@.len() && post.expirations@ == pre.expirations@.remove(j)
                && (#[trigger] pre.expirations@[j]).1@ == key,
        post.expirations@.len() == pre.expirations@.len() ==> post.expirations@
            == pre.expirations@,
        post.channels@ == pre.channels@,
    ensures
        post.keys_unique() ==> post.wf(),
{
    if post.keys_unique() {
        if post.expirations@.len() == pre.expirations@.len() {
            assert forall|j: int|
                0 <= j < post.expirations@.len() implies match lookup(
                post.entries@,
                (#[trigger] post.expirations@[j]).1@,
            ) {
                Option::Some(e) => e.expires_at == Option::Some(post.expirations@[j].0),
                Option::None => false,
            } by {
                assert(pre.expirations@[j] == post.expirations@[j]);
                assert(post.expirations@[j].1@ != key);
            }
            assert(post.exp_sound());
        } else {
            let j0 = choose|j: int|
                0 <= j < pre.expirations@.len() && post.expirations@ == pre.expirations@.remove(
                    j,
                ) && (#[trigger] pre.expirations@[j]).1@ == key;
            assert forall|a: int|
                0 <= a < post.expirations@.len() implies match lookup(
                post.entries@,
                (#[trigger] post.expirations@[a]).1@,
            ) {
                Option::Some(e) => e.expires_at == Option::Some(post.expirations@[a].0),
                Option::None => false,
            } by {
                let ai = if a < j0 {
                    a
                } else {
                    a + 1
                };
                assert(post.expirations@[a] == pre.expirations@[ai]);
            }
            assert(post.exp_sound());
            assert forall|a: int, b: int|
                0 <= a < b < post.expirations@.len() implies (#[trigger] post.expirations@[
                a
            ]).0 <= (#[trigger] post.expirations@[b]).0 && post.expirations@[a].1@
                != post.expirations@[b].1@ by {
                let ai = if a < j0 {
                    a
                } else {
                    a + 1
                };
                let bi = if b < j0 {
                    b
                } else {
                    b + 1
                };
                assert(post.expirations@[a] == pre.expirations@[ai]);
                assert(post.expirations@[b] == pre.expirations@[bi]);
            }
            assert(post.exp_sorted());
        }
        // completeness: surviving entries keep their pairs
        assert forall|a: int|
            0 <= a < post.entries@.len() implies match (#[trigger] post.entries@[
            a
        ]).1.expires_at {
            Option::Some(_) => post.has_pair(post.entries@[a].0@),
            Option::None => true,
        } by {
            let ai = if a < i {
                a
            } else {
                a + 1
            };
            assert(post.entries@[a] == pre.entries@[ai]);
            match pre.entries@[ai].1.expires_at {
                Option::Some(_) => {
                    assert(pre.has_pair(pre.entries@[ai].0@));
                    let j = choose|j: int|
                        0 <= j < pre.expirations@.len() && (#[trigger] pre.expirations@[j]).1@
                            == pre.entries@[ai].0@;
                    if post.expirations@.len() == pre.expirations@.len() {
                        assert(post.expirations@[j].1@ == post.entries@[a].0@);
                    } else {
                        let j0 = choose|jj: int|
                            0 <= jj < pre.expirations@.len() && post.expirations@
                                == pre.expirations@.remove(jj) && (
                            #[trigger] pre.expirations@[jj]).1@ == key;
                        // the removed pair was for `key`, not this entry
                        assert(pre.entries@[ai].0@ != key) by {
                            if ai < i {
                                assert(pre.entries@[ai].0@ != pre.entries@[i].0@);
                            } else {
                                assert(pre.entries@[i].0@ != pre.entries@[ai].0@);
                            }
                        }
                        assert(j != j0);
                        if j < j0 {
                            assert(post.expirations@[j].1@ == post.entries@[a].0@);
                        } else {
                            assert(post.expirations@[j - 1] == pre.expirations@[j]);
                            assert(post.expirations@[j - 1].1@ == post.entries@[a].0@);
                        }
                    }
                },
                Option::None => {},
            }
        }
        assert(post.exp_complete());
        assert(post.channels_wf());
    }
}

// ---------------------------------------------------------------------
// Writes
// ---------------------------------------------------------------------

/// The expiration instant a `SET` with this option records: `now +
/// ttl`, saturating. A TTL of zero gives `now`, which counts as
/// already expired: the entry is invisible from the very next lookup.
pub open spec fn spec_when(expire: Option<u64>, now: u64) -> Option<u64> {
    match expire {
        Option::Some(d) => Option::Some(spec_deadline(now, d)),
        Option::None => Option::None,
    }
}

/// Insert a pair into the sorted index, before everything later.
#[verifier::loop_isolation(false)]
fn insert_sorted(exp: &mut Vec<(u64, Vec<u8>)>, w: u64, key: Vec<u8>) -> (idx: Ghost<int>)
    requires
        forall|i: int, j: int| 0 <= i < j < old(exp)@.len() ==> (#[trigger] old(exp)@[i]).0
            <= (#[trigger] old(exp)@[j]).0,
    ensures
        0 <= idx@ <= old(exp)@.len(),
        final(exp)@.len() == old(exp)@.len() + 1,
        forall|j: int| 0 <= j < idx@ ==> final(exp)@[j] == (#[trigger] old(exp)@[j]),
        forall|j: int| idx@ < j < old(exp)@.len() + 1 ==> (#[trigger] final(exp)@[j]) == old(exp)@[j - 1],
        final(exp)@[idx@].0 == w,
        final(exp)@[idx@].1@ == key@,
        forall|j: int| 0 <= j < idx@ ==> (#[trigger] old(exp)@[j]).0 <= w,
        forall|j: int| idx@ <= j < old(exp)@.len() ==> (#[trigger] old(exp)@[j]).0 > w,
{
    let mut i: usize = 0;
    while i < exp.len() && exp[i].0 <= w
        invariant
            i <= exp@.len(),
            forall|j: int| 0 <= j < i ==> (#[trigger] exp@[j]).0 <= w,
        decreases exp@.len() - i,
    {
        i = i + 1;
    }
    let ghost before = exp@;
    exp.insert(i, (w, key));
    proof {
        assert forall|j: int| 0 <= j < i implies exp@[j] == (#[trigger] before[j]) by {
            assert(exp@[j] == before.insert(i as int, exp@[i as int])[j]);
        }
    }
    Ghost(i as int)
}

impl Db {
    /// The instant at which the next key is due, if any key has a TTL.
    pub fn next_expiration(&self) -> (r: Option<u64>)
        ensures
            r == self.spec_next_expiration(),
    {
        if self.expirations.len() == 0 {
            None
        } else {
            Some(self.expirations[0].0)
        }
    }

    /// Store `value` under `key`, replacing any previous entry and its
    /// TTL. With `expire` given, the entry is due at `now + expire`
    /// (saturating). Returns whether the eviction worker must be
    /// woken: exactly when the new deadline comes before everything
    /// already in the index.
    pub fn set(&mut self, key: Vec<u8>, value: Vec<u8>, expire: Option<u64>, now: u64) -> (notify:
        bool)
        requires
            old(self).wf(),
        ensures
            final(self).wf(),
            final(self).spec_entry(key@) == Option::Some(
                EntryV { data: value@, expires_at: spec_when(expire, now) },
            ),
            forall|k: Seq<u8>| k != key@ ==> final(self).spec_entry(k) == old(self).spec_entry(
                k,
            ),
            notify == match spec_when(expire, now) {
                Option::Some(w) => match old(self).spec_next_expiration() {
                    Option::Some(nw) => nw > w,
                    Option::None => true,
                },
                Option::None => false,
            },
            final(self).spec_shutdown() == old(self).spec_shutdown(),
            forall|n: Seq<u8>| final(self).spec_channel(n) == old(self).spec_channel(n),
    {
        let when: Option<u64> = match expire {
            Some(d) => if d > u64::MAX - now {
                Some(u64::MAX)
            } else {
                Some(now + d)
            },
            None => None,
        };
        let notify = match when {
            Some(w) => match self.next_expiration() {
                Some(nw) => nw > w,
                None => true,
            },
            None => false,
        };
        let key2 = clone_bytes(&key);
        self.remove_key(&key);
        let ghost mid = *self;
        self.entries.push((key, Entry { data: value, expires_at: when }));
        let ghost pushed = self.entries@.last();
        proof {
            assert(self.entries@.drop_last() =~= mid.entries@);
            assert forall|k: Seq<u8>| #[trigger] lookup(self.entries@, k) == if k == pushed.0@ {
                Option::Some(entry_view(pushed.1))
            } else {
                lookup(mid.entries@, k)
            } by {
                lemma_lookup_push(mid.entries@, k, pushed);
                assert(mid.entries@.push(pushed) =~= self.entries@);
            }
            // the key is fresh in `mid`, so uniqueness is kept
            assert forall|i: int| 0 <= i < mid.entries@.len() implies (
            #[trigger] mid.entries@[i]).0@ != pushed.0@ by {
                if mid.entries@[i].0@ == pushed.0@ {
                    lemma_lookup_at(mid.entries@, pushed.0@, i);
                }
            }
            assert(self.keys_unique());
        }
        match when {
            None => {
                proof {
                    assert forall|j: int|
                        0 <= j < self.expirations@.len() implies match lookup(
                        self.entries@,
                        (#[trigger] self.expirations@[j]).1@,
                    ) {
                        Option::Some(e) => e.expires_at == Option::Some(
                            self.expirations@[j].0,
                        ),
                        Option::None => false,
                    } by {
                        assert(self.expirations@[j].1@ != pushed.0@);
                    }
                    assert forall|i: int|
                        0 <= i < self.entries@.len() implies match (#[trigger] self.entries@[
                        i
                    ]).1.expires_at {
                        Option::Some(_) => self.has_pair(self.entries@[i].0@),
                        Option::None => true,
                    } by {
                        if i < self.entries@.len() - 1 {
                            assert(self.entries@[i] == mid.entries@[i]);
                            if mid.entries@[i].1.expires_at is Some {
                                assert(mid.has_pair(mid.entries@[i].0@));
                            }
                        }
                    }
                    assert(self.wf());
                }
            },
            Some(w) => {
                let idx = insert_sorted(&mut self.expirations, w, key2);
                proof {
                    lemma_set_insert_wf(mid, *self, idx@, w, pushed.0@);
                }
            },
        }
        notify
    }

    /// Remove each listed key and its TTL. Missing keys are not
    /// errors, which makes deletion idempotent.
    #[verifier::loop_isolation(false)]
    pub fn del(&mut self, keys: &Vec<Vec<u8>>)
        requires
            old(self).wf(),
        ensures
            final(self).wf(),
            forall|k: Seq<u8>| #[trigger] final(self).spec_entry(k) == if key_named(keys@, k) {
                Option::<EntryV>::None
            } else {
                old(self).spec_entry(k)
            },
            final(self).spec_shutdown() == old(self).spec_shutdown(),
            forall|n: Seq<u8>| final(self).spec_channel(n) == old(self).spec_channel(n),
    {
        let ghost pre = *self;
        let mut i: usize = 0;
        while i < keys.len()
            invariant
                i <= keys@.len(),
                self.wf(),
                forall|k: Seq<u8>| #[trigger] self.spec_entry(k) == if key_named(
                    keys@.take(i as int),
                    k,
                ) {
                    Option::<EntryV>::None
                } else {
                    pre.spec_entry(k)
                },
                self.spec_shutdown() == pre.spec_shutdown(),
                self.channels@ == pre.channels@,
            decreases keys@.len() - i,
        {
            self.remove_key(&keys[i]);
            i = i + 1;
            proof {
                assert forall|k: Seq<u8>| key_named(keys@.take(i as int), k) == (key_named(
                    keys@.take(i as int - 1),
                    k,
                ) || keys@[i as int - 1]@ == k) by {
                    if key_named(keys@.take(i as int), k) {
                        let j = choose|j: int|
                            0 <= j < keys@.take(i as int).len() && (#[trigger] keys@.take(
                                i as int,
                            )[j])@ == k;
                        if j < i as int - 1 {
                            assert(keys@.take(i as int - 1)[j]@ == k);
                        }
                    } else {
                        if key_named(keys@.take(i as int - 1), k) {
                            let j = choose|j: int|
                                0 <= j < keys@.take(i as int - 1).len() && (#[trigger] keys@.take(
                                    i as int - 1,
                                )[j])@ == k;
                            assert(keys@.take(i as int)[j]@ == k);
                        }
                        assert(keys@[i as int - 1]@ != k) by {
                            if keys@[i as int - 1]@ == k {
                                assert(keys@.take(i as int)[i as int - 1]@ == k);
                            }
                        }
                    }
                }
            }
        }
        proof {
            assert(keys@.take(keys@.len() as int) =~= keys@);
        }
    }

    /// Whether the store has been told to shut down.
    pub fn is_shutdown(&self) -> (r: bool)
        ensures
            r == self.spec_shutdown(),
    {
        self.is_shutdown
    }

    /// Tell the eviction worker to exit: set the flag it checks at the
    /// head of every sweep.
    pub fn shutdown_purge_task(&mut self)
        requires
            old(self).wf(),
        ensures
            final(self).wf(),
            final(self).spec_shutdown(),
            forall|k: Seq<u8>| final(self).spec_entry(k) == old(self).spec_entry(k),
            forall|n: Seq<u8>| final(self).spec_channel(n) == old(self).spec_channel(n),
            final(self).spec_next_expiration() == old(self).spec_next_expiration(),
    {
        self.is_shutdown = true;
    }

    /// One sweep of the eviction worker: remove every entry that is
    /// due at `now` and report when the next one will be due. Under
    /// shutdown, do nothing and report nothing, so the worker exits.
    /// The sweep never touches an entry that is absent from the index
    /// or not yet due.
    #[verifier::loop_isolation(false)]
    pub fn purge_expired_keys(&mut self, now: u64) -> (r: Option<u64>)
        requires
            old(self).wf(),
        ensures
            final(self).wf(),
            final(self).spec_shutdown() == old(self).spec_shutdown(),
            old(self).spec_shutdown() ==> *final(self) == *old(self) && r is None,
            !old(self).spec_shutdown() ==> forall|k: Seq<u8>| #[trigger] final(self).spec_entry(k) == match old(self).spec_entry(k) {
                Option::Some(e) => if spec_expired(e, now) {
                    Option::<EntryV>::None
                } else {
                    Option::Some(e)
                },
                Option::None => Option::<EntryV>::None,
            },
            !old(self).spec_shutdown() ==> r == final(self).spec_next_expiration() && (
            r matches Some(w) ==> w > now),
            forall|n: Seq<u8>| final(self).spec_channel(n) == old(self).spec_channel(n),
    {
        if self.is_shutdown {
            return None;
        }
        let ghost pre = *self;
        while self.expirations.len() > 0 && self.expirations[0].0 <= now
            invariant
                self.wf(),
                self.spec_shutdown() == pre.spec_shutdown(),
                self.channels@ == pre.channels@,
                forall|k: Seq<u8>|
                    #[trigger] self.spec_entry(k) == pre.spec_entry(k) || (self.spec_entry(k)
                        is None && match pre.spec_entry(k) {
                        Option::Some(e) => spec_expired(e, now),
                        Option::None => false,
                    }),
            decreases self.expirations@.len(),
        {
            let key = clone_bytes(&self.expirations[0].1);
            proof {
                assert(self.has_pair(key@)) by {
                    assert(self.expirations@[0].1@ == key@);
                }
                assert(lookup(self.entries@, key@) is Some);
            }
            self.remove_key(&key);
        }
        proof {
            assert forall|k: Seq<u8>| #[trigger] self.spec_entry(k) == (match pre.spec_entry(
                k,
            ) {
                Option::Some(e) => if spec_expired(e, now) {
                    Option::<EntryV>::None
                } else {
                    Option::Some(e)
                },
                Option::None => Option::<EntryV>::None,
            }) by {
                match self.spec_entry(k) {
                    Option::Some(e) => {
                        assert(self.spec_entry(k) == pre.spec_entry(k));
                        if spec_expired(e, now) {
                            lemma_lookup_index(self.entries@, k);
                            let i = choose|i: int|
                                0 <= i < self.entries@.len() && (#[trigger] self.entries@[
                                    i
                                ]).0@ == k;
                            lemma_lookup_at(self.entries@, k, i);
                            assert(self.has_pair(k));
                            let j = choose|j: int|
                                0 <= j < self.expirations@.len() && (
                                #[trigger] self.expirations@[j]).1@ == k;
                            assert(self.expirations@[0].0 <= self.expirations@[j].0);
                            assert(false);
                        }
                    },
                    Option::None => {},
                }
            }
        }
        if self.expirations.len() == 0 {
            None
        } else {
            Some(self.expirations[0].0)
        }
    }
}

/// Whether `k` is among the listed key names.
pub open spec fn key_named(keys: Seq<Vec<u8>>, k: Seq<u8>) -> bool {
    exists|i: int| 0 <= i < keys.len() && (#[trigger] keys[i])@ == k
}

/// After pushing the new entry and inserting its pair at the sorted
/// position, the invariant holds again.
proof fn lemma_set_insert_wf(base: Db, post: Db, idx: int, w: u64, key: Seq<u8>)
    requires
        base.wf(),
        !base.has_pair(key),
        lookup(base.entries@, key) is None,
        post.keys_unique(),
        post.channels@ == base.channels@,
        post.entries@.len() == base.entries@.len() + 1,
        forall|i: int| 0 <= i < base.entries@.len() ==> post.entries@[i] == (
        #[trigger] base.entries@[i]),
        post.entries@.last().0@ == key,
        post.entries@.last().1.expires_at == Option::Some(w),
        0 <= idx <= base.expirations@.len(),
        post.expirations@.len() == base.expirations@.len() + 1,
        forall|j: int| 0 <= j < idx ==> post.expirations@[j] == (#[trigger] base.expirations@[
            j
        ]),
        forall|j: int| idx < j < base.expirations@.len() + 1 ==> (
        #[trigger] post.expirations@[j]) == base.expirations@[j - 1],
        post.expirations@[idx].1@ == key,
        post.expirations@[idx].0 == w,
        forall|j: int| 0 <= j < idx ==> (#[trigger] base.expirations@[j]).0 <= w,
        forall|j: int| idx <= j < base.expirations@.len() ==> (#[trigger] base.expirations@[
            j
        ]).0 > w,
    ensures
        post.wf(),
        post.spec_entry(key) == Option::Some(entry_view(post.entries@.last().1)),
        forall|k: Seq<u8>| k != key ==> post.spec_entry(k) == base.spec_entry(k),
{
    let last = post.entries@.last();
    assert(post.entries@ =~= base.entries@.push(last));
    assert forall|k: Seq<u8>| #[trigger] lookup(post.entries@, k) == if k == key {
        Option::Some(entry_view(last.1))
    } else {
        lookup(base.entries@, k)
    } by {
        lemma_lookup_push(base.entries@, k, last);
    }
    // order and per-key uniqueness of the index
    assert forall|a: int, b: int|
        0 <= a < b < post.expirations@.len() implies (#[trigger] post.expirations@[a]).0 <= (
        #[trigger] post.expirations@[b]).0 && post.expirations@[a].1@ != post.expirations@[
        b
    ].1@ by {
        if a != idx && post.expirations@[a].1@ == key {
            assert(base.has_pair(key)) by {
                if a < idx {
                    assert(base.expirations@[a].1@ == key);
                } else {
                    assert(base.expirations@[a - 1].1@ == key);
                }
            }
        }
        if b != idx && post.expirations@[b].1@ == key {
            assert(base.has_pair(key)) by {
                if b < idx {
                    assert(base.expirations@[b].1@ == key);
                } else {
                    assert(base.expirations@[b - 1].1@ == key);
                }
            }
        }
        if a < idx {
            assert(post.expirations@[a] == base.expirations@[a]);
        }
        if a > idx {
            assert(post.expirations@[a] == base.expirations@[a - 1]);
        }
        if b < idx {
            assert(post.expirations@[b] == base.expirations@[b]);
        }
        if b > idx {
            assert(post.expirations@[b] == base.expirations@[b - 1]);
        }
    }
    // soundness
    assert forall|j: int|
        0 <= j < post.expirations@.len() implies match lookup(
        post.entries@,
        (#[trigger] post.expirations@[j]).1@,
    ) {
        Option::Some(e) => e.expires_at == Option::Some(post.expirations@[j].0),
        Option::None => false,
    } by {
        if j != idx {
            let ji = if j < idx {
                j
            } else {
                j - 1
            };
            assert(post.expirations@[j] == base.expirations@[ji]);
            assert(base.expirations@[ji].1@ != key) by {
                if base.expirations@[ji].1@ == key {
                    assert(base.has_pair(key));
                }
            }
        }
    }
    // completeness
    assert forall|i: int|
        0 <= i < post.entries@.len() implies match (#[trigger] post.entries@[
        i
    ]).1.expires_at {
        Option::Some(_) => post.has_pair(post.entries@[i].0@),
        Option::None => true,
    } by {
        if post.entries@[i].1.expires_at is Some {
            if i == post.entries@.len() - 1 {
                assert(post.expirations@[idx].1@ == post.entries@[i].0@);
            } else {
                assert(post.entries@[i] == base.entries@[i]);
                assert(base.has_pair(base.entries@[i].0@));
                let j = choose|j: int|
                    0 <= j < base.expirations@.len() && (#[trigger] base.expirations@[j]).1@
                        == base.entries@[i].0@;
                if j < idx {
                    assert(post.expirations@[j].1@ == post.entries@[i].0@);
                } else {
                    assert(post.expirations@[j + 1] == base.expirations@[j]);
                    assert(post.expirations@[j + 1].1@ == post.entries@[i].0@);
                }
            }
        }
    }
}

// ---------------------------------------------------------------------
// Pub/sub registry
// ---------------------------------------------------------------------

/// If no channel has the name, the lookup misses.
proof fn lemma_chan_absent(s: Seq<Channel>, name: Seq<u8>)
    requires
        forall|i: int| 0 <= i < s.len() ==> (#[trigger] s[i]).spec_name() != name,
    ensures
        chan_lookup(s, name) is None,
    decreases s.len(),
{
    if s.len() > 0 {
        lemma_chan_absent(s.drop_last(), name);
    }
}

/// With unique names, the lookup finds the channel at its index.
proof fn lemma_chan_at(s: Seq<Channel>, name: Seq<u8>, i: int)
    requires
        0 <= i < s.len(),
        s[i].spec_name() == name,
        forall|a: int, b: int| 0 <= a < b < s.len() ==> (#[trigger] s[a]).spec_name() != (
        #[trigger] s[b]).spec_name(),
    ensures
        chan_lookup(s, name) == Option::Some(s[i]),
    decreases s.len(),
{
    if i == s.len() - 1 {
    } else {
        assert(s.last().spec_name() != name);
        lemma_chan_at(s.drop_last(), name, i);
    }
}

/// Updating the channel at `i` (keeping its name) changes only that
/// name's lookup.
proof fn lemma_chan_update(s: Seq<Channel>, i: int, c: Channel, name: Seq<u8>)
    requires
        0 <= i < s.len(),
        c.spec_name() == s[i].spec_name(),
        forall|a: int, b: int| 0 <= a < b < s.len() ==> (#[trigger] s[a]).spec_name() != (
        #[trigger] s[b]).spec_name(),
    ensures
        chan_lookup(s.update(i, c), name) == if name == s[i].spec_name() {
            Option::Some(c)
        } else {
            chan_lookup(s, name)
        },
    decreases s.len(),
{
    let u = s.update(i, c);
    if i == s.len() - 1 {
        assert(u.last() == c);
        assert(u.drop_last() =~= s.drop_last());
        if name == s[i].spec_name() {
        } else {
            assert(u.last().spec_name() != name);
        }
    } else {
        assert(u.last() == s.last());
        assert(u.drop_last() =~= s.drop_last().update(i, c));
        if name == s[i].spec_name() {
            assert(s.last().spec_name() != name);
            lemma_chan_update(s.drop_last(), i, c, name);
        } else {
            lemma_chan_update(s.drop_last(), i, c, name);
        }
    }
}

/// Appending a channel with a fresh name adds only that name.
proof fn lemma_chan_push(s: Seq<Channel>, c: Channel, name: Seq<u8>)
    ensures
        chan_lookup(s.push(c), name) == if name == c.spec_name() {
            Option::Some(c)
        } else {
            chan_lookup(s, name)
        },
{
    assert(s.push(c).last() == c);
    assert(s.push(c).drop_last() =~= s);
}

/// The publish history a channel name currently has: empty when the
/// channel is not yet registered.
pub open spec fn history_of(db: Db, name: Seq<u8>) -> Seq<Seq<u8>> {
    match db.spec_channel(name) {
        Option::Some(c) => c.spec_history(),
        Option::None => Seq::empty(),
    }
}

/// The live subscriber count of a channel name.
pub open spec fn receivers_of(db: Db, name: Seq<u8>) -> int {
    match db.spec_channel(name) {
        Option::Some(c) => c.spec_receivers(),
        Option::None => 0,
    }
}

/// History index of the oldest message a channel name still retains.
pub open spec fn base_of(db: Db, name: Seq<u8>) -> int {
    match db.spec_channel(name) {
        Option::Some(c) => c.spec_base(),
        Option::None => 0,
    }
}

impl Db {
    /// Index of the channel with that name.
    #[verifier::loop_isolation(false)]
    fn find_channel(&self, name: &Vec<u8>) -> (r: Option<usize>)
        requires
            self.channels_wf(),
        ensures
            match r {
                Some(i) => i < self.channels@.len() && self.channels@[i as int].spec_name()
                    == name@ && self.spec_channel(name@) == Option::Some(
                    self.channels@[i as int],
                ),
                None => self.spec_channel(name@) is None,
            },
    {
        let mut i: usize = 0;
        while i < self.channels.len()
            invariant
                i <= self.channels@.len(),
                forall|j: int| 0 <= j < i ==> (#[trigger] self.channels@[j]).spec_name()
                    != name@,
            decreases self.channels@.len() - i,
        {
            if self.channels[i].name_is(name) {
                proof {
                    lemma_chan_at(self.channels@, name@, i as int);
                }
                return Some(i);
            }
            i = i + 1;
        }
        proof {
            lemma_chan_absent(self.channels@, name@);
        }
        None
    }

    /// Subscribe to a channel, creating it on first use. The returned
    /// receiver will see exactly the messages published after this
    /// call, in order, less any it sleeps through.
    pub fn subscribe(&mut self, name: Vec<u8>) -> (rx: Receiver)
        requires
            old(self).wf(),
            receivers_of(*old(self), name@) < u64::MAX,
        ensures
            final(self).wf(),
            forall|k: Seq<u8>| final(self).spec_entry(k) == old(self).spec_entry(k),
            final(self).spec_shutdown() == old(self).spec_shutdown(),
            final(self).spec_next_expiration() == old(self).spec_next_expiration(),
            final(self).spec_channel(name@) is Some,
            history_of(*final(self), name@) == history_of(*old(self), name@),
            receivers_of(*final(self), name@) == receivers_of(*old(self), name@) + 1,
            base_of(*final(self), name@) == base_of(*old(self), name@),
            forall|n: Seq<u8>| n != name@ ==> final(self).spec_channel(n) == old(self).spec_channel(n),
            rx.spec_channel() == name@,
            rx.spec_next() == history_of(*old(self), name@).len(),
            rx.spec_birth() == history_of(*old(self), name@).len(),
            rx.spec_log() == Seq::<(int, Seq<u8>)>::empty(),
            rx.log_ok(),
    {
        let ghost pre = *self;
        match self.find_channel(&name) {
            Some(i) => {
                let mut ch = self.channels.remove(i);
                let rx = ch.subscribe();
                self.channels.insert(i, ch);
                proof {
                    assert(self.channels@ =~= pre.channels@.update(i as int, ch));
                    lemma_subscribe_update(pre, *self, i as int, ch, name@);
                }
                rx
            },
            None => {
                let name2 = clone_bytes(&name);
                let mut ch = Channel::new(name2);
                let rx = ch.subscribe();
                self.channels.push(ch);
                proof {
                    assert(self.channels@ =~= pre.channels@.push(ch));
                    assert forall|n: Seq<u8>| #[trigger] chan_lookup(self.channels@, n)
                        == if n == name@ {
                        Option::Some(ch)
                    } else {
                        chan_lookup(pre.channels@, n)
                    } by {
                        lemma_chan_push(pre.channels@, ch, n);
                    }
                    assert forall|a: int, b: int|
                        0 <= a < b < self.channels@.len() implies (#[trigger] self.channels@[
                        a
                    ]).spec_name() != (#[trigger] self.channels@[b]).spec_name() by {
                        if b == self.channels@.len() - 1 {
                            if self.channels@[a].spec_name() == ch.spec_name() {
                                lemma_chan_at(pre.channels@, ch.spec_name(), a);
                            }
                        }
                    }
                    assert forall|a: int| 0 <= a < self.channels@.len() implies (
                    #[trigger] self.channels@[a]).wf() by {
                        if a < self.channels@.len() - 1 {
                            assert(self.channels@[a] == pre.channels@[a]);
                        }
                    }
                }
                rx
            },
        }
    }

    /// Publish a message on a channel and return the number of live
    /// subscribers at this instant (a delivery hint, not a promise).
    /// An unregistered channel has no subscribers: nothing happens and
    /// the count is zero.
    pub fn publish(&mut self, name: &Vec<u8>, msg: Vec<u8>) -> (r: u64)
        requires
            old(self).wf(),
            history_of(*old(self), name@).len() < u64::MAX,
        ensures
            final(self).wf(),
            forall|k: Seq<u8>| final(self).spec_entry(k) == old(self).spec_entry(k),
            final(self).spec_shutdown() == old(self).spec_shutdown(),
            final(self).spec_next_expiration() == old(self).spec_next_expiration(),
            r as int == receivers_of(*old(self), name@),
            old(self).spec_channel(name@) is None ==> *final(self) == *old(self) && r == 0,
            old(self).spec_channel(name@) is Some ==> history_of(*final(self), name@)
                == history_of(*old(self), name@).push(msg@) && receivers_of(
                *final(self),
                name@,
            ) == receivers_of(*old(self), name@) && final(self).spec_channel(name@) is Some
                && base_of(*final(self), name@) == base_of(*old(self), name@) + (if history_of(
                *old(self),
                name@,
            ).len() - base_of(*old(self), name@) >= CHANNEL_CAPACITY {
                1int
            } else {
                0int
            }),
            forall|n: Seq<u8>| n != name@ ==> final(self).spec_channel(n) == old(self).spec_channel(n),
    {
        let ghost pre = *self;
        match self.find_channel(name) {
            Some(i) => {
                let mut ch = self.channels.remove(i);
                let r = ch.publish(msg);
                self.channels.insert(i, ch);
                proof {
                    assert(self.channels@ =~= pre.channels@.update(i as int, ch));
                    lemma_subscribe_update(pre, *self, i as int, ch, name@);
                }
                r
            },
            None => 0,
        }
    }

    /// One receive attempt on the channel `rx` is subscribed to, with
    /// the delivery guarantees of the channel's `recv`.
    pub fn recv(&self, rx: &mut Receiver) -> (r: RecvOutcome)
        requires
            self.wf(),
            self.spec_channel(old(rx).spec_channel()) is Some,
            old(rx).spec_next() <= history_of(*self, old(rx).spec_channel()).len(),
            old(rx).log_ok(),
        ensures
            final(rx).spec_channel() == old(rx).spec_channel(),
            final(rx).spec_birth() == old(rx).spec_birth(),
            final(rx).spec_next() <= history_of(*self, old(rx).spec_channel()).len(),
            final(rx).spec_next() >= old(rx).spec_next(),
            final(rx).log_ok(),
            log_matches(old(rx).spec_log(), history_of(*self, old(rx).spec_channel()))
                ==> log_matches(
                final(rx).spec_log(),
                history_of(*self, old(rx).spec_channel()),
            ),
            ({
                let h = history_of(*self, old(rx).spec_channel());
                let c = self.spec_channel(old(rx).spec_channel())->Some_0;
                match r {
                    RecvOutcome::Message(m) => old(rx).spec_next() >= c.spec_base() && old(rx).spec_next() < h.len() && m@ == h[old(rx).spec_next()] && final(rx).spec_next() == old(rx).spec_next() + 1 && final(rx).spec_log() == old(rx).spec_log().push((old(rx).spec_next(), m@)),
                    RecvOutcome::Lagged => old(rx).spec_next() < c.spec_base() && final(rx).spec_next() == c.spec_base() && final(rx).spec_log() == old(rx).spec_log(),
                    RecvOutcome::Empty => old(rx).spec_next() == h.len() && final(rx).spec_next() == old(rx).spec_next() && final(rx).spec_log() == old(rx).spec_log(),
                }
            }),
    {
        let i = match self.find_channel(rx.channel_name()) {
            Some(i) => i,
            None => {
                return vstd::pervasive::unreached();
            },
        };
        let ch = &self.channels[i];
        ch.recv(rx)
    }

    /// The live subscriber count of a channel (zero when it does not
    /// exist yet).
    pub fn receivers_count(&self, name: &Vec<u8>) -> (r: u64)
        requires
            self.wf(),
        ensures
            r as int == receivers_of(*self, name@),
    {
        match self.find_channel(name) {
            Some(i) => self.channels[i].receiver_count(),
            None => 0,
        }
    }

    /// How many messages have ever been published on a channel (zero
    /// when it does not exist yet).
    pub fn channel_history_len(&self, name: &Vec<u8>) -> (r: u64)
        requires
            self.wf(),
        ensures
            r as int == history_of(*self, name@).len(),
    {
        match self.find_channel(name) {
            Some(i) => self.channels[i].history_len(),
            None => 0,
        }
    }

    /// Drop the subscription `rx` stands for: its channel's live count
    /// goes down by one (never below zero).
    pub fn unsubscribe_receiver(&mut self, rx: &Receiver)
        requires
            old(self).wf(),
        ensures
            final(self).wf(),
            forall|k: Seq<u8>| final(self).spec_entry(k) == old(self).spec_entry(k),
            final(self).spec_shutdown() == old(self).spec_shutdown(),
            final(self).spec_next_expiration() == old(self).spec_next_expiration(),
            forall|n: Seq<u8>| history_of(*final(self), n) == history_of(*old(self), n),
            forall|n: Seq<u8>| base_of(*final(self), n) == base_of(*old(self), n),
            receivers_of(*final(self), rx.spec_channel()) == if receivers_of(
                *old(self),
                rx.spec_channel(),
            ) > 0 {
                receivers_of(*old(self), rx.spec_channel()) - 1
            } else {
                0int
            },
            forall|n: Seq<u8>| n != rx.spec_channel() ==> final(self).spec_channel(n) == old(self).spec_channel(n),
    {
        let ghost pre = *self;
        match self.find_channel(rx.channel_name()) {
            Some(i) => {
                let mut ch = self.channels.remove(i);
                ch.unsubscribe();
                self.channels.insert(i, ch);
                proof {
                    assert(self.channels@ =~= pre.channels@.update(i as int, ch));
                    lemma_subscribe_update(pre, *self, i as int, ch, rx.spec_channel());
                }
            },
            None => {},
        }
    }
}

/// Replacing one channel by an update of itself (same name, still
/// well formed) preserves the registry invariant and leaves every
/// other name's lookup unchanged.
proof fn lemma_subscribe_update(pre: Db, post: Db, i: int, c: Channel, name: Seq<u8>)
    requires
        pre.wf(),
        0 <= i < pre.channels@.len(),
        pre.channels@[i].spec_name() == name,
        c.spec_name() == name,
        c.wf(),
        post.channels@ == pre.channels@.update(i, c),
        post.entries@ == pre.entries@,
        post.expirations@ == pre.expirations@,
    ensures
        post.wf(),
        post.spec_channel(name) == Option::Some(c),
        forall|n: Seq<u8>| n != name ==> post.spec_channel(n) == pre.spec_channel(n),
{
    assert forall|n: Seq<u8>| #[trigger] chan_lookup(post.channels@, n) == if n == name {
        Option::Some(c)
    } else {
        chan_lookup(pre.channels@, n)
    } by {
        lemma_chan_update(pre.channels@, i, c, n);
    }
    assert forall|a: int, b: int|
        0 <= a < b < post.channels@.len() implies (#[trigger] post.channels@[a]).spec_name()
            != (#[trigger] post.channels@[b]).spec_name() by {
        assert(pre.channels@[a].spec_name() != pre.channels@[b].spec_name());
        if a != i {
            assert(post.channels@[a] == pre.channels@[a]);
        }
        if b != i {
            assert(post.channels@[b] == pre.channels@[b]);
        }
    }
    assert forall|a: int| 0 <= a < post.channels@.len() implies (
    #[trigger] post.channels@[a]).wf() by {
        if a != i {
            assert(post.channels@[a] == pre.channels@[a]);
        }
    }
}

} // verus!
