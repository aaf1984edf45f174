//! The store's laws, stated over the models that the operations'
//! contracts use and proved from what they say.

use crate::db::{spec_expired, spec_get, spec_when, Db, EntryV};
use vstd::prelude::*;

verus! {

/// After `SET key value` at instant `t0`, a lookup of `key` returns
/// `value` at every instant before the TTL (if any) has elapsed —
/// that is, until a later write, a deletion, or the TTL changes the
/// entry. `db1` is the store `set` leaves behind.
pub proof fn lemma_set_then_get(
    db0: Db,
    db1: Db,
    key: Seq<u8>,
    value: Seq<u8>,
    expire: Option<u64>,
    t0: u64,
    t1: u64,
)
    requires
        db1.spec_entry(key) == Option::Some(
            EntryV { data: value, expires_at: spec_when(expire, t0) },
        ),
        match spec_when(expire, t0) {
            Option::Some(w) => t1 < w,
            Option::None => true,
        },
    ensures
        spec_get(db1, key, t1) == Option::Some(value),
{
}

/// A key stored with TTL `ttl` at instant `t0` reads as absent at
/// every instant from `t0 + ttl` on.
pub proof fn lemma_ttl_elapsed(db1: Db, key: Seq<u8>, value: Seq<u8>, ttl: u64, t0: u64, t1: u64)
    requires
        db1.spec_entry(key) == Option::Some(
            EntryV { data: value, expires_at: spec_when(Option::Some(ttl), t0) },
        ),
        t1 >= t0 + ttl,
    ensures
        spec_get(db1, key, t1) is None,
{
}

/// A TTL of zero expires immediately: the very next lookup, at the
/// same instant or later, already misses.
pub proof fn lemma_ttl_zero(db1: Db, key: Seq<u8>, value: Seq<u8>, t0: u64, t1: u64)
    requires
        db1.spec_entry(key) == Option::Some(
            EntryV { data: value, expires_at: spec_when(Option::Some(0), t0) },
        ),
        t1 >= t0,
    ensures
        spec_get(db1, key, t1) is None,
{
}

/// Deletion is idempotent: deleting the same keys again changes
/// nothing. `db1` is the store after the first `DEL`, `db2` after the
/// second of the same keys; both runs answer `+OK` regardless.
pub proof fn lemma_del_idempotent(db0: Db, db1: Db, db2: Db, keys: Seq<Seq<u8>>)
    requires
        forall|k: Seq<u8>| #[trigger] db1.spec_entry(k) == if crate::cmd::name_in(keys, k) {
            Option::<EntryV>::None
        } else {
            db0.spec_entry(k)
        },
        forall|k: Seq<u8>| #[trigger] db2.spec_entry(k) == if crate::cmd::name_in(keys, k) {
            Option::<EntryV>::None
        } else {
            db1.spec_entry(k)
        },
    ensures
        forall|k: Seq<u8>| db2.spec_entry(k) == db1.spec_entry(k),
{
}

/// A key that was never set reads as absent: in a fresh store every
/// lookup misses.
pub proof fn lemma_fresh_get_nil(db: Db, key: Seq<u8>, now: u64)
    requires
        forall|k: Seq<u8>| db.spec_entry(k) is None,
    ensures
        spec_get(db, key, now) is None,
{
}

} // verus!
