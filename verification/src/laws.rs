//! Laws of the storage model.
//!
//! These theorems state, over the abstract views of [`crate::persister`],
//! the properties every backend's contract adds up to: what a read returns
//! after a batch of writes, that deleting absent keys is a no-op, how
//! overwriting moves the size counters, and that one peer's sync state
//! never shows through another's key.

use vstd::prelude::*;

verus! {

use crate::model::{ChangeKey, ChangeRecord, remove_keys_seq, stored_bytes, upsert_changes};

/// The blob the last record of a batch wrote at key `k`, if any record of
/// the batch wrote there.
pub open spec fn last_write(batch: Seq<ChangeRecord>, k: ChangeKey) -> Option<Seq<u8>>
    decreases batch.len(),
{
    if batch.len() == 0 {
        Option::None
    } else {
        match last_write(batch.drop_first(), k) {
            Option::Some(v) => Option::Some(v),
            Option::None => if (batch[0].0, batch[0].1) == k {
                Option::Some(batch[0].2)
            } else {
                Option::None
            },
        }
    }
}

/// Round-trip: after upserting a batch of change records, the store holds,
/// at every key, the last blob the batch wrote there, and at every other
/// key exactly what it held before. With `get_changes` returning exactly
/// the stored values and `get_document` the last snapshot set, a load reads
/// back exactly what was stored.
pub proof fn lemma_upsert_round_trip(m: Map<ChangeKey, Seq<u8>>, batch: Seq<ChangeRecord>, k: ChangeKey)
    ensures
        upsert_changes(m, batch).index_opt(k) == match last_write(batch, k) {
            Option::Some(v) => Option::Some(v),
            Option::None => m.index_opt(k),
        },
    decreases batch.len(),
{
    if batch.len() == 0 {
    } else {
        let m1 = m.insert((batch[0].0, batch[0].1), batch[0].2);
        lemma_upsert_round_trip(m1, batch.drop_first(), k);
    }
}

/// Idempotent delete: removing keys that are not stored leaves the store
/// exactly as it was — so, with the size counters equal to the stored
/// bytes, `sizes()` is unaltered too.
pub proof fn lemma_remove_missing_is_noop<K>(m: Map<K, Seq<u8>>, ks: Seq<K>)
    requires
        forall|i: int| 0 <= i < ks.len() ==> !m.dom().contains(#[trigger] ks[i]),
    ensures
        remove_keys_seq(m, ks) == m,
    decreases ks.len(),
{
    if ks.len() == 0 {
    } else {
        assert(m.remove(ks[0]) =~= m);
        lemma_remove_missing_is_noop(m.remove(ks[0]), ks.drop_first());
    }
}

/// Overwrite accounting: storing a blob at an occupied key moves the total
/// stored bytes by exactly the new length minus the old length, never
/// double-counting; at a fresh key it adds exactly the new length.
pub proof fn lemma_overwrite_accounting(m: Map<ChangeKey, Seq<u8>>, k: ChangeKey, v: Seq<u8>)
    requires
        m.dom().finite(),
    ensures
        m.dom().contains(k) ==> stored_bytes(m.insert(k, v)) == stored_bytes(m) - m[k].len()
            + v.len(),
        !m.dom().contains(k) ==> stored_bytes(m.insert(k, v)) == stored_bytes(m) + v.len(),
{
    crate::model::lemma_upsert_bytes(m, k, v);
}

/// Peer isolation: writing or deleting peer `a`'s sync state never changes
/// what is read under any other peer `b`.
pub proof fn lemma_peer_isolation(m: Map<Seq<u8>, Seq<u8>>, a: Seq<u8>, b: Seq<u8>, v: Seq<u8>)
    requires
        a != b,
    ensures
        m.insert(a, v).index_opt(b) == m.index_opt(b),
        m.remove(a).index_opt(b) == m.index_opt(b),
{
}

} // verus!
