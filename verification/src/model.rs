//! Mathematical model of a stored region.
//!
//! A region is a finite map from keys to byte strings. This module defines
//! the multiset of stored values, the total number of stored bytes, and the
//! effect of batched insertions and removals, together with the lemmas the
//! backends need to keep their running size counters exact.

use vstd::prelude::*;

verus! {

use vstd::multiset::Multiset;

/// A change record handed to or returned by a persister: actor identifier,
/// per-actor sequence number, and the raw change bytes.
pub type ChangeRecord = (Seq<u8>, u64, Seq<u8>);

/// The storage key of a change record: the pair of actor and sequence number.
pub type ChangeKey = (Seq<u8>, u64);

/// The multiset of values stored in a finite map.
pub open spec fn stored_vals<K, V>(m: Map<K, V>) -> Multiset<V>
    decreases m.dom().len(),
{
    if m.dom().finite() && m.dom().len() > 0 {
        let k = m.dom().choose();
        stored_vals(m.remove(k)).insert(m[k])
    } else {
        Multiset::empty()
    }
}

/// Total length of the byte strings in a multiset.
pub open spec fn multiset_bytes(s: Multiset<Seq<u8>>) -> nat
    decreases s.len(),
{
    if s.len() > 0 {
        let v = s.choose();
        v.len() + multiset_bytes(s.remove(v))
    } else {
        0
    }
}

/// Total length of the values stored in a finite map of byte strings.
pub open spec fn stored_bytes<K>(m: Map<K, Seq<u8>>) -> nat {
    multiset_bytes(stored_vals(m))
}

/// Number of bytes a stored document occupies: zero when absent.
pub open spec fn doc_bytes(d: Option<Seq<u8>>) -> nat {
    match d {
        Option::None => 0,
        Option::Some(s) => s.len(),
    }
}

/// An empty stored value stands for an absent document, so reading
/// normalizes it away; a missing or zero-length blob both mean "no
/// document".
pub open spec fn norm_doc(d: Option<Seq<u8>>) -> Option<Seq<u8>> {
    match d {
        Option::None => Option::None,
        Option::Some(s) => if s.len() == 0 {
            Option::None
        } else {
            Option::Some(s)
        },
    }
}

/// The map after upserting every record of a batch, in batch order.
pub open spec fn upsert_changes(m: Map<ChangeKey, Seq<u8>>, batch: Seq<ChangeRecord>) -> Map<
    ChangeKey,
    Seq<u8>,
>
    decreases batch.len(),
{
    if batch.len() == 0 {
        m
    } else {
        upsert_changes(m.insert((batch[0].0, batch[0].1), batch[0].2), batch.drop_first())
    }
}

/// The blobs of a sequence of change records, in order.
pub open spec fn record_vals(rs: Seq<ChangeRecord>) -> Seq<Seq<u8>> {
    Seq::new(rs.len(), |i: int| rs[i].2)
}

/// The blobs of a sequence of key/blob pairs, in order.
pub open spec fn pair_vals(ps: Seq<(Seq<u8>, Seq<u8>)>) -> Seq<Seq<u8>> {
    Seq::new(ps.len(), |i: int| ps[i].1)
}

/// The map after upserting every key/blob pair of a batch, in batch order.
pub open spec fn upsert_blobs(m: Map<Seq<u8>, Seq<u8>>, batch: Seq<(Seq<u8>, Seq<u8>)>) -> Map<
    Seq<u8>,
    Seq<u8>,
>
    decreases batch.len(),
{
    if batch.len() == 0 {
        m
    } else {
        upsert_blobs(m.insert(batch[0].0, batch[0].1), batch.drop_first())
    }
}

/// The map after removing every key of a batch.
pub open spec fn remove_keys_seq<K, V>(m: Map<K, V>, ks: Seq<K>) -> Map<K, V>
    decreases ks.len(),
{
    if ks.len() == 0 {
        m
    } else {
        remove_keys_seq(m.remove(ks[0]), ks.drop_first())
    }
}

/// Total length of the blobs carried by a batch of change records.
pub open spec fn batch_bytes(batch: Seq<ChangeRecord>) -> nat
    decreases batch.len(),
{
    if batch.len() == 0 {
        0
    } else {
        batch[0].2.len() + batch_bytes(batch.drop_first())
    }
}

/// Total length of a sequence of byte strings.
pub open spec fn blob_seq_bytes(vs: Seq<Seq<u8>>) -> nat
    decreases vs.len(),
{
    if vs.len() == 0 {
        0
    } else {
        vs[0].len() + blob_seq_bytes(vs.drop_first())
    }
}

/// A sequence extended by one blob carries the lengths of both.
pub proof fn lemma_blob_seq_bytes_push(vs: Seq<Seq<u8>>, v: Seq<u8>)
    ensures
        blob_seq_bytes(vs.push(v)) == blob_seq_bytes(vs) + v.len(),
    decreases vs.len(),
{
    let s = vs.push(v);
    assert(blob_seq_bytes(s) == s[0].len() + blob_seq_bytes(s.drop_first()));
    if vs.len() == 0 {
        assert(s[0] == v);
        assert(s.drop_first() =~= Seq::<Seq<u8>>::empty());
    } else {
        assert(s[0] == vs[0]);
        assert(s.drop_first() =~= vs.drop_first().push(v));
        lemma_blob_seq_bytes_push(vs.drop_first(), v);
    }
}

/// The total of a sequence splits at any point.
pub proof fn lemma_blob_seq_bytes_split(vs: Seq<Seq<u8>>, i: int)
    requires
        0 <= i <= vs.len(),
    ensures
        blob_seq_bytes(vs) == blob_seq_bytes(vs.take(i)) + blob_seq_bytes(vs.skip(i)),
    decreases i,
{
    if i == 0 {
        assert(vs.take(0) =~= Seq::<Seq<u8>>::empty());
        assert(vs.skip(0) =~= vs);
    } else {
        let t = vs.take(i);
        assert(t[0] == vs[0]);
        assert(t.drop_first() =~= vs.drop_first().take(i - 1));
        assert(vs.skip(i) =~= vs.drop_first().skip(i - 1));
        lemma_blob_seq_bytes_split(vs.drop_first(), i - 1);
        assert(blob_seq_bytes(vs) == vs[0].len() + blob_seq_bytes(vs.drop_first()));
        assert(blob_seq_bytes(t) == vs[0].len() + blob_seq_bytes(vs.drop_first().take(i - 1)));
    }
}

/// The bytes of a multiset built from a sequence are the sequence's total.
pub proof fn lemma_multiset_bytes_of_seq(vs: Seq<Seq<u8>>)
    ensures
        multiset_bytes(vs.to_multiset()) == blob_seq_bytes(vs),
    decreases vs.len(),
{
    broadcast use vstd::seq_lib::group_to_multiset_ensures;
    broadcast use vstd::multiset::group_multiset_axioms;

    if vs.len() == 0 {
        assert(vs.to_multiset().len() == 0);
    } else {
        let d = vs.drop_last();
        lemma_multiset_bytes_of_seq(d);
        assert(vs =~= d.push(vs.last()));
        assert(vs.to_multiset() =~= d.to_multiset().insert(vs.last()));
        lemma_multiset_bytes_insert(d.to_multiset(), vs.last());
        lemma_blob_seq_bytes_push(d, vs.last());
    }
}

/// Removing a present key takes exactly its value out of the stored values.
pub proof fn lemma_stored_vals_remove<K, V>(m: Map<K, V>, k: K)
    requires
        m.dom().finite(),
        m.dom().contains(k),
    ensures
        stored_vals(m) == stored_vals(m.remove(k)).insert(m[k]),
    decreases m.dom().len(),
{
    broadcast use vstd::multiset::group_multiset_axioms;

    let k0 = m.dom().choose();
    assert(m.dom().contains(k0));
    if k0 == k {
    } else {
        let mk = m.remove(k);
        let m0 = m.remove(k0);
        lemma_stored_vals_remove(m0, k);
        lemma_stored_vals_remove(mk, k0);
        assert(m0.remove(k) == mk.remove(k0));
        assert(stored_vals(m) == stored_vals(m0).insert(m[k0]));
        assert(stored_vals(mk.remove(k0)).insert(m[k]).insert(m[k0]) =~= stored_vals(
            mk.remove(k0),
        ).insert(m[k0]).insert(m[k]));
    }
}

/// How one upsert changes the stored values: a fresh key adds its value, an
/// overwrite exchanges the old value for the new one.
pub proof fn lemma_stored_vals_insert<K, V>(m: Map<K, V>, k: K, v: V)
    requires
        m.dom().finite(),
    ensures
        stored_vals(m.insert(k, v)) == if m.dom().contains(k) {
            stored_vals(m).remove(m[k]).insert(v)
        } else {
            stored_vals(m).insert(v)
        },
{
    broadcast use vstd::multiset::group_multiset_axioms;

    let mi = m.insert(k, v);
    lemma_stored_vals_remove(mi, k);
    if m.dom().contains(k) {
        lemma_stored_vals_remove(m, k);
        assert(mi.remove(k) == m.remove(k));
        assert(stored_vals(m).remove(m[k]) =~= stored_vals(m.remove(k)));
    } else {
        assert(mi.remove(k) == m);
    }
}

/// Taking a present value out of a multiset subtracts exactly its length.
pub proof fn lemma_multiset_bytes_remove(s: Multiset<Seq<u8>>, v: Seq<u8>)
    requires
        s.contains(v),
    ensures
        multiset_bytes(s) == v.len() + multiset_bytes(s.remove(v)),
    decreases s.len(),
{
    broadcast use vstd::multiset::group_multiset_axioms;

    let v0 = s.choose();
    assert(s.count(v0) > 0);
    if v0 == v {
    } else {
        let sv = s.remove(v);
        let s0 = s.remove(v0);
        lemma_multiset_bytes_remove(s0, v);
        lemma_multiset_bytes_remove(sv, v0);
        assert(s0.remove(v) =~= sv.remove(v0));
    }
}

/// Putting a value into a multiset adds exactly its length.
pub proof fn lemma_multiset_bytes_insert(s: Multiset<Seq<u8>>, v: Seq<u8>)
    ensures
        multiset_bytes(s.insert(v)) == multiset_bytes(s) + v.len(),
{
    broadcast use vstd::multiset::group_multiset_axioms;

    lemma_multiset_bytes_remove(s.insert(v), v);
    assert(s.insert(v).remove(v) =~= s);
}

/// Overwrite accounting: upserting a record moves the stored total by
/// exactly the new length minus the length previously stored at that key
/// (zero when the key is fresh), never double-counting.
pub proof fn lemma_upsert_bytes<K>(m: Map<K, Seq<u8>>, k: K, v: Seq<u8>)
    requires
        m.dom().finite(),
    ensures
        m.dom().contains(k) ==> m[k].len() <= stored_bytes(m) && stored_bytes(m.insert(k, v))
            == stored_bytes(m) - m[k].len() + v.len(),
        !m.dom().contains(k) ==> stored_bytes(m.insert(k, v)) == stored_bytes(m) + v.len(),
{
    broadcast use vstd::multiset::group_multiset_axioms;

    lemma_stored_vals_insert(m, k, v);
    if m.dom().contains(k) {
        lemma_stored_vals_remove(m, k);
        assert(stored_vals(m).contains(m[k]));
        lemma_multiset_bytes_remove(stored_vals(m), m[k]);
        lemma_multiset_bytes_insert(stored_vals(m).remove(m[k]), v);
        assert(stored_vals(m).remove(m[k]) =~= stored_vals(m.remove(k)));
    } else {
        lemma_multiset_bytes_insert(stored_vals(m), v);
    }
}

/// Removal accounting: deleting a key takes exactly the stored length back
/// out of the total, and a key that is not present changes nothing.
pub proof fn lemma_remove_bytes<K>(m: Map<K, Seq<u8>>, k: K)
    requires
        m.dom().finite(),
    ensures
        m.dom().contains(k) ==> m[k].len() <= stored_bytes(m) && stored_bytes(m.remove(k))
            == stored_bytes(m) - m[k].len(),
        !m.dom().contains(k) ==> m.remove(k) == m,
{
    broadcast use vstd::multiset::group_multiset_axioms;

    if m.dom().contains(k) {
        lemma_stored_vals_remove(m, k);
        assert(stored_vals(m).contains(m[k]));
        lemma_multiset_bytes_remove(stored_vals(m), m[k]);
        assert(stored_vals(m).remove(m[k]) =~= stored_vals(m.remove(k)));
    } else {
        assert(m.remove(k) =~= m);
    }
}

/// The empty map stores nothing.
pub proof fn lemma_stored_empty<K, V>()
    ensures
        stored_vals(Map::<K, V>::empty()) == Multiset::<V>::empty(),
        stored_bytes(Map::<K, Seq<u8>>::empty()) == 0,
{
    broadcast use vstd::multiset::group_multiset_axioms;

    assert(Map::<K, V>::empty().dom().len() == 0);
    assert(Map::<K, Seq<u8>>::empty().dom().len() == 0);
}

/// Upserting a batch and then one more record equals upserting the extended
/// batch.
pub proof fn lemma_upsert_changes_push(
    m: Map<ChangeKey, Seq<u8>>,
    batch: Seq<ChangeRecord>,
    r: ChangeRecord,
)
    ensures
        upsert_changes(m, batch.push(r)) == upsert_changes(m, batch).insert((r.0, r.1), r.2),
    decreases batch.len(),
{
    if batch.len() == 0 {
        assert(batch.push(r).drop_first() =~= Seq::<ChangeRecord>::empty());
        assert(upsert_changes(m, batch.push(r)) == upsert_changes(
            m.insert((r.0, r.1), r.2),
            Seq::<ChangeRecord>::empty(),
        ));
    } else {
        assert(batch.push(r).drop_first() =~= batch.drop_first().push(r));
        lemma_upsert_changes_push(m.insert((batch[0].0, batch[0].1), batch[0].2), batch.drop_first(), r);
    }
}

/// Upserting a batch of pairs and then one more equals upserting the
/// extended batch.
pub proof fn lemma_upsert_blobs_push(
    m: Map<Seq<u8>, Seq<u8>>,
    batch: Seq<(Seq<u8>, Seq<u8>)>,
    p: (Seq<u8>, Seq<u8>),
)
    ensures
        upsert_blobs(m, batch.push(p)) == upsert_blobs(m, batch).insert(p.0, p.1),
    decreases batch.len(),
{
    if batch.len() == 0 {
        assert(batch.push(p).drop_first() =~= Seq::<(Seq<u8>, Seq<u8>)>::empty());
        assert(upsert_blobs(m, batch.push(p)) == upsert_blobs(
            m.insert(p.0, p.1),
            Seq::<(Seq<u8>, Seq<u8>)>::empty(),
        ));
    } else {
        assert(batch.push(p).drop_first() =~= batch.drop_first().push(p));
        lemma_upsert_blobs_push(m.insert(batch[0].0, batch[0].1), batch.drop_first(), p);
    }
}

/// Removing a batch of keys and then one more equals removing the extended
/// batch.
pub proof fn lemma_remove_keys_seq_push<K, V>(m: Map<K, V>, ks: Seq<K>, k: K)
    ensures
        remove_keys_seq(m, ks.push(k)) == remove_keys_seq(m, ks).remove(k),
    decreases ks.len(),
{
    if ks.len() == 0 {
        assert(ks.push(k).drop_first() =~= Seq::<K>::empty());
        assert(remove_keys_seq(m, ks.push(k)) == remove_keys_seq(m.remove(k), Seq::<K>::empty()));
    } else {
        assert(ks.push(k).drop_first() =~= ks.drop_first().push(k));
        lemma_remove_keys_seq_push(m.remove(ks[0]), ks.drop_first(), k);
    }
}

/// A batch extended by one record carries the lengths of both.
pub proof fn lemma_batch_bytes_push(batch: Seq<ChangeRecord>, r: ChangeRecord)
    ensures
        batch_bytes(batch.push(r)) == batch_bytes(batch) + r.2.len(),
    decreases batch.len(),
{
    let s = batch.push(r);
    assert(batch_bytes(s) == s[0].2.len() + batch_bytes(s.drop_first()));
    if batch.len() == 0 {
        assert(s[0] == r);
        assert(s.drop_first() =~= Seq::<ChangeRecord>::empty());
        assert(batch_bytes(Seq::<ChangeRecord>::empty()) == 0);
    } else {
        assert(s[0] == batch[0]);
        assert(s.drop_first() =~= batch.drop_first().push(r));
        lemma_batch_bytes_push(batch.drop_first(), r);
        assert(batch_bytes(batch) == batch[0].2.len() + batch_bytes(batch.drop_first()));
    }
}

/// The carried bytes of a batch split at any point.
pub proof fn lemma_batch_bytes_split(batch: Seq<ChangeRecord>, i: int)
    requires
        0 <= i <= batch.len(),
    ensures
        batch_bytes(batch) == batch_bytes(batch.take(i)) + batch_bytes(batch.skip(i)),
    decreases i,
{
    if i == 0 {
        assert(batch.take(0) =~= Seq::<ChangeRecord>::empty());
        assert(batch.skip(0) =~= batch);
    } else {
        let t = batch.take(i);
        assert(t[0] == batch[0]);
        assert(t.drop_first() =~= batch.drop_first().take(i - 1));
        assert(batch.skip(i) =~= batch.drop_first().skip(i - 1));
        lemma_batch_bytes_split(batch.drop_first(), i - 1);
        assert(batch_bytes(batch) == batch[0].2.len() + batch_bytes(batch.drop_first()));
        assert(batch_bytes(t) == batch[0].2.len() + batch_bytes(batch.drop_first().take(i - 1)));
    }
}

/// Total length of the blobs carried by a batch of key/blob pairs.
pub open spec fn pairs_bytes(batch: Seq<(Seq<u8>, Seq<u8>)>) -> nat
    decreases batch.len(),
{
    if batch.len() == 0 {
        0
    } else {
        batch[0].1.len() + pairs_bytes(batch.drop_first())
    }
}

/// A pair batch extended by one pair carries the lengths of both.
pub proof fn lemma_pairs_bytes_push(batch: Seq<(Seq<u8>, Seq<u8>)>, p: (Seq<u8>, Seq<u8>))
    ensures
        pairs_bytes(batch.push(p)) == pairs_bytes(batch) + p.1.len(),
    decreases batch.len(),
{
    let s = batch.push(p);
    assert(pairs_bytes(s) == s[0].1.len() + pairs_bytes(s.drop_first()));
    if batch.len() == 0 {
        assert(s[0] == p);
        assert(s.drop_first() =~= Seq::<(Seq<u8>, Seq<u8>)>::empty());
    } else {
        assert(s[0] == batch[0]);
        assert(s.drop_first() =~= batch.drop_first().push(p));
        lemma_pairs_bytes_push(batch.drop_first(), p);
    }
}

/// The carried bytes of a pair batch split at any point.
pub proof fn lemma_pairs_bytes_split(batch: Seq<(Seq<u8>, Seq<u8>)>, i: int)
    requires
        0 <= i <= batch.len(),
    ensures
        pairs_bytes(batch) == pairs_bytes(batch.take(i)) + pairs_bytes(batch.skip(i)),
    decreases i,
{
    if i == 0 {
        assert(batch.take(0) =~= Seq::<(Seq<u8>, Seq<u8>)>::empty());
        assert(batch.skip(0) =~= batch);
    } else {
        let t = batch.take(i);
        assert(t[0] == batch[0]);
        assert(t.drop_first() =~= batch.drop_first().take(i - 1));
        assert(batch.skip(i) =~= batch.drop_first().skip(i - 1));
        lemma_pairs_bytes_split(batch.drop_first(), i - 1);
        assert(pairs_bytes(batch) == batch[0].1.len() + pairs_bytes(batch.drop_first()));
        assert(pairs_bytes(t) == batch[0].1.len() + pairs_bytes(batch.drop_first().take(i - 1)));
    }
}

/// Removing a batch of keys never adds or rewrites anything: the result is
/// a submap of what was there.
pub proof fn lemma_remove_keys_seq_submap<K, V>(m: Map<K, V>, ks: Seq<K>)
    ensures
        remove_keys_seq(m, ks).submap_of(m),
    decreases ks.len(),
{
    if ks.len() == 0 {
    } else {
        let m1 = m.remove(ks[0]);
        lemma_remove_keys_seq_submap(m1, ks.drop_first());
        assert(m1.submap_of(m));
        assert forall|k: K|
            #[trigger] remove_keys_seq(m, ks).dom().contains(k) implies m.dom().contains(k)
            && remove_keys_seq(m, ks)[k] == m[k] by {
            assert(remove_keys_seq(m1, ks.drop_first()).dom().contains(k));
            assert(m1.dom().contains(k) && remove_keys_seq(m1, ks.drop_first())[k] == m1[k]);
        }
    }
}

} // verus!
