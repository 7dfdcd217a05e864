//! A persister over the embedded ordered key-value store.
//!
//! Changes, the document and sync states are kept in three separate trees.
//! Within each tree a namespace prefix scopes this persister's keys, so
//! several logical documents can share one physical store. A change is
//! keyed by `prefix ++ actor ++ big_endian(seq)`, the document by the
//! prefix itself, and a sync state by `prefix ++ peer_id`.

use vstd::prelude::*;

verus! {

use crate::keys::{change_key, clone_bytes, lemma_be_val_bytes, lemma_bytes_deep_view,
    lemma_change_key_injective, lemma_change_key_shape, peer_key, skip_bytes, spec_be_val,
    spec_change_key, spec_peer_key};
use crate::kv::{key_prefixed, kv_flush, kv_get, kv_insert, kv_remove, kv_scan_prefix, tree_entries};
use crate::model::{ChangeKey, batch_bytes, blob_seq_bytes, doc_bytes, lemma_blob_seq_bytes_push,
    lemma_blob_seq_bytes_split, lemma_multiset_bytes_of_seq, lemma_remove_bytes,
    lemma_remove_keys_seq_push, lemma_stored_empty, lemma_stored_vals_insert, lemma_upsert_bytes,
    lemma_upsert_changes_push, pair_vals, stored_bytes, stored_vals};
use crate::persister::{Persister, PersisterView};
use crate::sizes::StoredSizes;

/// Errors of the embedded key-value backend.
#[derive(Debug)]
pub enum SledPersisterError {
    /// An internal error from sled.
    SledError(sled::Error),
    /// A stored key under this namespace is too short to carry a sequence
    /// number, so the changes tree was not written by this layer.
    InvalidChangeKey,
}

/// The change records a tree stores under a namespace prefix.
pub open spec fn changes_region(t: Map<Seq<u8>, Seq<u8>>, p: Seq<u8>) -> Map<ChangeKey, Seq<u8>> {
    Map::new(
        |ak: ChangeKey| t.contains_key(spec_change_key(p, ak.0, ak.1)),
        |ak: ChangeKey| t[spec_change_key(p, ak.0, ak.1)],
    )
}

/// The sync states a tree stores under a namespace prefix.
pub open spec fn sync_region(t: Map<Seq<u8>, Seq<u8>>, p: Seq<u8>) -> Map<Seq<u8>, Seq<u8>> {
    Map::new(
        |peer: Seq<u8>| t.contains_key(spec_peer_key(p, peer)),
        |peer: Seq<u8>| t[spec_peer_key(p, peer)],
    )
}

/// Every key of the changes tree under this prefix is long enough to carry
/// an actor and an eight-byte sequence number.
pub open spec fn wf_change_keys(t: Map<Seq<u8>, Seq<u8>>, p: Seq<u8>) -> bool {
    forall|k: Seq<u8>|
        t.contains_key(k) && #[trigger] key_prefixed(k, p) ==> k.len() >= p.len() + 8
}

/// A prefixed key of sufficient length is a change key, of the actor and
/// sequence number it spells.
proof fn lemma_key_decompose(k: Seq<u8>, p: Seq<u8>)
    requires
        key_prefixed(k, p),
        k.len() >= p.len() + 8,
    ensures
        k == spec_change_key(
            p,
            k.subrange(p.len() as int, k.len() - 8),
            spec_be_val(k.subrange(k.len() - 8, k.len() as int)),
        ),
{
    let a = k.subrange(p.len() as int, k.len() - 8);
    let tail = k.subrange(k.len() - 8, k.len() as int);
    lemma_be_val_bytes(tail);
    assert(k =~= p + a + tail);
}

/// Storing a change record under its key upserts exactly that record in
/// the region and leaves every other record alone.
proof fn lemma_changes_region_insert(t: Map<Seq<u8>, Seq<u8>>, p: Seq<u8>, a: Seq<u8>, q: u64, v: Seq<u8>)
    ensures
        changes_region(t.insert(spec_change_key(p, a, q), v), p) == changes_region(t, p).insert(
            (a, q),
            v,
        ),
{
    let k = spec_change_key(p, a, q);
    assert forall|ak: ChangeKey| true implies spec_change_key(p, ak.0, ak.1) == k <==> ak == ((a, q)) by {
        if spec_change_key(p, ak.0, ak.1) == k {
            lemma_change_key_injective(p, ak.0, ak.1, a, q);
        }
    }
    assert(changes_region(t.insert(k, v), p) =~= changes_region(t, p).insert((a, q), v));
}

/// Deleting a change key removes exactly that record from the region.
proof fn lemma_changes_region_remove(t: Map<Seq<u8>, Seq<u8>>, p: Seq<u8>, a: Seq<u8>, q: u64)
    ensures
        changes_region(t.remove(spec_change_key(p, a, q)), p) == changes_region(t, p).remove(
            (a, q),
        ),
{
    let k = spec_change_key(p, a, q);
    assert forall|ak: ChangeKey| true implies spec_change_key(p, ak.0, ak.1) == k <==> ak == ((a, q)) by {
        if spec_change_key(p, ak.0, ak.1) == k {
            lemma_change_key_injective(p, ak.0, ak.1, a, q);
        }
    }
    assert(changes_region(t.remove(k), p) =~= changes_region(t, p).remove((a, q)));
}

/// Storing a sync state under its peer key upserts exactly that peer.
proof fn lemma_sync_region_insert(t: Map<Seq<u8>, Seq<u8>>, p: Seq<u8>, peer: Seq<u8>, v: Seq<u8>)
    ensures
        sync_region(t.insert(spec_peer_key(p, peer), v), p) == sync_region(t, p).insert(peer, v),
{
    assert forall|x: Seq<u8>| true implies spec_peer_key(p, x) == spec_peer_key(p, peer) <==> x
        == peer by {
        if spec_peer_key(p, x) == spec_peer_key(p, peer) {
            crate::keys::lemma_peer_key_injective(p, x, peer);
        }
    }
    assert(sync_region(t.insert(spec_peer_key(p, peer), v), p) =~= sync_region(t, p).insert(
        peer,
        v,
    ));
}

/// Deleting a peer key removes exactly that peer from the region.
proof fn lemma_sync_region_remove(t: Map<Seq<u8>, Seq<u8>>, p: Seq<u8>, peer: Seq<u8>)
    ensures
        sync_region(t.remove(spec_peer_key(p, peer)), p) == sync_region(t, p).remove(peer),
{
    assert forall|x: Seq<u8>| true implies spec_peer_key(p, x) == spec_peer_key(p, peer) <==> x
        == peer by {
        if spec_peer_key(p, x) == spec_peer_key(p, peer) {
            crate::keys::lemma_peer_key_injective(p, x, peer);
        }
    }
    assert(sync_region(t.remove(spec_peer_key(p, peer)), p) =~= sync_region(t, p).remove(peer));
}

/// What an exact prefix scan says about the change region: it is finite
/// and stores exactly the scanned values.
proof fn lemma_changes_scan(s: Seq<(Seq<u8>, Seq<u8>)>, t: Map<Seq<u8>, Seq<u8>>, p: Seq<u8>)
    requires
        forall|i: int|
            0 <= i < s.len() ==> t.contains_pair(#[trigger] s[i].0, s[i].1) && key_prefixed(
                s[i].0,
                p,
            ) && s[i].0.len() >= p.len() + 8,
        forall|k: Seq<u8>|
            t.contains_key(k) && key_prefixed(k, p) ==> exists|i: int|
                0 <= i < s.len() && (#[trigger] s[i]).0 == k,
        forall|i: int, j: int| 0 <= i < j < s.len() ==> (#[trigger] s[i]).0 != (#[trigger] s[j]).0,
    ensures
        changes_region(t, p).dom().finite(),
        stored_vals(changes_region(t, p)) == pair_vals(s).to_multiset(),
    decreases s.len(),
{
    broadcast use vstd::seq_lib::group_to_multiset_ensures;
    broadcast use vstd::multiset::group_multiset_axioms;

    if s.len() == 0 {
        assert forall|ak: ChangeKey| !changes_region(t, p).dom().contains(ak) by {
            lemma_change_key_shape(p, ak.0, ak.1);
            if t.contains_key(spec_change_key(p, ak.0, ak.1)) {
                assert(key_prefixed(spec_change_key(p, ak.0, ak.1), p));
            }
        }
        assert(changes_region(t, p) =~= Map::<ChangeKey, Seq<u8>>::empty());
        lemma_stored_empty::<ChangeKey, Seq<u8>>();
        assert(pair_vals(s) =~= Seq::<Seq<u8>>::empty());
    } else {
        let d = s.drop_last();
        let k0 = s.last().0;
        let v0 = s.last().1;
        let a = k0.subrange(p.len() as int, k0.len() - 8);
        let q = spec_be_val(k0.subrange(k0.len() - 8, k0.len() as int));
        lemma_key_decompose(k0, p);
        let t2 = t.remove(k0);
        assert forall|i: int|
            0 <= i < d.len() implies t2.contains_pair(#[trigger] d[i].0, d[i].1) && key_prefixed(
            d[i].0,
            p,
        ) && d[i].0.len() >= p.len() + 8 by {
            assert(s[i] == d[i]);
            assert(s[i].0 != k0);
        }
        assert forall|k: Seq<u8>| t2.contains_key(k) && key_prefixed(k, p) implies exists|i: int|
            0 <= i < d.len() && (#[trigger] d[i]).0 == k by {
            assert(t.contains_key(k));
            let i = choose|i: int| 0 <= i < s.len() && (#[trigger] s[i]).0 == k;
            assert(k != k0);
            assert(i < s.len() - 1);
            assert(d[i].0 == k);
        }
        lemma_changes_scan(d, t2, p);
        lemma_changes_region_remove(t, p, a, q);
        assert(changes_region(t2, p) == changes_region(t, p).remove((a, q)));
        assert(changes_region(t, p).dom().contains((a, q)));
        assert(changes_region(t, p)[(a, q)] == v0);
        assert(changes_region(t, p) =~= changes_region(t2, p).insert((a, q), v0));
        assert(!changes_region(t2, p).dom().contains((a, q)));
        lemma_stored_vals_insert(changes_region(t2, p), (a, q), v0);
        assert(pair_vals(s) =~= pair_vals(d).push(v0));
        assert(pair_vals(s).to_multiset() =~= pair_vals(d).to_multiset().insert(v0));
    }
}

/// What an exact prefix scan says about the sync region: it is finite and
/// stores exactly the scanned values.
proof fn lemma_sync_scan(s: Seq<(Seq<u8>, Seq<u8>)>, t: Map<Seq<u8>, Seq<u8>>, p: Seq<u8>)
    requires
        forall|i: int|
            0 <= i < s.len() ==> t.contains_pair(#[trigger] s[i].0, s[i].1) && key_prefixed(
                s[i].0,
                p,
            ),
        forall|k: Seq<u8>|
            t.contains_key(k) && key_prefixed(k, p) ==> exists|i: int|
                0 <= i < s.len() && (#[trigger] s[i]).0 == k,
        forall|i: int, j: int| 0 <= i < j < s.len() ==> (#[trigger] s[i]).0 != (#[trigger] s[j]).0,
    ensures
        sync_region(t, p).dom().finite(),
        stored_vals(sync_region(t, p)) == pair_vals(s).to_multiset(),
    decreases s.len(),
{
    broadcast use vstd::seq_lib::group_to_multiset_ensures;
    broadcast use vstd::multiset::group_multiset_axioms;

    if s.len() == 0 {
        assert forall|peer: Seq<u8>| !sync_region(t, p).dom().contains(peer) by {
            if t.contains_key(spec_peer_key(p, peer)) {
                assert(spec_peer_key(p, peer).take(p.len() as int) =~= p);
                assert(key_prefixed(spec_peer_key(p, peer), p));
            }
        }
        assert(sync_region(t, p) =~= Map::<Seq<u8>, Seq<u8>>::empty());
        lemma_stored_empty::<Seq<u8>, Seq<u8>>();
        assert(pair_vals(s) =~= Seq::<Seq<u8>>::empty());
    } else {
        let d = s.drop_last();
        let k0 = s.last().0;
        let v0 = s.last().1;
        let peer = k0.skip(p.len() as int);
        assert(k0 =~= spec_peer_key(p, peer));
        let t2 = t.remove(k0);
        assert forall|i: int|
            0 <= i < d.len() implies t2.contains_pair(#[trigger] d[i].0, d[i].1) && key_prefixed(
            d[i].0,
            p,
        ) by {
            assert(s[i] == d[i]);
            assert(s[i].0 != k0);
        }
        assert forall|k: Seq<u8>| t2.contains_key(k) && key_prefixed(k, p) implies exists|i: int|
            0 <= i < d.len() && (#[trigger] d[i]).0 == k by {
            assert(t.contains_key(k));
            let i = choose|i: int| 0 <= i < s.len() && (#[trigger] s[i]).0 == k;
            assert(k != k0);
            assert(i < s.len() - 1);
            assert(d[i].0 == k);
        }
        lemma_sync_scan(d, t2, p);
        lemma_sync_region_remove(t, p, peer);
        assert(sync_region(t2, p) == sync_region(t, p).remove(peer));
        assert(sync_region(t, p).dom().contains(peer));
        assert(sync_region(t, p)[peer] == v0);
        assert(sync_region(t, p) =~= sync_region(t2, p).insert(peer, v0));
        assert(!sync_region(t2, p).dom().contains(peer));
        lemma_stored_vals_insert(sync_region(t2, p), peer, v0);
        assert(pair_vals(s) =~= pair_vals(d).push(v0));
        assert(pair_vals(s).to_multiset() =~= pair_vals(d).to_multiset().insert(v0));
    }
}

/// The persister that stores changes, the document and sync states in three
/// sled trees, under an optional namespace prefix.
pub struct SledPersister {
    changes_tree: sled::Tree,
    document_tree: sled::Tree,
    sync_states_tree: sled::Tree,
    prefix: Vec<u8>,
    sizes: StoredSizes,
}

impl View for SledPersister {
    type V = PersisterView;

    closed spec fn view(&self) -> PersisterView {
        PersisterView {
            changes: changes_region(tree_entries(self.changes_tree), self.prefix@),
            document: tree_entries(self.document_tree).index_opt(self.prefix@),
            sync_states: sync_region(tree_entries(self.sync_states_tree), self.prefix@),
            sizes: self.sizes,
        }
    }
}

impl SledPersister {
    /// Construct a persister over three trees, scanning existing storage to
    /// heal the running size counters. The byte bounds are machine limits:
    /// the counters are 64-bit. Fails if the changes tree holds a key under
    /// this prefix that this layer cannot have written.
    pub fn new(
        changes_tree: sled::Tree,
        document_tree: sled::Tree,
        sync_states_tree: sled::Tree,
        prefix: Vec<u8>,
    ) -> (r: Result<Self, SledPersisterError>)
        requires
            stored_bytes(changes_region(tree_entries(changes_tree), prefix@)) <= u64::MAX,
            stored_bytes(sync_region(tree_entries(sync_states_tree), prefix@)) <= u64::MAX,
        ensures
            r matches Ok(p) ==> p.inv() && p@.changes == changes_region(
                tree_entries(changes_tree),
                prefix@,
            ) && p@.document == tree_entries(document_tree).index_opt(prefix@) && p@.sync_states
                == sync_region(tree_entries(sync_states_tree), prefix@) && p@.sizes.changes
                == stored_bytes(p@.changes) && p@.sizes.document == doc_bytes(p@.document)
                && p@.sizes.sync_states == stored_bytes(p@.sync_states),
            !wf_change_keys(tree_entries(changes_tree), prefix@) ==> r matches Err(_),
    {
        let scanned = match kv_scan_prefix(&changes_tree, prefix.as_slice()) {
            Ok(v) => v,
            Err(e) => {
                return Err(SledPersisterError::SledError(e));
            },
        };
        let ghost sdv = scanned.deep_view();
        // every scanned key must be long enough to carry a sequence number
        let mut i: usize = 0;
        while i < scanned.len()
            invariant
                i <= scanned@.len(),
                sdv == scanned.deep_view(),
                sdv.len() == scanned@.len(),
                forall|j: int| 0 <= j < i ==> (#[trigger] sdv[j]).0.len() >= prefix@.len() + 8,
            decreases scanned@.len() - i,
        {
            let klen = scanned[i].0.len();
            proof {
                lemma_bytes_deep_view(scanned@[i as int].0);
            }
            if klen < 8 || klen - 8 < prefix.len() {
                return Err(SledPersisterError::InvalidChangeKey);
            }
            i = i + 1;
        }
        proof {
            lemma_changes_scan(sdv, tree_entries(changes_tree), prefix@);
            lemma_multiset_bytes_of_seq(pair_vals(sdv));
            assert forall|k: Seq<u8>|
                tree_entries(changes_tree).contains_key(k) && key_prefixed(
                    k,
                    prefix@,
                ) implies k.len() >= prefix@.len() + 8 by {
                let j = choose|j: int| 0 <= j < sdv.len() && (#[trigger] sdv[j]).0 == k;
            }
        }
        // total the scanned change bytes
        let mut changes_total: u64 = 0;
        let mut i: usize = 0;
        while i < scanned.len()
            invariant
                i <= scanned@.len(),
                sdv == scanned.deep_view(),
                sdv.len() == scanned@.len(),
                changes_total == blob_seq_bytes(pair_vals(sdv).take(i as int)),
                blob_seq_bytes(pair_vals(sdv)) <= u64::MAX,
            decreases scanned@.len() - i,
        {
            proof {
                lemma_bytes_deep_view(scanned@[i as int].1);
                lemma_blob_seq_bytes_split(pair_vals(sdv), i + 1);
                lemma_blob_seq_bytes_split(pair_vals(sdv), i as int);
                assert(pair_vals(sdv).take(i + 1) =~= pair_vals(sdv).take(i as int).push(
                    pair_vals(sdv)[i as int],
                ));
                lemma_blob_seq_bytes_push(pair_vals(sdv).take(i as int), pair_vals(sdv)[i as int]);
            }
            changes_total = changes_total + scanned[i].1.len() as u64;
            i = i + 1;
        }
        proof {
            assert(pair_vals(sdv).take(sdv.len() as int) =~= pair_vals(sdv));
        }
        // the document's stored size, treating "absent" as zero bytes
        let document_total: u64 = match kv_get(&document_tree, prefix.as_slice()) {
            Ok(Some(v)) => {
                proof {
                    lemma_bytes_deep_view(v);
                }
                v.len() as u64
            },
            Ok(None) => 0,
            Err(e) => {
                return Err(SledPersisterError::SledError(e));
            },
        };
        // total the scanned sync-state bytes
        let sync_scanned = match kv_scan_prefix(&sync_states_tree, prefix.as_slice()) {
            Ok(v) => v,
            Err(e) => {
                return Err(SledPersisterError::SledError(e));
            },
        };
        let ghost ydv = sync_scanned.deep_view();
        proof {
            lemma_sync_scan(ydv, tree_entries(sync_states_tree), prefix@);
            lemma_multiset_bytes_of_seq(pair_vals(ydv));
        }
        let mut sync_total: u64 = 0;
        let mut i: usize = 0;
        while i < sync_scanned.len()
            invariant
                i <= sync_scanned@.len(),
                ydv == sync_scanned.deep_view(),
                ydv.len() == sync_scanned@.len(),
                sync_total == blob_seq_bytes(pair_vals(ydv).take(i as int)),
                blob_seq_bytes(pair_vals(ydv)) <= u64::MAX,
            decreases sync_scanned@.len() - i,
        {
            proof {
                lemma_bytes_deep_view(sync_scanned@[i as int].1);
                lemma_blob_seq_bytes_split(pair_vals(ydv), i + 1);
                lemma_blob_seq_bytes_split(pair_vals(ydv), i as int);
                assert(pair_vals(ydv).take(i + 1) =~= pair_vals(ydv).take(i as int).push(
                    pair_vals(ydv)[i as int],
                ));
                lemma_blob_seq_bytes_push(pair_vals(ydv).take(i as int), pair_vals(ydv)[i as int]);
            }
            sync_total = sync_total + sync_scanned[i].1.len() as u64;
            i = i + 1;
        }
        proof {
            assert(pair_vals(ydv).take(ydv.len() as int) =~= pair_vals(ydv));
        }
        Ok(
            SledPersister {
                changes_tree,
                document_tree,
                sync_states_tree,
                prefix,
                sizes: StoredSizes {
                    changes: changes_total,
                    document: document_total,
                    sync_states: sync_total,
                },
            },
        )
    }
}

impl Persister for SledPersister {
    type Error = SledPersisterError;

    closed spec fn inv(&self) -> bool {
        &&& self@.changes.dom().finite()
        &&& self@.sync_states.dom().finite()
        &&& wf_change_keys(tree_entries(self.changes_tree), self.prefix@)
        &&& self.sizes.changes == stored_bytes(self@.changes)
        &&& self.sizes.document == doc_bytes(self@.document)
        &&& self.sizes.sync_states == stored_bytes(self@.sync_states)
    }

    proof fn lemma_inv(&self) {
    }

    fn get_changes(&self) -> (r: Result<Vec<Vec<u8>>, Self::Error>) {
        let scanned = match kv_scan_prefix(&self.changes_tree, self.prefix.as_slice()) {
            Ok(v) => v,
            Err(e) => {
                return Err(SledPersisterError::SledError(e));
            },
        };
        let ghost sdv = scanned.deep_view();
        proof {
            lemma_changes_scan(sdv, tree_entries(self.changes_tree), self.prefix@);
        }
        let mut out: Vec<Vec<u8>> = Vec::new();
        proof {
            assert(out.deep_view() =~= pair_vals(sdv).take(0));
        }
        let mut i: usize = 0;
        while i < scanned.len()
            invariant
                i <= scanned@.len(),
                sdv == scanned.deep_view(),
                sdv.len() == scanned@.len(),
                out.deep_view() == pair_vals(sdv).take(i as int),
            decreases scanned@.len() - i,
        {
            let v = clone_bytes(scanned[i].1.as_slice());
            proof {
                lemma_bytes_deep_view(scanned@[i as int].1);
                assert(v.deep_view() =~= v@);
            }
            out.push(v);
            proof {
                assert(out.deep_view() =~= pair_vals(sdv).take(i as int).push(
                    pair_vals(sdv)[i as int],
                ));
                assert(pair_vals(sdv).take(i + 1) =~= pair_vals(sdv).take(i as int).push(
                    pair_vals(sdv)[i as int],
                ));
            }
            i = i + 1;
        }
        proof {
            assert(pair_vals(sdv).take(sdv.len() as int) =~= pair_vals(sdv));
        }
        Ok(out)
    }

    fn insert_changes(&mut self, changes: Vec<(Vec<u8>, u64, Vec<u8>)>) -> (r: Result<
        (),
        Self::Error,
    >) {
        let ghost orig = self@.changes;
        let ghost batch = changes.deep_view();
        proof {
            assert(batch.take(0) =~= Seq::<crate::model::ChangeRecord>::empty());
            assert(batch.skip(0) =~= batch);
        }
        let mut i: usize = 0;
        while i < changes.len()
            invariant
                i <= changes@.len(),
                batch == changes.deep_view(),
                batch.len() == changes@.len(),
                self@.changes == crate::model::upsert_changes(orig, batch.take(i as int)),
                self@.changes.dom().finite(),
                wf_change_keys(tree_entries(self.changes_tree), self.prefix@),
                self.sizes.changes == stored_bytes(self@.changes),
                stored_bytes(self@.changes) + batch_bytes(batch.skip(i as int)) <= u64::MAX,
                self.document_tree == old(self).document_tree,
                self.sync_states_tree == old(self).sync_states_tree,
                self.prefix == old(self).prefix,
                self.sizes.document == old(self).sizes.document,
                self.sizes.sync_states == old(self).sizes.sync_states,
                self@.sync_states.dom().finite(),
                self.sizes.document == doc_bytes(self@.document),
                self.sizes.sync_states == stored_bytes(self@.sync_states),
            decreases changes@.len() - i,
        {
            let ghost pre = self@.changes;
            let ghost pre_tree = tree_entries(self.changes_tree);
            let e = &changes[i];
            let d = clone_bytes(e.2.as_slice());
            let new_len: u64 = d.len() as u64;
            let sn = e.1;
            let key = change_key(self.prefix.as_slice(), e.0.as_slice(), sn);
            let ghost rec = batch[i as int];
            proof {
                lemma_bytes_deep_view(changes@[i as int].0);
                lemma_bytes_deep_view(changes@[i as int].2);
                assert(rec == ((e.0@, sn, d@)));
                assert(batch.skip(i as int)[0] == rec);
                assert(batch.skip(i as int).drop_first() =~= batch.skip(i + 1));
                assert(batch_bytes(batch.skip(i as int)) == rec.2.len() + batch_bytes(
                    batch.skip(i + 1),
                ));
                lemma_upsert_bytes(pre, (rec.0, rec.1), rec.2);
            }
            let prev = match kv_insert(&mut self.changes_tree, key, d) {
                Ok(p) => p,
                Err(er) => {
                    return Err(SledPersisterError::SledError(er));
                },
            };
            let old_len: u64 = match &prev {
                Some(v) => v.len() as u64,
                None => 0,
            };
            proof {
                lemma_changes_region_insert(pre_tree, self.prefix@, rec.0, rec.1, rec.2);
                lemma_change_key_shape(self.prefix@, rec.0, rec.1);
                assert forall|k: Seq<u8>|
                    tree_entries(self.changes_tree).contains_key(k) && #[trigger] key_prefixed(
                        k,
                        self.prefix@,
                    ) implies k.len() >= self.prefix@.len() + 8 by {
                    if k != spec_change_key(self.prefix@, rec.0, rec.1) {
                        assert(pre_tree.contains_key(k));
                    }
                }
                match prev {
                    Some(v) => {
                        lemma_bytes_deep_view(v);
                        assert(pre.dom().contains((rec.0, rec.1)));
                        assert(pre[(rec.0, rec.1)] == v@);
                    },
                    None => {
                        assert(!pre.dom().contains((rec.0, rec.1)));
                    },
                }
                lemma_upsert_changes_push(orig, batch.take(i as int), rec);
                assert(batch.take(i + 1) =~= batch.take(i as int).push(rec));
            }
            self.sizes.changes = self.sizes.changes - old_len + new_len;
            i = i + 1;
        }
        proof {
            assert(batch.take(changes@.len() as int) =~= batch);
            assert(batch.skip(changes@.len() as int) =~= Seq::<crate::model::ChangeRecord>::empty());
        }
        Ok(())
    }

    fn remove_changes(&mut self, changes: Vec<(Vec<u8>, u64)>) -> (r: Result<(), Self::Error>) {
        let ghost orig = self@.changes;
        let ghost ks = changes.deep_view();
        proof {
            assert(ks.take(0) =~= Seq::<crate::model::ChangeKey>::empty());
        }
        let mut i: usize = 0;
        while i < changes.len()
            invariant
                i <= changes@.len(),
                ks == changes.deep_view(),
                ks.len() == changes@.len(),
                self@.changes == crate::model::remove_keys_seq(orig, ks.take(i as int)),
                self@.changes.dom().finite(),
                wf_change_keys(tree_entries(self.changes_tree), self.prefix@),
                self.sizes.changes == stored_bytes(self@.changes),
                self.document_tree == old(self).document_tree,
                self.sync_states_tree == old(self).sync_states_tree,
                self.prefix == old(self).prefix,
                self.sizes.document == old(self).sizes.document,
                self.sizes.sync_states == old(self).sizes.sync_states,
                self@.sync_states.dom().finite(),
                self.sizes.document == doc_bytes(self@.document),
                self.sizes.sync_states == stored_bytes(self@.sync_states),
            decreases changes@.len() - i,
        {
            let ghost pre = self@.changes;
            let ghost pre_tree = tree_entries(self.changes_tree);
            let e = &changes[i];
            let key = change_key(self.prefix.as_slice(), e.0.as_slice(), e.1);
            let ghost k = ks[i as int];
            proof {
                lemma_bytes_deep_view(changes@[i as int].0);
                assert(k == ((e.0@, e.1)));
                lemma_remove_bytes(pre, k);
            }
            let prev = match kv_remove(&mut self.changes_tree, key.as_slice()) {
                Ok(p) => p,
                Err(er) => {
                    return Err(SledPersisterError::SledError(er));
                },
            };
            let old_len: u64 = match &prev {
                Some(v) => v.len() as u64,
                None => 0,
            };
            proof {
                lemma_changes_region_remove(pre_tree, self.prefix@, k.0, k.1);
                assert forall|kk: Seq<u8>|
                    tree_entries(self.changes_tree).contains_key(kk) && #[trigger] key_prefixed(
                        kk,
                        self.prefix@,
                    ) implies kk.len() >= self.prefix@.len() + 8 by {
                    assert(pre_tree.contains_key(kk));
                }
                match prev {
                    Some(v) => {
                        lemma_bytes_deep_view(v);
                        assert(pre.dom().contains(k));
                        assert(pre[k] == v@);
                    },
                    None => {
                        assert(!pre.dom().contains(k));
                    },
                }
                lemma_remove_keys_seq_push(orig, ks.take(i as int), k);
                assert(ks.take(i + 1) =~= ks.take(i as int).push(k));
            }
            self.sizes.changes = self.sizes.changes - old_len;
            i = i + 1;
        }
        proof {
            assert(ks.take(changes@.len() as int) =~= ks);
        }
        Ok(())
    }

    fn get_document(&self) -> (r: Result<Option<Vec<u8>>, Self::Error>) {
        match kv_get(&self.document_tree, self.prefix.as_slice()) {
            Ok(None) => Ok(None),
            Ok(Some(v)) => {
                if v.len() == 0 {
                    Ok(None)
                } else {
                    proof {
                        lemma_bytes_deep_view(v);
                    }
                    Ok(Some(v))
                }
            },
            Err(e) => Err(SledPersisterError::SledError(e)),
        }
    }

    fn set_document(&mut self, data: Vec<u8>) -> (r: Result<(), Self::Error>) {
        let new_len: u64 = data.len() as u64;
        let key = clone_bytes(self.prefix.as_slice());
        let ghost pre_tree = tree_entries(self.document_tree);
        match kv_insert(&mut self.document_tree, key, data) {
            Ok(_) => {
                self.sizes.document = new_len;
                proof {
                    assert(tree_entries(self.document_tree).index_opt(self.prefix@) matches Some(_));
                }
                Ok(())
            },
            Err(e) => Err(SledPersisterError::SledError(e)),
        }
    }

    fn get_sync_state(&self, peer_id: &[u8]) -> (r: Result<Option<Vec<u8>>, Self::Error>) {
        let key = peer_key(self.prefix.as_slice(), peer_id);
        match kv_get(&self.sync_states_tree, key.as_slice()) {
            Ok(v) => {
                proof {
                    match &v {
                        Some(b) => lemma_bytes_deep_view(*b),
                        None => (),
                    }
                }
                Ok(v)
            },
            Err(e) => Err(SledPersisterError::SledError(e)),
        }
    }

    fn set_sync_state(&mut self, peer_id: Vec<u8>, sync_state: Vec<u8>) -> (r: Result<
        (),
        Self::Error,
    >) {
        let ghost pre = self@.sync_states;
        let ghost pre_tree = tree_entries(self.sync_states_tree);
        let new_len: u64 = sync_state.len() as u64;
        let key = peer_key(self.prefix.as_slice(), peer_id.as_slice());
        proof {
            lemma_upsert_bytes(pre, peer_id@, sync_state@);
        }
        let prev = match kv_insert(&mut self.sync_states_tree, key, sync_state) {
            Ok(p) => p,
            Err(e) => {
                return Err(SledPersisterError::SledError(e));
            },
        };
        let old_len: u64 = match &prev {
            Some(v) => v.len() as u64,
            None => 0,
        };
        proof {
            lemma_sync_region_insert(pre_tree, self.prefix@, peer_id@, sync_state@);
            match prev {
                Some(v) => {
                    lemma_bytes_deep_view(v);
                    assert(pre.dom().contains(peer_id@));
                    assert(pre[peer_id@] == v@);
                },
                None => {
                    assert(!pre.dom().contains(peer_id@));
                },
            }
        }
        self.sizes.sync_states = self.sizes.sync_states - old_len + new_len;
        Ok(())
    }

    fn remove_sync_states(&mut self, peer_ids: &[Vec<u8>]) -> (r: Result<(), Self::Error>) {
        let ghost orig = self@.sync_states;
        let ghost ks = peer_ids.deep_view();
        proof {
            assert(ks.take(0) =~= Seq::<Seq<u8>>::empty());
        }
        let mut i: usize = 0;
        while i < peer_ids.len()
            invariant
                i <= peer_ids@.len(),
                ks == peer_ids.deep_view(),
                ks.len() == peer_ids@.len(),
                self@.sync_states == crate::model::remove_keys_seq(orig, ks.take(i as int)),
                self@.sync_states.dom().finite(),
                self.sizes.sync_states == stored_bytes(self@.sync_states),
                self.document_tree == old(self).document_tree,
                self.changes_tree == old(self).changes_tree,
                self.prefix == old(self).prefix,
                self.sizes.document == old(self).sizes.document,
                self.sizes.changes == old(self).sizes.changes,
                self@.changes.dom().finite(),
                wf_change_keys(tree_entries(self.changes_tree), self.prefix@),
                self.sizes.changes == stored_bytes(self@.changes),
                self.sizes.document == doc_bytes(self@.document),
            decreases peer_ids@.len() - i,
        {
            let ghost pre = self@.sync_states;
            let ghost pre_tree = tree_entries(self.sync_states_tree);
            let key = peer_key(self.prefix.as_slice(), peer_ids[i].as_slice());
            let ghost k = ks[i as int];
            proof {
                lemma_bytes_deep_view(peer_ids@[i as int]);
                assert(k == peer_ids@[i as int]@);
                lemma_remove_bytes(pre, k);
            }
            let prev = match kv_remove(&mut self.sync_states_tree, key.as_slice()) {
                Ok(p) => p,
                Err(er) => {
                    return Err(SledPersisterError::SledError(er));
                },
            };
            let old_len: u64 = match &prev {
                Some(v) => v.len() as u64,
                None => 0,
            };
            proof {
                lemma_sync_region_remove(pre_tree, self.prefix@, k);
                match prev {
                    Some(v) => {
                        lemma_bytes_deep_view(v);
                        assert(pre.dom().contains(k));
                        assert(pre[k] == v@);
                    },
                    None => {
                        assert(!pre.dom().contains(k));
                    },
                }
                lemma_remove_keys_seq_push(orig, ks.take(i as int), k);
                assert(ks.take(i + 1) =~= ks.take(i as int).push(k));
            }
            self.sizes.sync_states = self.sizes.sync_states - old_len;
            i = i + 1;
        }
        proof {
            assert(ks.take(peer_ids@.len() as int) =~= ks);
        }
        Ok(())
    }

    fn get_peer_ids(&self) -> (r: Result<Vec<Vec<u8>>, Self::Error>) {
        let scanned = match kv_scan_prefix(&self.sync_states_tree, self.prefix.as_slice()) {
            Ok(v) => v,
            Err(e) => {
                return Err(SledPersisterError::SledError(e));
            },
        };
        let ghost sdv = scanned.deep_view();
        let ghost p = self.prefix@;
        proof {
            assert forall|j: int| 0 <= j < sdv.len() implies key_prefixed(
                (#[trigger] sdv[j]).0,
                p,
            ) by {
                assert(tree_entries(self.sync_states_tree).contains_pair(sdv[j].0, sdv[j].1)
                    && key_prefixed(sdv[j].0, p));
            }
        }
        let mut out: Vec<Vec<u8>> = Vec::new();
        let mut i: usize = 0;
        while i < scanned.len()
            invariant
                i <= scanned@.len(),
                sdv == scanned.deep_view(),
                sdv.len() == scanned@.len(),
                p == self.prefix@,
                forall|j: int| 0 <= j < sdv.len() ==> key_prefixed((#[trigger] sdv[j]).0, p),
                out@.len() == i,
                forall|j: int| 0 <= j < i ==> #[trigger] out@[j]@ == sdv[j].0.skip(p.len() as int),
            decreases scanned@.len() - i,
        {
            proof {
                lemma_bytes_deep_view(scanned@[i as int].0);
                assert(key_prefixed(sdv[i as int].0, p));
            }
            let stripped = skip_bytes(scanned[i].0.as_slice(), self.prefix.len());
            out.push(stripped);
            i = i + 1;
        }
        proof {
            let dv = out.deep_view();
            assert(dv.len() == out@.len());
            assert forall|j: int| 0 <= j < dv.len() implies dv[j] == sdv[j].0.skip(p.len() as int) by {
                lemma_bytes_deep_view(out@[j]);
            }
            assert forall|j: int| 0 <= j < dv.len() implies sdv[j].0 == spec_peer_key(p, dv[j]) by {
                assert(sdv[j].0 =~= p + sdv[j].0.skip(p.len() as int));
            }
            assert forall|x: int, y: int| 0 <= x < y < dv.len() implies dv[x] != dv[y] by {
                if dv[x] == dv[y] {
                    assert(sdv[x].0 == sdv[y].0);
                }
            }
            assert(dv.no_duplicates());
            assert forall|peer: Seq<u8>|
                dv.contains(peer) <==> self@.sync_states.dom().contains(peer) by {
                if dv.contains(peer) {
                    let j = choose|j: int| 0 <= j < dv.len() && dv[j] == peer;
                    assert(tree_entries(self.sync_states_tree).contains_pair(sdv[j].0, sdv[j].1));
                    assert(sdv[j].0 == spec_peer_key(p, peer));
                }
                if self@.sync_states.dom().contains(peer) {
                    let k = spec_peer_key(p, peer);
                    assert(tree_entries(self.sync_states_tree).contains_key(k));
                    assert(k.take(p.len() as int) =~= p);
                    assert(key_prefixed(k, p));
                    let j = choose|j: int| 0 <= j < sdv.len() && (#[trigger] sdv[j]).0 == k;
                    assert(dv[j] == k.skip(p.len() as int));
                    assert(k.skip(p.len() as int) =~= peer);
                    assert(dv.contains(peer));
                }
            }
            assert(dv.to_set() =~= self@.sync_states.dom());
        }
        Ok(out)
    }

    fn sizes(&self) -> (s: StoredSizes) {
        self.sizes
    }

    fn flush(&mut self) -> (r: Result<usize, Self::Error>) {
        let a = match kv_flush(&mut self.changes_tree) {
            Ok(n) => n,
            Err(e) => {
                return Err(SledPersisterError::SledError(e));
            },
        };
        let b = match kv_flush(&mut self.document_tree) {
            Ok(n) => n,
            Err(e) => {
                return Err(SledPersisterError::SledError(e));
            },
        };
        let c = match kv_flush(&mut self.sync_states_tree) {
            Ok(n) => n,
            Err(e) => {
                return Err(SledPersisterError::SledError(e));
            },
        };
        let ab = if a <= usize::MAX - b {
            a + b
        } else {
            usize::MAX
        };
        let abc = if ab <= usize::MAX - c {
            ab + c
        } else {
            usize::MAX
        };
        Ok(abc)
    }
}

} // verus!
