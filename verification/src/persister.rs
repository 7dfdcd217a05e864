//! The storage contract every backend satisfies.
//!
//! A persister stores three logical regions durably: the change records
//! (keyed by actor and sequence number), at most one document snapshot, and
//! one sync-state blob per peer. It also keeps a running total of the bytes
//! each region occupies, so a caller can decide when to compact without
//! rescanning storage.

use vstd::prelude::*;

verus! {

use crate::model::{ChangeKey, batch_bytes, doc_bytes, norm_doc, remove_keys_seq, stored_bytes,
    stored_vals, upsert_changes};
use crate::sizes::StoredSizes;

/// The abstract state of a persister: the three stored regions and the
/// running size counters.
pub struct PersisterView {
    /// The stored change records, keyed by (actor, sequence number).
    pub changes: Map<ChangeKey, Seq<u8>>,
    /// The stored document snapshot, exactly as last written.
    pub document: Option<Seq<u8>>,
    /// The stored sync states, keyed by peer identifier.
    pub sync_states: Map<Seq<u8>, Seq<u8>>,
    /// The running byte totals of the three regions.
    pub sizes: StoredSizes,
}

/// Durable key-value storage for change records, a document snapshot and
/// per-peer sync states.
///
/// Every operation may fail with a backend-specific error; an operation
/// that returns an error makes no promise about the stored state, and the
/// persister should then be discarded or reloaded. The running size
/// counters are self-healing: a constructor recomputes them by scanning
/// existing storage, so `sizes` is accurate immediately after a restart
/// without a persisted counter.
pub trait Persister: View<V = PersisterView> + Sized {
    /// The backend-specific error type.
    type Error;

    /// The backend's internal invariant: its counters agree with its
    /// storage and its view is well-formed.
    spec fn inv(&self) -> bool;

    /// The invariant keeps the size counters exactly equal to the bytes
    /// the regions store, and the regions finite.
    proof fn lemma_inv(&self)
        requires
            self.inv(),
        ensures
            self@.changes.dom().finite(),
            self@.sync_states.dom().finite(),
            self@.sizes.changes == stored_bytes(self@.changes),
            self@.sizes.document == doc_bytes(self@.document),
            self@.sizes.sync_states == stored_bytes(self@.sync_states),
    ;

    /// Returns every stored change blob; the order is unspecified, so the
    /// result is pinned as a multiset.
    fn get_changes(&self) -> (r: Result<Vec<Vec<u8>>, Self::Error>)
        requires
            self.inv(),
        ensures
            r matches Ok(v) ==> v.deep_view().to_multiset() == stored_vals(self@.changes),
    ;

    /// Upserts each record at its (actor, sequence number) key, in order.
    /// Inserting at an existing key overwrites it and never fails for that
    /// reason. The byte bound is a machine limit: the counters are 64-bit.
    fn insert_changes(&mut self, changes: Vec<(Vec<u8>, u64, Vec<u8>)>) -> (r: Result<
        (),
        Self::Error,
    >)
        requires
            old(self).inv(),
            stored_bytes(old(self)@.changes) + batch_bytes(changes.deep_view()) <= u64::MAX,
        ensures
            r matches Ok(()) ==> final(self).inv() && final(self)@.changes == upsert_changes(
                old(self)@.changes,
                changes.deep_view(),
            ) && final(self)@.document == old(self)@.document && final(self)@.sync_states == old(self)@.sync_states,
    ;

    /// Deletes the records at the given keys; deleting an absent key is not
    /// an error and changes nothing.
    fn remove_changes(&mut self, changes: Vec<(Vec<u8>, u64)>) -> (r: Result<(), Self::Error>)
        requires
            old(self).inv(),
        ensures
            r matches Ok(()) ==> final(self).inv() && final(self)@.changes == remove_keys_seq(
                old(self)@.changes,
                changes.deep_view(),
            ) && final(self)@.document == old(self)@.document && final(self)@.sync_states == old(self)@.sync_states,
    ;

    /// Returns the stored document snapshot. A zero-length stored value
    /// means "no document", distinguishing "never set" from "set to empty".
    fn get_document(&self) -> (r: Result<Option<Vec<u8>>, Self::Error>)
        requires
            self.inv(),
        ensures
            r matches Ok(d) ==> d.deep_view() == norm_doc(self@.document),
    ;

    /// Overwrites the singleton document snapshot; the document size
    /// counter is replaced, not accumulated.
    fn set_document(&mut self, data: Vec<u8>) -> (r: Result<(), Self::Error>)
        requires
            old(self).inv(),
        ensures
            r matches Ok(()) ==> final(self).inv() && final(self)@.document == Some(data@) && final(self)@.changes == old(self)@.changes && final(self)@.sync_states == old(self)@.sync_states,
    ;

    /// Returns the sync state stored for exactly this peer, if any.
    fn get_sync_state(&self, peer_id: &[u8]) -> (r: Result<Option<Vec<u8>>, Self::Error>)
        requires
            self.inv(),
        ensures
            r matches Ok(d) ==> d.deep_view() == self@.sync_states.index_opt(peer_id@),
    ;

    /// Stores the sync state for one peer, overwriting any previous state
    /// for that peer and no other. The byte bound is a machine limit.
    fn set_sync_state(&mut self, peer_id: Vec<u8>, sync_state: Vec<u8>) -> (r: Result<
        (),
        Self::Error,
    >)
        requires
            old(self).inv(),
            stored_bytes(old(self)@.sync_states) + sync_state@.len() <= u64::MAX,
        ensures
            r matches Ok(()) ==> final(self).inv() && final(self)@.sync_states == old(self)@.sync_states.insert(peer_id@, sync_state@) && final(self)@.changes == old(self)@.changes && final(self)@.document == old(self)@.document,
    ;

    /// Deletes the sync states of the given peers; deleting an absent peer
    /// is not an error and changes nothing.
    fn remove_sync_states(&mut self, peer_ids: &[Vec<u8>]) -> (r: Result<(), Self::Error>)
        requires
            old(self).inv(),
        ensures
            r matches Ok(()) ==> final(self).inv() && final(self)@.sync_states == remove_keys_seq(
                old(self)@.sync_states,
                peer_ids.deep_view(),
            ) && final(self)@.changes == old(self)@.changes && final(self)@.document == old(self)@.document,
    ;

    /// Returns exactly the peers with a currently stored sync state, each
    /// once.
    fn get_peer_ids(&self) -> (r: Result<Vec<Vec<u8>>, Self::Error>)
        requires
            self.inv(),
        ensures
            r matches Ok(v) ==> v.deep_view().no_duplicates() && v.deep_view().to_set()
                == self@.sync_states.dom(),
    ;

    /// The running byte totals, read in constant time, not by a rescan.
    fn sizes(&self) -> (s: StoredSizes)
        requires
            self.inv(),
        ensures
            s == self@.sizes,
    ;

    /// Forces buffered writes out to the storage medium, returning how many
    /// bytes were written; the stored state is unchanged.
    fn flush(&mut self) -> (r: Result<usize, Self::Error>)
        requires
            old(self).inv(),
        ensures
            r matches Ok(_) ==> final(self).inv() && final(self)@ == old(self)@,
    ;
}

} // verus!
