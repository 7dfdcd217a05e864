//! A persistent document over the engine's explicit-transaction handle.
//!
//! Where [`crate::autocommit::PersistentAutoCommit`] defers persistence to
//! a watermark, this wrapper persists eagerly: every operation that can
//! produce changes diffs the document's heads around the work and writes
//! exactly the new records out before returning.

use vstd::prelude::*;

verus! {

use crate::autocommit::{DocumentError, batch_total, cache_distinct, cache_has, cache_put,
    cache_take, changes_only_upserted};
use crate::engine::{change_record, doc_apply_changes, doc_generate_sync_message, doc_get_changes,
    doc_get_heads, doc_load, doc_new, doc_receive_sync_message, doc_save, change_from_bytes,
    sync_state_decode, sync_state_encode, sync_state_new, with_automerge};
use crate::keys::{clone_bytes, lemma_bytes_deep_view};
use crate::model::{remove_keys_seq, upsert_changes, lemma_remove_keys_seq_submap};
use crate::persister::Persister;

/// Errors a transaction on a persistent document can return: either the
/// caller's own closure failed, or persisting its changes did.
#[derive(Debug)]
pub enum TransactionError<PE, E> {
    /// An error from the persister.
    PersisterError(PE),
    /// The error the caller's closure returned.
    TransactionError(E),
    /// Storing the produced changes would overflow the 64-bit size
    /// counters.
    SizeLimitExceeded,
}

/// A wrapper binding one automerge document to one persister, persisting
/// every operation's new changes before it returns.
pub struct PersistentAutomerge<P: Persister> {
    document: automerge::Automerge,
    sync_states: Vec<(Vec<u8>, automerge::sync::State)>,
    persister: P,
}

impl<P: Persister> PersistentAutomerge<P> {
    /// The wrapper's invariant: the persister's own invariant holds and the
    /// sync-state cache holds each peer at most once.
    pub closed spec fn inv(self) -> bool {
        &&& self.persister.inv()
        &&& cache_distinct(self.sync_states@)
    }

    /// The persister's abstract stored state.
    pub closed spec fn store(self) -> crate::persister::PersisterView {
        self.persister@
    }

    /// Loads the persisted document: reads the snapshot (if any) into a
    /// fresh engine, then applies every stored change; the engine orders
    /// them by its own dependency graph. Reading changes nothing in
    /// storage.
    pub fn load(persister: P) -> (r: Result<Self, DocumentError<P::Error>>)
        requires
            persister.inv(),
        ensures
            r matches Ok(d) ==> d.inv() && d.store() == persister@,
    {
        let stored_doc = match persister.get_document() {
            Ok(v) => v,
            Err(e) => {
                return Err(DocumentError::PersisterError(e));
            },
        };
        let mut doc = match stored_doc {
            Some(b) => match doc_load(b.as_slice()) {
                Ok(d) => d,
                Err(e) => {
                    return Err(DocumentError::AutomergeError(e));
                },
            },
            None => doc_new(),
        };
        let blobs = match persister.get_changes() {
            Ok(v) => v,
            Err(e) => {
                return Err(DocumentError::PersisterError(e));
            },
        };
        let mut changes: Vec<automerge::Change> = Vec::new();
        let mut i: usize = 0;
        while i < blobs.len()
            decreases blobs@.len() - i,
        {
            let blob = clone_bytes(blobs[i].as_slice());
            match change_from_bytes(blob) {
                Ok(c) => changes.push(c),
                Err(e) => {
                    return Err(DocumentError::AutomergeLoadChangeError(e));
                },
            }
            i = i + 1;
        }
        match doc_apply_changes(&mut doc, changes) {
            Ok(()) => (),
            Err(e) => {
                return Err(DocumentError::AutomergeError(e));
            },
        }
        Ok(PersistentAutomerge { document: doc, sync_states: Vec::new(), persister })
    }

    /// The wrapped document.
    pub fn document(&self) -> &automerge::Automerge {
        &self.document
    }

    /// The wrapped document, mutably. Changes made through it directly are
    /// not persisted; prefer [`Self::transact`].
    pub fn document_mut(&mut self) -> (r: &mut automerge::Automerge)
        requires
            old(self).inv(),
        ensures
            final(self).inv(),
            final(self).store() == old(self).store(),
    {
        &mut self.document
    }

    /// Runs a closure over the document and immediately persists exactly
    /// the changes it produced, found by diffing the document's heads from
    /// before the closure ran. Only whole records are ever added; the
    /// document and sync regions stay untouched.
    pub fn transact<O, E, F: FnOnce(&mut automerge::Automerge) -> Result<O, E>>(
        &mut self,
        f: F,
    ) -> (r: Result<O, TransactionError<P::Error, E>>)
        requires
            old(self).inv(),
        ensures
            r matches Ok(_) ==> final(self).inv() && changes_only_upserted(
                old(self).store().changes,
                final(self).store().changes,
            ) && final(self).store().document == old(self).store().document && final(self).store().sync_states == old(self).store().sync_states,
            r matches Err(TransactionError::TransactionError(_)) ==> final(self).inv() && final(self).store() == old(self).store(),
            r matches Err(TransactionError::SizeLimitExceeded) ==> final(self).inv() && final(self).store() == old(self).store(),
    {
        let heads = doc_get_heads(&self.document);
        let out = match with_automerge(&mut self.document, f) {
            Ok(o) => o,
            Err(e) => {
                proof {
                    assert(self.store().changes == upsert_changes(
                        old(self).store().changes,
                        Seq::empty(),
                    ));
                }
                return Err(TransactionError::TransactionError(e));
            },
        };
        let batch = doc_get_changes(&self.document, &heads);
        let total = match batch_total(&batch) {
            Some(t) => t,
            None => {
                return Err(TransactionError::SizeLimitExceeded);
            },
        };
        let szs = self.persister.sizes();
        proof {
            self.persister.lemma_inv();
        }
        if szs.changes > u64::MAX - total {
            return Err(TransactionError::SizeLimitExceeded);
        }
        let ghost b = batch.deep_view();
        match self.persister.insert_changes(batch) {
            Ok(()) => (),
            Err(e) => {
                return Err(TransactionError::PersisterError(e));
            },
        }
        proof {
            assert(self.store().changes == upsert_changes(old(self).store().changes, b));
        }
        Ok(out)
    }

    /// Applies externally supplied changes to the document and persists
    /// exactly those records; they are already in hand, so no diffing is
    /// needed.
    pub fn apply_changes(&mut self, changes: Vec<automerge::Change>) -> (r: Result<
        (),
        DocumentError<P::Error>,
    >)
        requires
            old(self).inv(),
        ensures
            r matches Ok(()) ==> final(self).inv() && changes_only_upserted(
                old(self).store().changes,
                final(self).store().changes,
            ) && final(self).store().document == old(self).store().document && final(self).store().sync_states == old(self).store().sync_states,
            (r matches Err(DocumentError::AutomergeError(_)) || r matches Err(
                DocumentError::SizeLimitExceeded,
            )) ==> final(self).inv() && final(self).store() == old(self).store(),
    {
        let mut batch: Vec<(Vec<u8>, u64, Vec<u8>)> = Vec::new();
        let mut i: usize = 0;
        while i < changes.len()
            invariant
                self.inv(),
                self == old(self),
            decreases changes@.len() - i,
        {
            batch.push(change_record(&changes[i]));
            i = i + 1;
        }
        match doc_apply_changes(&mut self.document, changes) {
            Ok(()) => (),
            Err(e) => {
                return Err(DocumentError::AutomergeError(e));
            },
        }
        let total = match batch_total(&batch) {
            Some(t) => t,
            None => {
                return Err(DocumentError::SizeLimitExceeded);
            },
        };
        let szs = self.persister.sizes();
        proof {
            self.persister.lemma_inv();
        }
        if szs.changes > u64::MAX - total {
            return Err(DocumentError::SizeLimitExceeded);
        }
        let ghost b = batch.deep_view();
        match self.persister.insert_changes(batch) {
            Ok(()) => (),
            Err(e) => {
                return Err(DocumentError::PersisterError(e));
            },
        }
        proof {
            assert(self.store().changes == upsert_changes(old(self).store().changes, b));
        }
        Ok(())
    }

    /// Compacts storage: saves the document as one snapshot, writes it,
    /// then deletes the change records it folds in, then the sync states of
    /// the given stale peers — in that order, so that a crash between the
    /// calls leaves the snapshot and at worst redundant changes, never
    /// neither.
    pub fn compact(&mut self, old_peer_ids: &[Vec<u8>]) -> (r: Result<(), DocumentError<P::Error>>)
        requires
            old(self).inv(),
        ensures
            r matches Ok(()) ==> final(self).inv() && final(self).store().document is Some && final(self).store().changes.submap_of(old(self).store().changes) && final(self).store().sync_states == remove_keys_seq(
                old(self).store().sync_states,
                old_peer_ids.deep_view(),
            ),
    {
        let snapshot = doc_save(&self.document);
        let all = doc_get_changes(&self.document, &Vec::new());
        let mut keys: Vec<(Vec<u8>, u64)> = Vec::new();
        let mut i: usize = 0;
        while i < all.len()
            invariant
                self.inv(),
                self.store() == old(self).store(),
            decreases all@.len() - i,
        {
            let a = clone_bytes(all[i].0.as_slice());
            keys.push((a, all[i].1));
            i = i + 1;
        }
        match self.persister.set_document(snapshot) {
            Ok(()) => (),
            Err(e) => {
                return Err(DocumentError::PersisterError(e));
            },
        }
        let ghost kdv = keys.deep_view();
        match self.persister.remove_changes(keys) {
            Ok(()) => (),
            Err(e) => {
                return Err(DocumentError::PersisterError(e));
            },
        }
        match self.persister.remove_sync_states(old_peer_ids) {
            Ok(()) => (),
            Err(e) => {
                return Err(DocumentError::PersisterError(e));
            },
        }
        proof {
            lemma_remove_keys_seq_submap(old(self).store().changes, kdv);
        }
        Ok(())
    }

    fn load_sync_state(&mut self, peer_id: &[u8]) -> (r: Result<
        automerge::sync::State,
        DocumentError<P::Error>,
    >)
        requires
            old(self).inv(),
        ensures
            final(self).inv(),
            final(self).store() == old(self).store(),
            !cache_has(final(self).sync_states@, peer_id@),
            cache_distinct(final(self).sync_states@),
    {
        match cache_take(&mut self.sync_states, peer_id) {
            Some(st) => Ok(st),
            None => match self.persister.get_sync_state(peer_id) {
                Ok(Some(bytes)) => match sync_state_decode(bytes.as_slice()) {
                    Ok(st) => Ok(st),
                    Err(e) => Err(DocumentError::AutomergeDecodeError(e)),
                },
                Ok(None) => Ok(sync_state_new()),
                Err(e) => Err(DocumentError::PersisterError(e)),
            },
        }
    }

    /// Generates the next sync message for a peer, if the protocol has one
    /// to send. The peer's cursor is loaded from storage on first use and
    /// cached; every call persists the advanced cursor for exactly this
    /// peer, message or not.
    pub fn generate_sync_message(&mut self, peer_id: Vec<u8>) -> (r: Result<
        Option<automerge::sync::Message>,
        DocumentError<P::Error>,
    >)
        requires
            old(self).inv(),
        ensures
            r matches Ok(_) ==> final(self).inv() && (exists|st: Seq<u8>|
                final(self).store().sync_states == old(self).store().sync_states.insert(
                    peer_id@,
                    st,
                )) && final(self).store().document == old(self).store().document && final(self).store().changes == old(self).store().changes,
            r matches Err(DocumentError::SizeLimitExceeded) ==> final(self).inv() && final(self).store() == old(self).store(),
    {
        let mut state = match self.load_sync_state(peer_id.as_slice()) {
            Ok(st) => st,
            Err(e) => {
                return Err(e);
            },
        };
        let message = doc_generate_sync_message(&self.document, &mut state);
        let encoded = sync_state_encode(&state);
        let szs = self.persister.sizes();
        proof {
            self.persister.lemma_inv();
        }
        if (encoded.len() as u64) > u64::MAX - szs.sync_states {
            return Err(DocumentError::SizeLimitExceeded);
        }
        match self.persister.set_sync_state(clone_bytes(peer_id.as_slice()), encoded) {
            Ok(()) => (),
            Err(e) => {
                return Err(DocumentError::PersisterError(e));
            },
        }
        cache_put(&mut self.sync_states, peer_id, state);
        Ok(message)
    }

    /// Receives a peer's sync message: feeds it to the engine, persists
    /// exactly the whole change records the engine thereby materialized,
    /// and persists the peer's advanced cursor. The document region is
    /// untouched.
    pub fn receive_sync_message(
        &mut self,
        peer_id: Vec<u8>,
        message: automerge::sync::Message,
    ) -> (r: Result<(), DocumentError<P::Error>>)
        requires
            old(self).inv(),
        ensures
            r matches Ok(()) ==> final(self).inv() && (exists|st: Seq<u8>|
                final(self).store().sync_states == old(self).store().sync_states.insert(
                    peer_id@,
                    st,
                )) && final(self).store().document == old(self).store().document
                && changes_only_upserted(
                old(self).store().changes,
                final(self).store().changes,
            ),
            (r matches Err(DocumentError::SizeLimitExceeded) || r matches Err(
                DocumentError::AutomergeError(_),
            )) ==> final(self).inv() && changes_only_upserted(
                old(self).store().changes,
                final(self).store().changes,
            ) && final(self).store().document == old(self).store().document && final(self).store().sync_states == old(self).store().sync_states,
    {
        let mut state = match self.load_sync_state(peer_id.as_slice()) {
            Ok(st) => st,
            Err(e) => {
                proof {
                    assert(self.store().changes == upsert_changes(
                        old(self).store().changes,
                        Seq::empty(),
                    ));
                }
                return Err(e);
            },
        };
        let heads = doc_get_heads(&self.document);
        match doc_receive_sync_message(&mut self.document, &mut state, message) {
            Ok(()) => (),
            Err(e) => {
                proof {
                    assert(self.store().changes == upsert_changes(
                        old(self).store().changes,
                        Seq::empty(),
                    ));
                }
                return Err(DocumentError::AutomergeError(e));
            },
        }
        let batch = doc_get_changes(&self.document, &heads);
        let total = match batch_total(&batch) {
            Some(t) => t,
            None => {
                proof {
                    assert(self.store().changes == upsert_changes(
                        old(self).store().changes,
                        Seq::empty(),
                    ));
                }
                return Err(DocumentError::SizeLimitExceeded);
            },
        };
        let szs = self.persister.sizes();
        proof {
            self.persister.lemma_inv();
        }
        if szs.changes > u64::MAX - total {
            proof {
                assert(self.store().changes == upsert_changes(
                    old(self).store().changes,
                    Seq::empty(),
                ));
            }
            return Err(DocumentError::SizeLimitExceeded);
        }
        let ghost b = batch.deep_view();
        match self.persister.insert_changes(batch) {
            Ok(()) => (),
            Err(e) => {
                return Err(DocumentError::PersisterError(e));
            },
        }
        let encoded = sync_state_encode(&state);
        let szs2 = self.persister.sizes();
        proof {
            self.persister.lemma_inv();
        }
        if (encoded.len() as u64) > u64::MAX - szs2.sync_states {
            proof {
                assert(self.store().changes == upsert_changes(old(self).store().changes, b));
            }
            return Err(DocumentError::SizeLimitExceeded);
        }
        match self.persister.set_sync_state(clone_bytes(peer_id.as_slice()), encoded) {
            Ok(()) => (),
            Err(e) => {
                return Err(DocumentError::PersisterError(e));
            },
        }
        cache_put(&mut self.sync_states, peer_id, state);
        proof {
            assert(self.store().changes == upsert_changes(old(self).store().changes, b));
        }
        Ok(())
    }

    /// Forces the persister's buffered writes out, returning the bytes
    /// written; the stored state is unchanged.
    pub fn flush(&mut self) -> (r: Result<usize, P::Error>)
        requires
            old(self).inv(),
        ensures
            r matches Ok(_) ==> final(self).inv() && final(self).store() == old(self).store(),
    {
        self.persister.flush()
    }

    /// Closes the document: flushes everything out and hands the persister
    /// back for reuse by another document.
    pub fn close(self) -> (r: Result<P, P::Error>)
        requires
            self.inv(),
        ensures
            r matches Ok(p) ==> p.inv() && p@ == self.store(),
    {
        let mut doc = self;
        match doc.flush() {
            Ok(_) => (),
            Err(e) => {
                return Err(e);
            },
        }
        Ok(doc.persister)
    }

    /// The persister, for inspection such as reading its stored sizes.
    pub fn persister(&self) -> (r: &P)
        requires
            self.inv(),
        ensures
            r.inv(),
            r@ == self.store(),
    {
        &self.persister
    }

    /// The persister, mutably; the document stays usable only as long as
    /// the caller leaves the persister's own invariant intact.
    pub fn persister_mut(&mut self) -> (r: &mut P)
        requires
            old(self).inv(),
        ensures
            *r == old(self).persister_ref(),
            final(self).store() == final(r)@,
            final(r).inv() ==> final(self).inv(),
    {
        &mut self.persister
    }

    /// The wrapped persister value, for specifications.
    pub closed spec fn persister_ref(self) -> P {
        self.persister
    }

    /// Forgets a peer entirely: drops its cached cursor and deletes its
    /// persisted sync state, touching no other peer and no other region.
    pub fn reset_sync_state(&mut self, peer_id: &[u8]) -> (r: Result<(), P::Error>)
        requires
            old(self).inv(),
        ensures
            r matches Ok(()) ==> final(self).inv() && final(self).store().sync_states == old(self).store().sync_states.remove(peer_id@) && final(self).store().changes == old(self).store().changes && final(self).store().document == old(self).store().document,
    {
        let _ = cache_take(&mut self.sync_states, peer_id);
        let mut ids: Vec<Vec<u8>> = Vec::new();
        ids.push(clone_bytes(peer_id));
        let ghost ids_dv = ids.deep_view();
        match self.persister.remove_sync_states(ids.as_slice()) {
            Ok(()) => {
                proof {
                    lemma_bytes_deep_view(ids@[0]);
                    assert(ids_dv.len() == 1);
                    assert(ids_dv[0] == peer_id@);
                    assert(ids_dv.drop_first() =~= Seq::<Seq<u8>>::empty());
                    let m = old(self).store().sync_states;
                    assert(remove_keys_seq(m, ids_dv) == remove_keys_seq(
                        m.remove(peer_id@),
                        ids_dv.drop_first(),
                    ));
                }
                Ok(())
            },
            Err(e) => Err(e),
        }
    }
}

} // verus!
