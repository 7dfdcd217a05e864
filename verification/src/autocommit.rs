//! A persistent document: one CRDT engine bound to one persister.
//!
//! Every state-changing operation on the document is paired with the
//! persister calls that make it durable, in an order chosen so that a crash
//! between calls never loses data: a compaction writes the new snapshot
//! before it prunes the changes folded into it, so storage always holds the
//! snapshot, the changes, or redundantly both.

use vstd::prelude::*;

verus! {

use crate::engine::{am_apply_changes, am_generate_sync_message, am_get_changes, am_get_heads,
    am_load, am_new, am_receive_sync_message, am_save, change_from_bytes, sync_state_decode,
    sync_state_encode, sync_state_new, with_document};
use crate::keys::{bytes_eq, clone_bytes, lemma_bytes_deep_view};
use crate::model::{ChangeKey, ChangeRecord, batch_bytes, lemma_batch_bytes_push,
    lemma_batch_bytes_split, lemma_remove_keys_seq_submap, remove_keys_seq, upsert_changes};
use crate::persister::Persister;

/// Errors a persistent document can return.
#[derive(Debug)]
pub enum DocumentError<E> {
    /// An error from the CRDT engine.
    AutomergeError(automerge::AutomergeError),
    /// A stored sync state did not decode.
    AutomergeDecodeError(automerge::sync::DecodeStateError),
    /// A stored change blob did not decode.
    AutomergeLoadChangeError(automerge::LoadChangeError),
    /// An error from the persister.
    PersisterError(E),
    /// Storing these bytes would overflow the 64-bit size counters.
    SizeLimitExceeded,
}

/// The changes region moved from `pre` to `post` by upserting some batch of
/// records: nothing was deleted, and nothing appeared but whole records.
pub open spec fn changes_only_upserted(
    pre: Map<ChangeKey, Seq<u8>>,
    post: Map<ChangeKey, Seq<u8>>,
) -> bool {
    exists|b: Seq<ChangeRecord>| post == upsert_changes(pre, b)
}

pub(crate) open spec fn cache_key(s: Seq<(Vec<u8>, automerge::sync::State)>, i: int) -> Seq<u8> {
    s[i].0@
}

pub(crate) open spec fn cache_has(s: Seq<(Vec<u8>, automerge::sync::State)>, k: Seq<u8>) -> bool {
    exists|i: int| 0 <= i < s.len() && cache_key(s, i) == k
}

pub(crate) open spec fn cache_distinct(s: Seq<(Vec<u8>, automerge::sync::State)>) -> bool {
    forall|i: int, j: int|
        0 <= i < j < s.len() ==> #[trigger] cache_key(s, i) != #[trigger] cache_key(s, j)
}

/// Takes the cached sync state for a peer out of the cache, if any.
pub(crate) fn cache_take(c: &mut Vec<(Vec<u8>, automerge::sync::State)>, key: &[u8]) -> (r: Option<
    automerge::sync::State,
>)
    requires
        cache_distinct(old(c)@),
    ensures
        cache_distinct(final(c)@),
        !cache_has(final(c)@, key@),
{
    let mut i: usize = 0;
    while i < c.len()
        invariant
            i <= c@.len(),
            cache_distinct(c@),
            forall|j: int| 0 <= j < i ==> cache_key(c@, j) != key@,
        decreases c@.len() - i,
    {
        if bytes_eq(c[i].0.as_slice(), key) {
            let ghost pre = c@;
            let e = c.remove(i);
            proof {
                assert(forall|x: int|
                    0 <= x < c@.len() ==> cache_key(c@, x) == if x < i {
                        cache_key(pre, x)
                    } else {
                        cache_key(pre, x + 1)
                    });
                assert(cache_distinct(c@));
                assert forall|x: int| 0 <= x < c@.len() implies cache_key(c@, x) != key@ by {
                    if x < i {
                        assert(cache_key(pre, x) != cache_key(pre, i as int));
                    } else {
                        assert(cache_key(pre, x + 1) != cache_key(pre, i as int));
                    }
                }
            }
            return Some(e.1);
        }
        i = i + 1;
    }
    None
}

/// Puts a peer's sync state into the cache; the peer must not be cached.
pub(crate) fn cache_put(c: &mut Vec<(Vec<u8>, automerge::sync::State)>, key: Vec<u8>, st: automerge::sync::State)
    requires
        cache_distinct(old(c)@),
        !cache_has(old(c)@, key@),
    ensures
        cache_distinct(final(c)@),
{
    let ghost pre = c@;
    let ghost kk = key@;
    c.push((key, st));
    proof {
        assert forall|x: int, y: int| 0 <= x < y < c@.len() implies cache_key(c@, x) != cache_key(
            c@,
            y,
        ) by {
            if y < pre.len() {
                assert(cache_key(c@, x) == cache_key(pre, x));
                assert(cache_key(c@, y) == cache_key(pre, y));
            } else {
                assert(cache_key(c@, x) == cache_key(pre, x));
                assert(cache_key(c@, y) == kk);
                assert(!cache_has(pre, kk));
            }
        }
    }
}

/// Sums the blob bytes a batch of change records carries, or reports that
/// the sum does not fit the 64-bit counters.
pub fn batch_total(batch: &Vec<(Vec<u8>, u64, Vec<u8>)>) -> (r: Option<u64>)
    ensures
        r matches Some(t) ==> t == batch_bytes(batch.deep_view()),
        r is None ==> batch_bytes(batch.deep_view()) > u64::MAX,
{
    let ghost b = batch.deep_view();
    proof {
        assert(b.take(0) =~= Seq::<ChangeRecord>::empty());
    }
    let mut acc: u64 = 0;
    let mut i: usize = 0;
    while i < batch.len()
        invariant
            i <= batch@.len(),
            b == batch.deep_view(),
            b.len() == batch@.len(),
            acc == batch_bytes(b.take(i as int)),
        decreases batch@.len() - i,
    {
        proof {
            lemma_bytes_deep_view(batch@[i as int].2);
            assert(b.take(i + 1) =~= b.take(i as int).push(b[i as int]));
            lemma_batch_bytes_push(b.take(i as int), b[i as int]);
        }
        let l = batch[i].2.len() as u64;
        if acc > u64::MAX - l {
            proof {
                lemma_batch_bytes_split(b, i + 1);
            }
            return None;
        }
        acc = acc + l;
        i = i + 1;
    }
    proof {
        assert(b.take(batch@.len() as int) =~= b);
    }
    Some(acc)
}

/// A wrapper binding one automerge document to one persister.
///
/// Mutations made through [`Self::transact`] or [`Self::document_mut`] stay
/// in the engine until the next sync operation, flush or explicit
/// [`Self::close_transaction`] writes the new changes to the persister; the
/// wrapper remembers the heads it last persisted and asks the engine only
/// for the changes past that watermark.
pub struct PersistentAutoCommit<P: Persister> {
    document: automerge::AutoCommit,
    sync_states: Vec<(Vec<u8>, automerge::sync::State)>,
    persister: P,
    saved_heads: Vec<automerge::ChangeHash>,
}

impl<P: Persister> PersistentAutoCommit<P> {
    /// The wrapper's invariant: the persister's own invariant holds and the
    /// sync-state cache holds each peer at most once.
    pub closed spec fn inv(self) -> bool {
        &&& self.persister.inv()
        &&& cache_distinct(self.sync_states@)
    }

    /// The persister's abstract stored state.
    pub closed spec fn store(self) -> crate::persister::PersisterView {
        self.persister@
    }

    /// Loads the persisted document: reads the snapshot (if any) into a
    /// fresh engine, then applies every stored change; the engine orders
    /// them by its own dependency graph. Reading changes nothing in
    /// storage.
    pub fn load(persister: P) -> (r: Result<Self, DocumentError<P::Error>>)
        requires
            persister.inv(),
        ensures
            r matches Ok(d) ==> d.inv() && d.store() == persister@,
    {
        let stored_doc = match persister.get_document() {
            Ok(v) => v,
            Err(e) => {
                return Err(DocumentError::PersisterError(e));
            },
        };
        let mut doc = match stored_doc {
            Some(b) => match am_load(b.as_slice()) {
                Ok(d) => d,
                Err(e) => {
                    return Err(DocumentError::AutomergeError(e));
                },
            },
            None => am_new(),
        };
        let blobs = match persister.get_changes() {
            Ok(v) => v,
            Err(e) => {
                return Err(DocumentError::PersisterError(e));
            },
        };
        let mut changes: Vec<automerge::Change> = Vec::new();
        let mut i: usize = 0;
        while i < blobs.len()
            decreases blobs@.len() - i,
        {
            let blob = clone_bytes(blobs[i].as_slice());
            match change_from_bytes(blob) {
                Ok(c) => changes.push(c),
                Err(e) => {
                    return Err(DocumentError::AutomergeLoadChangeError(e));
                },
            }
            i = i + 1;
        }
        match am_apply_changes(&mut doc, changes) {
            Ok(()) => (),
            Err(e) => {
                return Err(DocumentError::AutomergeError(e));
            },
        }
        let saved_heads = am_get_heads(&mut doc);
        Ok(
            PersistentAutoCommit {
                document: doc,
                sync_states: Vec::new(),
                persister,
                saved_heads,
            },
        )
    }

    /// The wrapped document.
    pub fn document(&self) -> &automerge::AutoCommit {
        &self.document
    }

    /// The wrapped document, mutably. Changes made through it are not
    /// persisted until the next operation that closes the transaction.
    pub fn document_mut(&mut self) -> (r: &mut automerge::AutoCommit)
        requires
            old(self).inv(),
        ensures
            final(self).inv(),
            final(self).store() == old(self).store(),
    {
        &mut self.document
    }

    /// Runs a closure over the document without persisting the changes it
    /// makes; a later operation closes the transaction and writes them out.
    pub fn transact<O, E, F: FnOnce(&mut automerge::AutoCommit) -> Result<O, E>>(
        &mut self,
        f: F,
    ) -> (r: Result<O, E>)
        requires
            old(self).inv(),
        ensures
            final(self).inv(),
            final(self).store() == old(self).store(),
    {
        with_document(&mut self.document, f)
    }

    /// Applies externally supplied changes to the document and persists
    /// exactly those records — they are already in hand, so no diffing
    /// against the last persisted heads is needed. The document and sync
    /// regions stay untouched.
    pub fn apply_changes(&mut self, changes: Vec<automerge::Change>) -> (r: Result<
        (),
        DocumentError<P::Error>,
    >)
        requires
            old(self).inv(),
        ensures
            r matches Ok(()) ==> final(self).inv() && changes_only_upserted(
                old(self).store().changes,
                final(self).store().changes,
            ) && final(self).store().document == old(self).store().document && final(self).store().sync_states == old(self).store().sync_states,
            (r matches Err(DocumentError::AutomergeError(_)) || r matches Err(
                DocumentError::SizeLimitExceeded,
            )) ==> final(self).inv() && final(self).store() == old(self).store(),
    {
        let mut batch: Vec<(Vec<u8>, u64, Vec<u8>)> = Vec::new();
        let mut i: usize = 0;
        while i < changes.len()
            invariant
                self.inv(),
                self == old(self),
            decreases changes@.len() - i,
        {
            batch.push(crate::engine::change_record(&changes[i]));
            i = i + 1;
        }
        match crate::engine::am_apply_changes(&mut self.document, changes) {
            Ok(()) => (),
            Err(e) => {
                return Err(DocumentError::AutomergeError(e));
            },
        }
        let total = match batch_total(&batch) {
            Some(t) => t,
            None => {
                return Err(DocumentError::SizeLimitExceeded);
            },
        };
        let szs = self.persister.sizes();
        proof {
            self.persister.lemma_inv();
        }
        if szs.changes > u64::MAX - total {
            return Err(DocumentError::SizeLimitExceeded);
        }
        let ghost b = batch.deep_view();
        match self.persister.insert_changes(batch) {
            Ok(()) => (),
            Err(e) => {
                return Err(DocumentError::PersisterError(e));
            },
        }
        proof {
            assert(self.store().changes == upsert_changes(old(self).store().changes, b));
        }
        Ok(())
    }

    /// Writes every change produced since the last persisted heads to the
    /// persister and advances the watermark. Only whole change records are
    /// ever added; the document and sync regions stay untouched.
    pub fn close_transaction(&mut self) -> (r: Result<(), DocumentError<P::Error>>)
        requires
            old(self).inv(),
        ensures
            r matches Ok(()) ==> final(self).inv() && changes_only_upserted(
                old(self).store().changes,
                final(self).store().changes,
            ) && final(self).store().document == old(self).store().document && final(self).store().sync_states == old(self).store().sync_states,
            r matches Err(DocumentError::SizeLimitExceeded) ==> final(self).inv() && final(self).store() == old(self).store(),
            r matches Err(e) ==> e is SizeLimitExceeded || e is PersisterError,
    {
        let batch = am_get_changes(&mut self.document, &self.saved_heads);
        let total = match batch_total(&batch) {
            Some(t) => t,
            None => {
                return Err(DocumentError::SizeLimitExceeded);
            },
        };
        let szs = self.persister.sizes();
        proof {
            self.persister.lemma_inv();
        }
        if szs.changes > u64::MAX - total {
            return Err(DocumentError::SizeLimitExceeded);
        }
        let ghost b = batch.deep_view();
        match self.persister.insert_changes(batch) {
            Ok(()) => (),
            Err(e) => {
                return Err(DocumentError::PersisterError(e));
            },
        }
        self.saved_heads = am_get_heads(&mut self.document);
        proof {
            assert(self.store().changes == upsert_changes(old(self).store().changes, b));
        }
        Ok(())
    }

    /// Compacts storage: saves the document as one snapshot, writes it,
    /// then deletes the change records it folds in, then the sync states of
    /// the given stale peers — in that order, so that a crash between the
    /// calls leaves the snapshot and at worst redundant changes, never
    /// neither. Changes are only ever deleted here, never rewritten, and no
    /// sync state but the named peers' is touched.
    #[verifier::rlimit(50)]
    pub fn compact(&mut self, old_peer_ids: &[Vec<u8>]) -> (r: Result<(), DocumentError<P::Error>>)
        requires
            old(self).inv(),
        ensures
            r matches Ok(()) ==> final(self).inv() && final(self).store().document is Some && final(self).store().changes.submap_of(old(self).store().changes) && final(self).store().sync_states == remove_keys_seq(
                old(self).store().sync_states,
                old_peer_ids.deep_view(),
            ),
    {
        let snapshot = am_save(&mut self.document);
        self.saved_heads = am_get_heads(&mut self.document);
        let all = am_get_changes(&mut self.document, &Vec::new());
        let mut keys: Vec<(Vec<u8>, u64)> = Vec::new();
        let mut i: usize = 0;
        while i < all.len()
            invariant
                self.inv(),
                self.store() == old(self).store(),
            decreases all@.len() - i,
        {
            let a = clone_bytes(all[i].0.as_slice());
            keys.push((a, all[i].1));
            i = i + 1;
        }
        match self.persister.set_document(snapshot) {
            Ok(()) => (),
            Err(e) => {
                return Err(DocumentError::PersisterError(e));
            },
        }
        let ghost kdv = keys.deep_view();
        match self.persister.remove_changes(keys) {
            Ok(()) => (),
            Err(e) => {
                return Err(DocumentError::PersisterError(e));
            },
        }
        match self.persister.remove_sync_states(old_peer_ids) {
            Ok(()) => (),
            Err(e) => {
                return Err(DocumentError::PersisterError(e));
            },
        }
        proof {
            lemma_remove_keys_seq_submap(old(self).store().changes, kdv);
        }
        Ok(())
    }

    fn load_sync_state(&mut self, peer_id: &[u8]) -> (r: Result<
        automerge::sync::State,
        DocumentError<P::Error>,
    >)
        requires
            old(self).inv(),
        ensures
            final(self).inv(),
            final(self).store() == old(self).store(),
            !cache_has(final(self).sync_states@, peer_id@),
            cache_distinct(final(self).sync_states@),
    {
        match cache_take(&mut self.sync_states, peer_id) {
            Some(st) => Ok(st),
            None => match self.persister.get_sync_state(peer_id) {
                Ok(Some(bytes)) => match sync_state_decode(bytes.as_slice()) {
                    Ok(st) => Ok(st),
                    Err(e) => Err(DocumentError::AutomergeDecodeError(e)),
                },
                Ok(None) => Ok(sync_state_new()),
                Err(e) => Err(DocumentError::PersisterError(e)),
            },
        }
    }

    /// Generates the next sync message for a peer, if the protocol has one
    /// to send. The peer's cursor is loaded from storage on first use and
    /// cached; every call persists the advanced cursor for exactly this
    /// peer, message or not, and no other region changes beyond closing the
    /// open transaction.
    pub fn generate_sync_message(&mut self, peer_id: Vec<u8>) -> (r: Result<
        Option<automerge::sync::Message>,
        DocumentError<P::Error>,
    >)
        requires
            old(self).inv(),
        ensures
            r matches Ok(_) ==> final(self).inv() && (exists|st: Seq<u8>|
                final(self).store().sync_states == old(self).store().sync_states.insert(
                    peer_id@,
                    st,
                )) && final(self).store().document == old(self).store().document
                && changes_only_upserted(
                old(self).store().changes,
                final(self).store().changes,
            ),
            r matches Err(DocumentError::SizeLimitExceeded) ==> final(self).inv()
                && changes_only_upserted(
                old(self).store().changes,
                final(self).store().changes,
            ) && final(self).store().document == old(self).store().document && final(self).store().sync_states == old(self).store().sync_states,
    {
        match self.close_transaction() {
            Ok(()) => (),
            Err(e) => {
                proof {
                    lemma_upserted_refl(old(self).store().changes);
                }
                return Err(e);
            },
        }
        let mut state = match self.load_sync_state(peer_id.as_slice()) {
            Ok(st) => st,
            Err(e) => {
                return Err(e);
            },
        };
        let message = am_generate_sync_message(&mut self.document, &mut state);
        let encoded = sync_state_encode(&state);
        let szs = self.persister.sizes();
        proof {
            self.persister.lemma_inv();
        }
        if (encoded.len() as u64) > u64::MAX - szs.sync_states {
            return Err(DocumentError::SizeLimitExceeded);
        }
        let ghost enc = encoded@;
        match self.persister.set_sync_state(clone_bytes(peer_id.as_slice()), encoded) {
            Ok(()) => (),
            Err(e) => {
                return Err(DocumentError::PersisterError(e));
            },
        }
        cache_put(&mut self.sync_states, peer_id, state);
        Ok(message)
    }

    /// Receives a peer's sync message: feeds it to the engine, persists
    /// exactly the whole change records the engine thereby materialized,
    /// and persists the peer's advanced cursor. The document region is
    /// untouched.
    pub fn receive_sync_message(
        &mut self,
        peer_id: Vec<u8>,
        message: automerge::sync::Message,
    ) -> (r: Result<(), DocumentError<P::Error>>)
        requires
            old(self).inv(),
        ensures
            r matches Ok(()) ==> final(self).inv() && (exists|st: Seq<u8>|
                final(self).store().sync_states == old(self).store().sync_states.insert(
                    peer_id@,
                    st,
                )) && final(self).store().document == old(self).store().document
                && changes_only_upserted(
                old(self).store().changes,
                final(self).store().changes,
            ),
            (r matches Err(DocumentError::SizeLimitExceeded) || r matches Err(
                DocumentError::AutomergeError(_),
            )) ==> final(self).inv() && changes_only_upserted(
                old(self).store().changes,
                final(self).store().changes,
            ) && final(self).store().document == old(self).store().document && final(self).store().sync_states == old(self).store().sync_states,
    {
        match self.close_transaction() {
            Ok(()) => (),
            Err(e) => {
                proof {
                    lemma_upserted_refl(old(self).store().changes);
                }
                return Err(e);
            },
        }
        let mut state = match self.load_sync_state(peer_id.as_slice()) {
            Ok(st) => st,
            Err(e) => {
                proof {
                    lemma_upserted_refl(old(self).store().changes);
                }
                return Err(e);
            },
        };
        let ghost after_load = self.store();
        let heads = am_get_heads(&mut self.document);
        match am_receive_sync_message(&mut self.document, &mut state, message) {
            Ok(()) => (),
            Err(e) => {
                proof {
                    let b0 = choose|b0: Seq<ChangeRecord>|
                        after_load.changes == upsert_changes(old(self).store().changes, b0);
                    assert(self.store().changes == upsert_changes(
                        old(self).store().changes,
                        b0,
                    ));
                }
                return Err(DocumentError::AutomergeError(e));
            },
        }
        let batch = am_get_changes(&mut self.document, &heads);
        let total = match batch_total(&batch) {
            Some(t) => t,
            None => {
                proof {
                    let b0 = choose|b0: Seq<ChangeRecord>|
                        after_load.changes == upsert_changes(old(self).store().changes, b0);
                    assert(self.store().changes == upsert_changes(
                        old(self).store().changes,
                        b0,
                    ));
                }
                return Err(DocumentError::SizeLimitExceeded);
            },
        };
        let szs = self.persister.sizes();
        proof {
            self.persister.lemma_inv();
        }
        if szs.changes > u64::MAX - total {
            proof {
                let b0 = choose|b0: Seq<ChangeRecord>|
                    after_load.changes == upsert_changes(old(self).store().changes, b0);
                assert(self.store().changes == upsert_changes(old(self).store().changes, b0));
            }
            return Err(DocumentError::SizeLimitExceeded);
        }
        let ghost mid_changes = self.store().changes;
        let ghost b = batch.deep_view();
        match self.persister.insert_changes(batch) {
            Ok(()) => (),
            Err(e) => {
                return Err(DocumentError::PersisterError(e));
            },
        }
        let encoded = sync_state_encode(&state);
        let szs2 = self.persister.sizes();
        proof {
            self.persister.lemma_inv();
        }
        if (encoded.len() as u64) > u64::MAX - szs2.sync_states {
            proof {
                assert(self.store().changes == upsert_changes(mid_changes, b));
                lemma_upserts_compose(
                    old(self).store().changes,
                    mid_changes,
                    self.store().changes,
                );
            }
            return Err(DocumentError::SizeLimitExceeded);
        }
        match self.persister.set_sync_state(clone_bytes(peer_id.as_slice()), encoded) {
            Ok(()) => (),
            Err(e) => {
                return Err(DocumentError::PersisterError(e));
            },
        }
        cache_put(&mut self.sync_states, peer_id, state);
        proof {
            // two upsert rounds compose into one batch
            assert(self.store().changes == upsert_changes(mid_changes, b));
            lemma_upserts_compose(old(self).store().changes, mid_changes, self.store().changes);
        }
        Ok(())
    }

    /// Closes any open transaction and forces the persister's buffered
    /// writes out, returning the bytes written.
    pub fn flush(&mut self) -> (r: Result<usize, DocumentError<P::Error>>)
        requires
            old(self).inv(),
        ensures
            r matches Ok(_) ==> final(self).inv() && changes_only_upserted(
                old(self).store().changes,
                final(self).store().changes,
            ) && final(self).store().document == old(self).store().document && final(self).store().sync_states == old(self).store().sync_states,
    {
        match self.close_transaction() {
            Ok(()) => (),
            Err(e) => {
                return Err(e);
            },
        }
        match self.persister.flush() {
            Ok(n) => Ok(n),
            Err(e) => Err(DocumentError::PersisterError(e)),
        }
    }

    /// Closes the document: flushes everything out and hands the persister
    /// back for reuse by another document.
    pub fn close(self) -> (r: Result<P, DocumentError<P::Error>>)
        requires
            self.inv(),
        ensures
            r matches Ok(p) ==> p.inv() && changes_only_upserted(
                self.store().changes,
                p@.changes,
            ) && p@.document == self.store().document && p@.sync_states
                == self.store().sync_states,
    {
        let mut doc = self;
        match doc.flush() {
            Ok(_) => (),
            Err(e) => {
                return Err(e);
            },
        }
        Ok(doc.persister)
    }

    /// The persister, for inspection such as reading its stored sizes.
    pub fn persister(&self) -> (r: &P)
        requires
            self.inv(),
        ensures
            r.inv(),
            r@ == self.store(),
    {
        &self.persister
    }

    /// Forgets a peer entirely: drops its cached cursor and deletes its
    /// persisted sync state, touching no other peer and no other region.
    /// Used when a peer disconnects for good and cannot resume its cursor.
    pub fn reset_sync_state(&mut self, peer_id: &[u8]) -> (r: Result<(), P::Error>)
        requires
            old(self).inv(),
        ensures
            r matches Ok(()) ==> final(self).inv() && final(self).store().sync_states == old(self).store().sync_states.remove(peer_id@) && final(self).store().changes == old(self).store().changes && final(self).store().document == old(self).store().document,
    {
        let _ = cache_take(&mut self.sync_states, peer_id);
        let mut ids: Vec<Vec<u8>> = Vec::new();
        ids.push(clone_bytes(peer_id));
        let ghost ids_dv = ids.deep_view();
        match self.persister.remove_sync_states(ids.as_slice()) {
            Ok(()) => {
                proof {
                    lemma_bytes_deep_view(ids@[0]);
                    assert(ids_dv.len() == 1);
                    assert(ids_dv[0] == peer_id@);
                    assert(ids_dv.drop_first() =~= Seq::<Seq<u8>>::empty());
                    let m = old(self).store().sync_states;
                    assert(remove_keys_seq(m, ids_dv) == remove_keys_seq(
                        m.remove(peer_id@),
                        ids_dv.drop_first(),
                    ));
                }
                Ok(())
            },
            Err(e) => Err(e),
        }
    }
}

/// An unchanged region is an upsert of the empty batch.
proof fn lemma_upserted_refl(m: Map<ChangeKey, Seq<u8>>)
    ensures
        changes_only_upserted(m, m),
{
    assert(m == upsert_changes(m, Seq::<ChangeRecord>::empty()));
}

/// Two rounds of upserts are one: what two batches build, one batch builds.
proof fn lemma_upserts_compose(
    pre: Map<ChangeKey, Seq<u8>>,
    mid: Map<ChangeKey, Seq<u8>>,
    post: Map<ChangeKey, Seq<u8>>,
)
    requires
        changes_only_upserted(pre, mid),
        changes_only_upserted(mid, post),
    ensures
        changes_only_upserted(pre, post),
{
    let b1 = choose|b: Seq<ChangeRecord>| mid == upsert_changes(pre, b);
    let b2 = choose|b: Seq<ChangeRecord>| post == upsert_changes(mid, b);
    lemma_upsert_changes_concat(pre, b1, b2);
}

/// Upserting two batches in turn equals upserting their concatenation.
proof fn lemma_upsert_changes_concat(
    m: Map<ChangeKey, Seq<u8>>,
    b1: Seq<ChangeRecord>,
    b2: Seq<ChangeRecord>,
)
    ensures
        upsert_changes(upsert_changes(m, b1), b2) == upsert_changes(m, b1 + b2),
    decreases b1.len(),
{
    if b1.len() == 0 {
        assert(b1 + b2 =~= b2);
    } else {
        assert((b1 + b2)[0] == b1[0]);
        assert((b1 + b2).drop_first() =~= b1.drop_first() + b2);
        lemma_upsert_changes_concat(m.insert((b1[0].0, b1[0].1), b1[0].2), b1.drop_first(), b2);
    }
}

} // verus!
