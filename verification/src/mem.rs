//! An in-memory persister.
//!
//! The reference backend: it provides no durability, but satisfies the full
//! [`Persister`] contract, so it serves tests and embedding documents that
//! need no persistence.

use vstd::prelude::*;

verus! {

use crate::blobstore::BlobStore;
use crate::changestore::ChangeStore;
use crate::keys::{clone_bytes, lemma_bytes_deep_view};
use crate::model::{batch_bytes, doc_bytes, lemma_remove_bytes, lemma_remove_keys_seq_push,
    lemma_stored_empty, lemma_upsert_bytes, lemma_upsert_changes_push, stored_bytes};
use crate::persister::{Persister, PersisterView};
use crate::sizes::StoredSizes;

/// An in-memory persister, for testing and for documents that need no
/// durability.
pub struct MemoryPersister {
    changes: ChangeStore,
    document: Option<Vec<u8>>,
    sync_states: BlobStore,
    sizes: StoredSizes,
}

impl View for MemoryPersister {
    type V = PersisterView;

    closed spec fn view(&self) -> PersisterView {
        PersisterView {
            changes: self.changes@,
            document: self.document.deep_view(),
            sync_states: self.sync_states@,
            sizes: self.sizes,
        }
    }
}

impl MemoryPersister {
    /// An empty in-memory persister.
    pub fn new() -> (r: Self)
        ensures
            r.inv(),
            r@.changes == Map::<(Seq<u8>, u64), Seq<u8>>::empty(),
            r@.document is None,
            r@.sync_states == Map::<Seq<u8>, Seq<u8>>::empty(),
            r@.sizes == (StoredSizes { changes: 0, document: 0, sync_states: 0 }),
    {
        let r = MemoryPersister {
            changes: ChangeStore::new(),
            document: None,
            sync_states: BlobStore::new(),
            sizes: StoredSizes { changes: 0, document: 0, sync_states: 0 },
        };
        proof {
            lemma_stored_empty::<(Seq<u8>, u64), Seq<u8>>();
            lemma_stored_empty::<Seq<u8>, Seq<u8>>();
        }
        r
    }
}

impl Default for MemoryPersister {
    /// Same as [`MemoryPersister::new`]: an empty store with zero counters.
    fn default() -> (r: Self)
        ensures
            r.inv(),
            r@.changes == Map::<(Seq<u8>, u64), Seq<u8>>::empty(),
            r@.document is None,
            r@.sync_states == Map::<Seq<u8>, Seq<u8>>::empty(),
            r@.sizes == (StoredSizes { changes: 0, document: 0, sync_states: 0 }),
    {
        MemoryPersister::new()
    }
}

impl Persister for MemoryPersister {
    type Error = std::convert::Infallible;

    closed spec fn inv(&self) -> bool {
        &&& self.changes.wf()
        &&& self.sync_states.wf()
        &&& self.sizes.changes == stored_bytes(self.changes@)
        &&& self.sizes.document == doc_bytes(self.document.deep_view())
        &&& self.sizes.sync_states == stored_bytes(self.sync_states@)
    }

    proof fn lemma_inv(&self) {
        self.changes.lemma_view();
        self.sync_states.lemma_view();
    }

    fn get_changes(&self) -> (r: Result<Vec<Vec<u8>>, Self::Error>)
        ensures
            r is Ok,
    {
        Ok(self.changes.values())
    }

    fn insert_changes(&mut self, changes: Vec<(Vec<u8>, u64, Vec<u8>)>) -> (r: Result<
        (),
        Self::Error,
    >)
        ensures
            r is Ok,
    {
        let ghost orig = self@.changes;
        let ghost batch = changes.deep_view();
        proof {
            self.changes.lemma_view();
            assert(batch.take(0) =~= Seq::<crate::model::ChangeRecord>::empty());
            assert(batch.skip(0) =~= batch);
        }
        let mut i: usize = 0;
        while i < changes.len()
            invariant
                i <= changes@.len(),
                batch == changes.deep_view(),
                batch.len() == changes@.len(),
                self.changes.wf(),
                self.changes@ == crate::model::upsert_changes(orig, batch.take(i as int)),
                self.changes@.dom().finite(),
                self.sizes.changes == stored_bytes(self.changes@),
                stored_bytes(self.changes@) + batch_bytes(batch.skip(i as int)) <= u64::MAX,
                self.document == old(self).document,
                self.sync_states == old(self).sync_states,
                self.sizes.document == old(self).sizes.document,
                self.sizes.sync_states == old(self).sizes.sync_states,
            decreases changes@.len() - i,
        {
            let ghost pre = self.changes@;
            let e = &changes[i];
            let a = clone_bytes(e.0.as_slice());
            let d = clone_bytes(e.2.as_slice());
            let ghost rec = batch[i as int];
            proof {
                lemma_bytes_deep_view(changes@[i as int].0);
                lemma_bytes_deep_view(changes@[i as int].2);
                assert(rec == ((a@, e.1, d@)));
                assert(batch.skip(i as int)[0] == rec);
                assert(batch.skip(i as int).drop_first() =~= batch.skip(i + 1));
                assert(batch_bytes(batch.skip(i as int)) == rec.2.len() + batch_bytes(
                    batch.skip(i + 1),
                ));
                lemma_upsert_bytes(pre, (rec.0, rec.1), rec.2);
            }
            let new_len: u64 = d.len() as u64;
            let sn = e.1;
            let old_v = self.changes.upsert(a, sn, d);
            let old_len: u64 = match &old_v {
                Some(v) => v.len() as u64,
                None => 0,
            };
            self.sizes.changes = self.sizes.changes - old_len + new_len;
            proof {
                lemma_upsert_changes_push(orig, batch.take(i as int), rec);
                assert(batch.take(i + 1) =~= batch.take(i as int).push(rec));
            }
            i = i + 1;
        }
        proof {
            assert(batch.take(changes@.len() as int) =~= batch);
            assert(batch.skip(changes@.len() as int) =~= Seq::<crate::model::ChangeRecord>::empty());
        }
        Ok(())
    }

    fn remove_changes(&mut self, changes: Vec<(Vec<u8>, u64)>) -> (r: Result<(), Self::Error>)
        ensures
            r is Ok,
    {
        let ghost orig = self@.changes;
        let ghost ks = changes.deep_view();
        proof {
            self.changes.lemma_view();
            assert(ks.take(0) =~= Seq::<crate::model::ChangeKey>::empty());
        }
        let mut i: usize = 0;
        while i < changes.len()
            invariant
                i <= changes@.len(),
                ks == changes.deep_view(),
                ks.len() == changes@.len(),
                self.changes.wf(),
                self.changes@ == crate::model::remove_keys_seq(orig, ks.take(i as int)),
                self.changes@.dom().finite(),
                self.sizes.changes == stored_bytes(self.changes@),
                self.document == old(self).document,
                self.sync_states == old(self).sync_states,
                self.sizes.document == old(self).sizes.document,
                self.sizes.sync_states == old(self).sizes.sync_states,
            decreases changes@.len() - i,
        {
            let ghost pre = self.changes@;
            let e = &changes[i];
            let ghost k = ks[i as int];
            proof {
                lemma_bytes_deep_view(changes@[i as int].0);
                assert(k == ((e.0@, e.1)));
                lemma_remove_bytes(pre, k);
            }
            let old_v = self.changes.remove_key(e.0.as_slice(), e.1);
            let old_len: u64 = match &old_v {
                Some(v) => v.len() as u64,
                None => 0,
            };
            self.sizes.changes = self.sizes.changes - old_len;
            proof {
                lemma_remove_keys_seq_push(orig, ks.take(i as int), k);
                assert(ks.take(i + 1) =~= ks.take(i as int).push(k));
            }
            i = i + 1;
        }
        proof {
            assert(ks.take(changes@.len() as int) =~= ks);
        }
        Ok(())
    }

    fn get_document(&self) -> (r: Result<Option<Vec<u8>>, Self::Error>)
        ensures
            r is Ok,
    {
        match &self.document {
            None => Ok(None),
            Some(v) => {
                if v.len() == 0 {
                    Ok(None)
                } else {
                    let c = clone_bytes(v.as_slice());
                    proof {
                        lemma_bytes_deep_view(c);
                    }
                    Ok(Some(c))
                }
            },
        }
    }

    fn set_document(&mut self, data: Vec<u8>) -> (r: Result<(), Self::Error>)
        ensures
            r is Ok,
    {
        self.sizes.document = data.len() as u64;
        self.document = Some(data);
        Ok(())
    }

    fn get_sync_state(&self, peer_id: &[u8]) -> (r: Result<Option<Vec<u8>>, Self::Error>)
        ensures
            r is Ok,
    {
        let r = self.sync_states.get(peer_id);
        proof {
            match &r {
                Some(v) => lemma_bytes_deep_view(*v),
                None => (),
            }
        }
        Ok(r)
    }

    fn set_sync_state(&mut self, peer_id: Vec<u8>, sync_state: Vec<u8>) -> (r: Result<
        (),
        Self::Error,
    >)
        ensures
            r is Ok,
    {
        proof {
            self.sync_states.lemma_view();
            lemma_upsert_bytes(self.sync_states@, peer_id@, sync_state@);
        }
        let new_len: u64 = sync_state.len() as u64;
        let old_v = self.sync_states.upsert(peer_id, sync_state);
        let old_len: u64 = match &old_v {
            Some(v) => v.len() as u64,
            None => 0,
        };
        self.sizes.sync_states = self.sizes.sync_states - old_len + new_len;
        Ok(())
    }

    fn remove_sync_states(&mut self, peer_ids: &[Vec<u8>]) -> (r: Result<(), Self::Error>)
        ensures
            r is Ok,
    {
        let ghost orig = self@.sync_states;
        let ghost ks = peer_ids.deep_view();
        proof {
            self.sync_states.lemma_view();
            assert(ks.take(0) =~= Seq::<Seq<u8>>::empty());
        }
        let mut i: usize = 0;
        while i < peer_ids.len()
            invariant
                i <= peer_ids@.len(),
                ks == peer_ids.deep_view(),
                ks.len() == peer_ids@.len(),
                self.sync_states.wf(),
                self.sync_states@ == crate::model::remove_keys_seq(orig, ks.take(i as int)),
                self.sync_states@.dom().finite(),
                self.sizes.sync_states == stored_bytes(self.sync_states@),
                self.document == old(self).document,
                self.changes == old(self).changes,
                self.sizes.document == old(self).sizes.document,
                self.sizes.changes == old(self).sizes.changes,
            decreases peer_ids@.len() - i,
        {
            let ghost pre = self.sync_states@;
            let ghost k = ks[i as int];
            proof {
                lemma_bytes_deep_view(peer_ids@[i as int]);
                assert(k == peer_ids@[i as int]@);
                lemma_remove_bytes(pre, k);
            }
            let old_v = self.sync_states.remove_key(peer_ids[i].as_slice());
            let old_len: u64 = match &old_v {
                Some(v) => v.len() as u64,
                None => 0,
            };
            self.sizes.sync_states = self.sizes.sync_states - old_len;
            proof {
                lemma_remove_keys_seq_push(orig, ks.take(i as int), k);
                assert(ks.take(i + 1) =~= ks.take(i as int).push(k));
            }
            i = i + 1;
        }
        proof {
            assert(ks.take(peer_ids@.len() as int) =~= ks);
        }
        Ok(())
    }

    fn get_peer_ids(&self) -> (r: Result<Vec<Vec<u8>>, Self::Error>)
        ensures
            r is Ok,
    {
        let r = self.sync_states.keys();
        proof {
            assert(r.deep_view().to_set() =~= self.sync_states@.dom());
        }
        Ok(r)
    }

    fn sizes(&self) -> (s: StoredSizes) {
        self.sizes
    }

    fn flush(&mut self) -> (r: Result<usize, Self::Error>)
        ensures
            r is Ok,
    {
        Ok(0)
    }
}

} // verus!
