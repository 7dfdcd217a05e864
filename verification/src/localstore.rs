//! A persister for whole-value slot storage, such as the browser's local
//! storage.
//!
//! That medium can only get and set one string per named slot — no partial
//! writes, no scans — so this backend keeps the change and sync-state
//! regions fully in memory and re-serializes a whole region as one JSON
//! blob whenever it must be written out. The embedding application reads
//! the slots at start-up, hands the blobs to [`LocalStoragePersister::new`],
//! and writes [`LocalStoragePersister::changes_blob`] and its siblings back
//! to the medium after each mutation.

use vstd::prelude::*;

verus! {

use crate::blobstore::BlobStore;
use crate::changestore::ChangeStore;
use crate::keys::{clone_bytes, lemma_bytes_deep_view};
use crate::model::{ChangeRecord, batch_bytes, doc_bytes, lemma_remove_bytes, pairs_bytes,
    lemma_remove_keys_seq_push, lemma_stored_empty, lemma_upsert_bytes, lemma_upsert_changes_push,
    stored_bytes, upsert_changes, upsert_blobs};
use crate::persister::{Persister, PersisterView};
use crate::sizes::StoredSizes;

/// Errors of the whole-value slot backend.
#[derive(Debug)]
pub enum LocalStoragePersisterError {
    /// A stored blob did not parse, or a region did not serialize.
    SerdeError(serde_json::Error),
    /// The stored regions would overflow the 64-bit size counters.
    SizeLimitExceeded,
}

/// The JSON text of a list of change records. It depends on the records
/// alone, so equal stores serialize equally on every machine.
pub uninterp spec fn json_of_records(rs: Seq<ChangeRecord>) -> Seq<char>;

/// The JSON text of a list of key/blob pairs.
pub uninterp spec fn json_of_pairs(ps: Seq<(Seq<u8>, Seq<u8>)>) -> Seq<char>;

/// The JSON text of one byte blob.
pub uninterp spec fn json_of_bytes(bs: Seq<u8>) -> Seq<char>;

/// A serde_json error: the error type of the JSON codec.
#[verifier::external_type_specification]
#[verifier::external_body]
pub struct ExSerdeJsonError(serde_json::Error);

/// Relies on serde_json::to_string: the JSON text of a record list, a
/// function of the records alone. Serializing lists, tuples and integers
/// cannot fail, so the result is always the text.
#[verifier::external_body]
fn records_to_json(entries: &Vec<(Vec<u8>, u64, Vec<u8>)>) -> (r: Result<String, serde_json::Error>)
    ensures
        r is Ok,
        r matches Ok(s) ==> s@ == json_of_records(entries.deep_view()),
{
    serde_json::to_string(entries)
}

/// Relies on serde_json::from_str: decoding the JSON text of a record list
/// yields exactly that list.
#[verifier::external_body]
fn records_from_json(s: &str) -> (r: Result<Vec<(Vec<u8>, u64, Vec<u8>)>, serde_json::Error>)
    ensures
        (exists|rs: Seq<ChangeRecord>| s@ == json_of_records(rs)) ==> r is Ok,
        r matches Ok(v) ==> forall|rs: Seq<ChangeRecord>|
            s@ == json_of_records(rs) ==> v.deep_view() == rs,
{
    serde_json::from_str(s)
}

/// Relies on serde_json::to_string: the JSON text of a pair list, a
/// function of the pairs alone. Serializing lists, tuples and integers
/// cannot fail, so the result is always the text.
#[verifier::external_body]
fn pairs_to_json(entries: &Vec<(Vec<u8>, Vec<u8>)>) -> (r: Result<String, serde_json::Error>)
    ensures
        r is Ok,
        r matches Ok(s) ==> s@ == json_of_pairs(entries.deep_view()),
{
    serde_json::to_string(entries)
}

/// Relies on serde_json::from_str: decoding the JSON text of a pair list
/// yields exactly that list.
#[verifier::external_body]
fn pairs_from_json(s: &str) -> (r: Result<Vec<(Vec<u8>, Vec<u8>)>, serde_json::Error>)
    ensures
        (exists|ps: Seq<(Seq<u8>, Seq<u8>)>| s@ == json_of_pairs(ps)) ==> r is Ok,
        r matches Ok(v) ==> forall|ps: Seq<(Seq<u8>, Seq<u8>)>|
            s@ == json_of_pairs(ps) ==> v.deep_view() == ps,
{
    serde_json::from_str(s)
}

/// Relies on serde_json::to_string: the JSON text of one blob, a function
/// of its bytes alone. Serializing a list of integers cannot fail, so the
/// result is always the text.
#[verifier::external_body]
fn bytes_to_json(data: &Vec<u8>) -> (r: Result<String, serde_json::Error>)
    ensures
        r is Ok,
        r matches Ok(s) ==> s@ == json_of_bytes(data.deep_view()),
{
    serde_json::to_string(data)
}

/// Relies on serde_json::from_str: decoding the JSON text of a blob yields
/// exactly that blob.
#[verifier::external_body]
fn bytes_from_json(s: &str) -> (r: Result<Vec<u8>, serde_json::Error>)
    ensures
        (exists|bs: Seq<u8>| s@ == json_of_bytes(bs)) ==> r is Ok,
        r matches Ok(v) ==> forall|bs: Seq<u8>| s@ == json_of_bytes(bs) ==> v.deep_view() == bs,
{
    serde_json::from_str(s)
}

/// A persister that keeps both keyed regions in memory and serializes each
/// one as a single JSON blob for a whole-value storage medium.
pub struct LocalStoragePersister {
    changes: ChangeStore,
    document: Option<Vec<u8>>,
    sync_states: BlobStore,
    sizes: StoredSizes,
}

impl View for LocalStoragePersister {
    type V = PersisterView;

    closed spec fn view(&self) -> PersisterView {
        PersisterView {
            changes: self.changes@,
            document: self.document.deep_view(),
            sync_states: self.sync_states@,
            sizes: self.sizes,
        }
    }
}

impl LocalStoragePersister {
    /// Rebuilds the persister from the stored blobs, if any: each region is
    /// parsed from its JSON text and the size counters are recomputed from
    /// the parsed contents, so they are accurate immediately. Fails if a
    /// blob does not parse or the stored bytes overflow the counters.
    pub fn new(
        changes_json: Option<String>,
        sync_states_json: Option<String>,
        document_json: Option<String>,
    ) -> (r: Result<Self, LocalStoragePersisterError>)
        ensures
            r matches Ok(p) ==> p.inv() && {
                &&& changes_json is None ==> p@.changes == Map::<
                    crate::model::ChangeKey,
                    Seq<u8>,
                >::empty()
                &&& forall|rs: Seq<ChangeRecord>|
                    (changes_json matches Some(cs) && cs@ == json_of_records(rs)) ==> p@.changes
                        == upsert_changes(Map::empty(), rs)
                &&& sync_states_json is None ==> p@.sync_states == Map::<Seq<u8>, Seq<u8>>::empty()
                &&& forall|ps: Seq<(Seq<u8>, Seq<u8>)>|
                    (sync_states_json matches Some(ss) && ss@ == json_of_pairs(ps))
                        ==> p@.sync_states == upsert_blobs(Map::empty(), ps)
                &&& document_json is None ==> p@.document is None
                &&& forall|bs: Seq<u8>|
                    (document_json matches Some(ds) && ds@ == json_of_bytes(bs)) ==> p@.document
                        == Some(bs)
            },
            ({
                &&& changes_json matches Some(cs) ==> exists|rs: Seq<ChangeRecord>|
                    cs@ == json_of_records(rs) && batch_bytes(rs) <= u64::MAX
                &&& sync_states_json matches Some(ss) ==> exists|ps: Seq<(Seq<u8>, Seq<u8>)>|
                    ss@ == json_of_pairs(ps) && pairs_bytes(ps) <= u64::MAX
                &&& document_json matches Some(ds) ==> exists|bs: Seq<u8>| ds@ == json_of_bytes(bs)
            }) ==> r is Ok,
    {
        let mut out = LocalStoragePersister {
            changes: ChangeStore::new(),
            document: None,
            sync_states: BlobStore::new(),
            sizes: StoredSizes { changes: 0, document: 0, sync_states: 0 },
        };
        proof {
            lemma_stored_empty::<crate::model::ChangeKey, Seq<u8>>();
            lemma_stored_empty::<Seq<u8>, Seq<u8>>();
        }
        match &changes_json {
            None => (),
            Some(cs) => {
                let parsed = match records_from_json(cs.as_str()) {
                    Ok(v) => v,
                    Err(e) => {
                        proof {
                            if exists|rs2: Seq<ChangeRecord>|
                                cs@ == json_of_records(rs2) && batch_bytes(rs2) <= u64::MAX {
                                let rs2 = choose|rs2: Seq<ChangeRecord>|
                                    cs@ == json_of_records(rs2) && batch_bytes(rs2) <= u64::MAX;
                                assert(cs@ == json_of_records(rs2));
                            }
                        }
                        return Err(LocalStoragePersisterError::SerdeError(e));
                    },
                };
                let ghost rs = parsed.deep_view();
                proof {
                    if exists|rs2: Seq<ChangeRecord>|
                        cs@ == json_of_records(rs2) && batch_bytes(rs2) <= u64::MAX {
                        let rs2 = choose|rs2: Seq<ChangeRecord>|
                            cs@ == json_of_records(rs2) && batch_bytes(rs2) <= u64::MAX;
                        assert(cs@ == json_of_records(rs2));
                        assert(rs == rs2);
                    }
                }
                let mut i: usize = 0;
                proof {
                    assert(rs.take(0) =~= Seq::<ChangeRecord>::empty());
                }
                while i < parsed.len()
                    invariant
                        i <= parsed@.len(),
                        rs == parsed.deep_view(),
                        rs.len() == parsed@.len(),
                        out.changes.wf(),
                        out.changes@ == upsert_changes(Map::empty(), rs.take(i as int)),
                        out.changes@.dom().finite(),
                        out.sizes.changes == stored_bytes(out.changes@),
                        out.document is None,
                        out.sync_states@ == Map::<Seq<u8>, Seq<u8>>::empty(),
                        out.sync_states.wf(),
                        out.sizes.document == 0,
                        out.sizes.sync_states == 0,
                        stored_bytes(out.changes@) <= batch_bytes(rs.take(i as int)),
                        changes_json == Option::Some(*cs),
                        (exists|rs2: Seq<ChangeRecord>|
                            cs@ == json_of_records(rs2) && batch_bytes(rs2) <= u64::MAX)
                            ==> batch_bytes(rs) <= u64::MAX,
                    decreases parsed@.len() - i,
                {
                    let ghost pre = out.changes@;
                    let e = &parsed[i];
                    let a = clone_bytes(e.0.as_slice());
                    let d = clone_bytes(e.2.as_slice());
                    let ghost rec = rs[i as int];
                    proof {
                        lemma_bytes_deep_view(parsed@[i as int].0);
                        lemma_bytes_deep_view(parsed@[i as int].2);
                        assert(rec == ((a@, e.1, d@)));
                        lemma_upsert_bytes(pre, (rec.0, rec.1), rec.2);
                    }
                    let new_len: u64 = d.len() as u64;
                    let sn = e.1;
                    let old_v = out.changes.upsert(a, sn, d);
                    let old_len: u64 = match &old_v {
                        Some(v) => v.len() as u64,
                        None => 0,
                    };
                    proof {
                        assert(rs.take(i + 1) =~= rs.take(i as int).push(rec));
                        crate::model::lemma_batch_bytes_push(rs.take(i as int), rec);
                    }
                    let reduced = out.sizes.changes - old_len;
                    if new_len > u64::MAX - reduced {
                        proof {
                            if exists|rs2: Seq<ChangeRecord>|
                                cs@ == json_of_records(rs2) && batch_bytes(rs2) <= u64::MAX {
                                assert(batch_bytes(rs) <= u64::MAX);
                                crate::model::lemma_batch_bytes_split(rs, i + 1);
                                assert(batch_bytes(rs.take(i + 1)) <= batch_bytes(rs));
                                assert(stored_bytes(out.changes@) == stored_bytes(pre) - old_len
                                    + new_len);
                                assert(stored_bytes(pre) <= batch_bytes(rs.take(i as int)));
                                assert(stored_bytes(out.changes@) <= batch_bytes(rs.take(i + 1)));
                                assert(stored_bytes(out.changes@) > u64::MAX);
                                assert(false);
                            }
                        }
                        return Err(LocalStoragePersisterError::SizeLimitExceeded);
                    }
                    out.sizes.changes = reduced + new_len;
                    proof {
                        lemma_upsert_changes_push(Map::empty(), rs.take(i as int), rec);
                    }
                    i = i + 1;
                }
                proof {
                    assert(rs.take(parsed@.len() as int) =~= rs);
                }
            },
        }
        let ghost changes_fixed = out.changes;
        match &sync_states_json {
            None => (),
            Some(ss) => {
                let parsed = match pairs_from_json(ss.as_str()) {
                    Ok(v) => v,
                    Err(e) => {
                        proof {
                            if exists|ps2: Seq<(Seq<u8>, Seq<u8>)>|
                                ss@ == json_of_pairs(ps2) && pairs_bytes(ps2) <= u64::MAX {
                                let ps2 = choose|ps2: Seq<(Seq<u8>, Seq<u8>)>|
                                    ss@ == json_of_pairs(ps2) && pairs_bytes(ps2) <= u64::MAX;
                                assert(ss@ == json_of_pairs(ps2));
                            }
                        }
                        return Err(LocalStoragePersisterError::SerdeError(e));
                    },
                };
                let ghost ps = parsed.deep_view();
                proof {
                    if exists|ps2: Seq<(Seq<u8>, Seq<u8>)>|
                        ss@ == json_of_pairs(ps2) && pairs_bytes(ps2) <= u64::MAX {
                        let ps2 = choose|ps2: Seq<(Seq<u8>, Seq<u8>)>|
                            ss@ == json_of_pairs(ps2) && pairs_bytes(ps2) <= u64::MAX;
                        assert(ss@ == json_of_pairs(ps2));
                        assert(ps == ps2);
                    }
                }
                let mut i: usize = 0;
                proof {
                    assert(ps.take(0) =~= Seq::<(Seq<u8>, Seq<u8>)>::empty());
                }
                while i < parsed.len()
                    invariant
                        i <= parsed@.len(),
                        ps == parsed.deep_view(),
                        ps.len() == parsed@.len(),
                        out.sync_states.wf(),
                        out.sync_states@ == upsert_blobs(Map::empty(), ps.take(i as int)),
                        out.sync_states@.dom().finite(),
                        out.sizes.sync_states == stored_bytes(out.sync_states@),
                        out.document is None,
                        out.changes == changes_fixed,
                        out.changes.wf(),
                        out.sizes.changes == stored_bytes(out.changes@),
                        out.sizes.document == 0,
                        stored_bytes(out.sync_states@) <= pairs_bytes(ps.take(i as int)),
                        sync_states_json == Option::Some(*ss),
                        (exists|ps2: Seq<(Seq<u8>, Seq<u8>)>|
                            ss@ == json_of_pairs(ps2) && pairs_bytes(ps2) <= u64::MAX)
                            ==> pairs_bytes(ps) <= u64::MAX,
                    decreases parsed@.len() - i,
                {
                    let ghost pre = out.sync_states@;
                    let e = &parsed[i];
                    let k = clone_bytes(e.0.as_slice());
                    let d = clone_bytes(e.1.as_slice());
                    let ghost pr = ps[i as int];
                    proof {
                        lemma_bytes_deep_view(parsed@[i as int].0);
                        lemma_bytes_deep_view(parsed@[i as int].1);
                        assert(pr == ((k@, d@)));
                        lemma_upsert_bytes(pre, pr.0, pr.1);
                    }
                    let new_len: u64 = d.len() as u64;
                    let old_v = out.sync_states.upsert(k, d);
                    let old_len: u64 = match &old_v {
                        Some(v) => v.len() as u64,
                        None => 0,
                    };
                    proof {
                        assert(ps.take(i + 1) =~= ps.take(i as int).push(pr));
                        crate::model::lemma_pairs_bytes_push(ps.take(i as int), pr);
                    }
                    let reduced = out.sizes.sync_states - old_len;
                    if new_len > u64::MAX - reduced {
                        proof {
                            if exists|ps2: Seq<(Seq<u8>, Seq<u8>)>|
                                ss@ == json_of_pairs(ps2) && pairs_bytes(ps2) <= u64::MAX {
                                assert(pairs_bytes(ps) <= u64::MAX);
                                crate::model::lemma_pairs_bytes_split(ps, i + 1);
                                assert(pairs_bytes(ps.take(i + 1)) <= pairs_bytes(ps));
                                assert(stored_bytes(out.sync_states@) == stored_bytes(pre)
                                    - old_len + new_len);
                                assert(stored_bytes(pre) <= pairs_bytes(ps.take(i as int)));
                                assert(stored_bytes(out.sync_states@) <= pairs_bytes(
                                    ps.take(i + 1),
                                ));
                                assert(stored_bytes(out.sync_states@) > u64::MAX);
                                assert(false);
                            }
                        }
                        return Err(LocalStoragePersisterError::SizeLimitExceeded);
                    }
                    out.sizes.sync_states = reduced + new_len;
                    proof {
                        crate::model::lemma_upsert_blobs_push(Map::empty(), ps.take(i as int), pr);
                    }
                    i = i + 1;
                }
                proof {
                    assert(ps.take(parsed@.len() as int) =~= ps);
                }
            },
        }
        match &document_json {
            None => (),
            Some(ds) => {
                let parsed = match bytes_from_json(ds.as_str()) {
                    Ok(v) => v,
                    Err(e) => {
                        proof {
                            if exists|bs: Seq<u8>| ds@ == json_of_bytes(bs) {
                                let bs = choose|bs: Seq<u8>| ds@ == json_of_bytes(bs);
                                assert(ds@ == json_of_bytes(bs));
                            }
                        }
                        return Err(LocalStoragePersisterError::SerdeError(e));
                    },
                };
                proof {
                    lemma_bytes_deep_view(parsed);
                }
                out.sizes.document = parsed.len() as u64;
                out.document = Some(parsed);
            },
        }
        Ok(out)
    }

    /// Whether a change record is stored under `(actor, sn)` — so a caller
    /// can tell whether a removal will change anything before rewriting the
    /// whole changes slot.
    pub fn contains_change(&self, actor: &[u8], sn: u64) -> (r: bool)
        requires
            self.inv(),
        ensures
            r == self@.changes.contains_key((actor@, sn)),
    {
        match self.changes.get(actor, sn) {
            Some(_) => true,
            None => false,
        }
    }

    /// The change region as one JSON blob, ready for its storage slot.
    pub fn changes_blob(&self) -> (r: Result<String, LocalStoragePersisterError>)
        ensures
            r is Ok,
            r matches Ok(s) ==> s@ == json_of_records(self.records_view()),
    {
        let recs = self.changes.records();
        match records_to_json(&recs) {
            Ok(s) => Ok(s),
            Err(e) => Err(LocalStoragePersisterError::SerdeError(e)),
        }
    }

    /// The sync-state region as one JSON blob, ready for its storage slot.
    pub fn sync_states_blob(&self) -> (r: Result<String, LocalStoragePersisterError>)
        ensures
            r is Ok,
            r matches Ok(s) ==> s@ == json_of_pairs(self.pairs_view()),
    {
        let prs = self.sync_states.pairs();
        match pairs_to_json(&prs) {
            Ok(s) => Ok(s),
            Err(e) => Err(LocalStoragePersisterError::SerdeError(e)),
        }
    }

    /// The document as one JSON blob, or nothing when no document is set.
    pub fn document_blob(&self) -> (r: Result<Option<String>, LocalStoragePersisterError>)
        ensures
            r is Ok,
            r matches Ok(d) ==> match d {
                Some(s) => self@.document matches Some(bs) && s@ == json_of_bytes(bs),
                None => self@.document is None,
            },
    {
        match &self.document {
            None => Ok(None),
            Some(data) => {
                proof {
                    lemma_bytes_deep_view(*data);
                }
                match bytes_to_json(data) {
                    Ok(s) => Ok(Some(s)),
                    Err(e) => Err(LocalStoragePersisterError::SerdeError(e)),
                }
            },
        }
    }

    /// The stored change records, as plain values.
    pub closed spec fn records_view(self) -> Seq<ChangeRecord> {
        self.changes.records_view()
    }

    /// The stored sync-state pairs, as plain values.
    pub closed spec fn pairs_view(self) -> Seq<(Seq<u8>, Seq<u8>)> {
        self.sync_states.pairs_view()
    }

    /// The blobs name exactly the stored regions: parsing what
    /// [`Self::changes_blob`] and [`Self::sync_states_blob`] serialize
    /// rebuilds exactly this persister's stored maps, so a store-and-reload
    /// round trip loses nothing.
    pub proof fn lemma_blob_round_trip(&self)
        requires
            self.inv(),
        ensures
            upsert_changes(Map::empty(), self.records_view()) == self@.changes,
            upsert_blobs(Map::empty(), self.pairs_view()) == self@.sync_states,
    {
        self.changes.lemma_view();
        self.sync_states.lemma_view();
    }
}

impl Persister for LocalStoragePersister {
    type Error = LocalStoragePersisterError;

    closed spec fn inv(&self) -> bool {
        &&& self.changes.wf()
        &&& self.sync_states.wf()
        &&& self.sizes.changes == stored_bytes(self.changes@)
        &&& self.sizes.document == doc_bytes(self.document.deep_view())
        &&& self.sizes.sync_states == stored_bytes(self.sync_states@)
    }

    proof fn lemma_inv(&self) {
        self.changes.lemma_view();
        self.sync_states.lemma_view();
    }

    fn get_changes(&self) -> (r: Result<Vec<Vec<u8>>, Self::Error>)
        ensures
            r is Ok,
    {
        Ok(self.changes.values())
    }

    fn insert_changes(&mut self, changes: Vec<(Vec<u8>, u64, Vec<u8>)>) -> (r: Result<
        (),
        Self::Error,
    >)
        ensures
            r is Ok,
    {
        let ghost orig = self@.changes;
        let ghost batch = changes.deep_view();
        proof {
            self.changes.lemma_view();
            assert(batch.take(0) =~= Seq::<ChangeRecord>::empty());
            assert(batch.skip(0) =~= batch);
        }
        let mut i: usize = 0;
        while i < changes.len()
            invariant
                i <= changes@.len(),
                batch == changes.deep_view(),
                batch.len() == changes@.len(),
                self.changes.wf(),
                self.changes@ == upsert_changes(orig, batch.take(i as int)),
                self.changes@.dom().finite(),
                self.sizes.changes == stored_bytes(self.changes@),
                stored_bytes(self.changes@) + batch_bytes(batch.skip(i as int)) <= u64::MAX,
                self.document == old(self).document,
                self.sync_states == old(self).sync_states,
                self.sizes.document == old(self).sizes.document,
                self.sizes.sync_states == old(self).sizes.sync_states,
            decreases changes@.len() - i,
        {
            let ghost pre = self.changes@;
            let e = &changes[i];
            let a = clone_bytes(e.0.as_slice());
            let d = clone_bytes(e.2.as_slice());
            let ghost rec = batch[i as int];
            proof {
                lemma_bytes_deep_view(changes@[i as int].0);
                lemma_bytes_deep_view(changes@[i as int].2);
                assert(rec == ((a@, e.1, d@)));
                assert(batch.skip(i as int)[0] == rec);
                assert(batch.skip(i as int).drop_first() =~= batch.skip(i + 1));
                assert(batch_bytes(batch.skip(i as int)) == rec.2.len() + batch_bytes(
                    batch.skip(i + 1),
                ));
                lemma_upsert_bytes(pre, (rec.0, rec.1), rec.2);
            }
            let new_len: u64 = d.len() as u64;
            let sn = e.1;
            let old_v = self.changes.upsert(a, sn, d);
            let old_len: u64 = match &old_v {
                Some(v) => v.len() as u64,
                None => 0,
            };
            self.sizes.changes = self.sizes.changes - old_len + new_len;
            proof {
                lemma_upsert_changes_push(orig, batch.take(i as int), rec);
                assert(batch.take(i + 1) =~= batch.take(i as int).push(rec));
            }
            i = i + 1;
        }
        proof {
            assert(batch.take(changes@.len() as int) =~= batch);
            assert(batch.skip(changes@.len() as int) =~= Seq::<ChangeRecord>::empty());
        }
        Ok(())
    }

    fn remove_changes(&mut self, changes: Vec<(Vec<u8>, u64)>) -> (r: Result<(), Self::Error>)
        ensures
            r is Ok,
    {
        let ghost orig = self@.changes;
        let ghost ks = changes.deep_view();
        proof {
            self.changes.lemma_view();
            assert(ks.take(0) =~= Seq::<crate::model::ChangeKey>::empty());
        }
        let mut i: usize = 0;
        while i < changes.len()
            invariant
                i <= changes@.len(),
                ks == changes.deep_view(),
                ks.len() == changes@.len(),
                self.changes.wf(),
                self.changes@ == crate::model::remove_keys_seq(orig, ks.take(i as int)),
                self.changes@.dom().finite(),
                self.sizes.changes == stored_bytes(self.changes@),
                self.document == old(self).document,
                self.sync_states == old(self).sync_states,
                self.sizes.document == old(self).sizes.document,
                self.sizes.sync_states == old(self).sizes.sync_states,
            decreases changes@.len() - i,
        {
            let ghost pre = self.changes@;
            let e = &changes[i];
            let ghost k = ks[i as int];
            proof {
                lemma_bytes_deep_view(changes@[i as int].0);
                assert(k == ((e.0@, e.1)));
                lemma_remove_bytes(pre, k);
            }
            let old_v = self.changes.remove_key(e.0.as_slice(), e.1);
            let old_len: u64 = match &old_v {
                Some(v) => v.len() as u64,
                None => 0,
            };
            self.sizes.changes = self.sizes.changes - old_len;
            proof {
                lemma_remove_keys_seq_push(orig, ks.take(i as int), k);
                assert(ks.take(i + 1) =~= ks.take(i as int).push(k));
            }
            i = i + 1;
        }
        proof {
            assert(ks.take(changes@.len() as int) =~= ks);
        }
        Ok(())
    }

    fn get_document(&self) -> (r: Result<Option<Vec<u8>>, Self::Error>)
        ensures
            r is Ok,
    {
        match &self.document {
            None => Ok(None),
            Some(v) => {
                if v.len() == 0 {
                    Ok(None)
                } else {
                    let c = clone_bytes(v.as_slice());
                    proof {
                        lemma_bytes_deep_view(c);
                    }
                    Ok(Some(c))
                }
            },
        }
    }

    fn set_document(&mut self, data: Vec<u8>) -> (r: Result<(), Self::Error>)
        ensures
            r is Ok,
    {
        self.sizes.document = data.len() as u64;
        self.document = Some(data);
        Ok(())
    }

    fn get_sync_state(&self, peer_id: &[u8]) -> (r: Result<Option<Vec<u8>>, Self::Error>)
        ensures
            r is Ok,
    {
        let r = self.sync_states.get(peer_id);
        proof {
            match &r {
                Some(v) => lemma_bytes_deep_view(*v),
                None => (),
            }
        }
        Ok(r)
    }

    fn set_sync_state(&mut self, peer_id: Vec<u8>, sync_state: Vec<u8>) -> (r: Result<
        (),
        Self::Error,
    >)
        ensures
            r is Ok,
    {
        proof {
            self.sync_states.lemma_view();
            lemma_upsert_bytes(self.sync_states@, peer_id@, sync_state@);
        }
        let new_len: u64 = sync_state.len() as u64;
        let old_v = self.sync_states.upsert(peer_id, sync_state);
        let old_len: u64 = match &old_v {
            Some(v) => v.len() as u64,
            None => 0,
        };
        self.sizes.sync_states = self.sizes.sync_states - old_len + new_len;
        Ok(())
    }

    fn remove_sync_states(&mut self, peer_ids: &[Vec<u8>]) -> (r: Result<(), Self::Error>)
        ensures
            r is Ok,
    {
        let ghost orig = self@.sync_states;
        let ghost ks = peer_ids.deep_view();
        proof {
            self.sync_states.lemma_view();
            assert(ks.take(0) =~= Seq::<Seq<u8>>::empty());
        }
        let mut i: usize = 0;
        while i < peer_ids.len()
            invariant
                i <= peer_ids@.len(),
                ks == peer_ids.deep_view(),
                ks.len() == peer_ids@.len(),
                self.sync_states.wf(),
                self.sync_states@ == crate::model::remove_keys_seq(orig, ks.take(i as int)),
                self.sync_states@.dom().finite(),
                self.sizes.sync_states == stored_bytes(self.sync_states@),
                self.document == old(self).document,
                self.changes == old(self).changes,
                self.sizes.document == old(self).sizes.document,
                self.sizes.changes == old(self).sizes.changes,
            decreases peer_ids@.len() - i,
        {
            let ghost pre = self.sync_states@;
            let ghost k = ks[i as int];
            proof {
                lemma_bytes_deep_view(peer_ids@[i as int]);
                assert(k == peer_ids@[i as int]@);
                lemma_remove_bytes(pre, k);
            }
            let old_v = self.sync_states.remove_key(peer_ids[i].as_slice());
            let old_len: u64 = match &old_v {
                Some(v) => v.len() as u64,
                None => 0,
            };
            self.sizes.sync_states = self.sizes.sync_states - old_len;
            proof {
                lemma_remove_keys_seq_push(orig, ks.take(i as int), k);
                assert(ks.take(i + 1) =~= ks.take(i as int).push(k));
            }
            i = i + 1;
        }
        proof {
            assert(ks.take(peer_ids@.len() as int) =~= ks);
        }
        Ok(())
    }

    fn get_peer_ids(&self) -> (r: Result<Vec<Vec<u8>>, Self::Error>)
        ensures
            r is Ok,
    {
        let r = self.sync_states.keys();
        proof {
            assert(r.deep_view().to_set() =~= self.sync_states@.dom());
        }
        Ok(r)
    }

    fn sizes(&self) -> (s: StoredSizes) {
        self.sizes
    }

    fn flush(&mut self) -> (r: Result<usize, Self::Error>)
        ensures
            r is Ok,
    {
        Ok(0)
    }
}

} // verus!
