//! The write-back cache and file naming of the filesystem backend.
//!
//! The filesystem variant buffers inserted changes, the latest document
//! snapshot and sync-state updates in memory and defers the physical writes
//! until a flush drains the cache. Reads must consult this cache before
//! falling back to disk, so they always see unflushed writes. On disk, a
//! change lives in a file named `hex(actor)-hex(big_endian(seq))` and a
//! sync state in a file named `hex(peer_id)`; the embedding application
//! performs the file I/O itself, with the names and the drained contents
//! this module hands it.

use vstd::prelude::*;

verus! {

use crate::blobstore::BlobStore;
use crate::changestore::ChangeStore;
use crate::keys::{clone_bytes, lemma_bytes_deep_view, spec_be_bytes, be_bytes};
use crate::model::{ChangeKey, ChangeRecord, norm_doc};
use crate::sizes::StoredSizes;

/// The lowercase hex digit of a nibble.
pub open spec fn hex_digit(n: u8) -> char
    recommends
        n < 16,
{
    if n < 10 {
        ((n + 48) as u8) as char
    } else {
        ((n + 87) as u8) as char
    }
}

/// The lowercase hex spelling of a byte string: two digits per byte, high
/// nibble first.
pub open spec fn hex_of(bs: Seq<u8>) -> Seq<char> {
    Seq::new(
        2 * bs.len(),
        |i: int|
            if i % 2 == 0 {
                hex_digit(bs[i / 2] >> 4u8)
            } else {
                hex_digit(bs[i / 2] & 0xf)
            },
    )
}

/// The on-disk file name of a change record.
pub open spec fn spec_change_file_name(actor: Seq<u8>, sn: u64) -> Seq<char> {
    hex_of(actor) + seq!['-'] + hex_of(spec_be_bytes(sn))
}

/// Distinct byte strings have distinct hex spellings, so distinct peers
/// get distinct files.
pub proof fn lemma_hex_of_injective(a: Seq<u8>, b: Seq<u8>)
    requires
        hex_of(a) == hex_of(b),
    ensures
        a == b,
{
    assert(hex_of(a).len() == 2 * a.len());
    assert(hex_of(b).len() == 2 * b.len());
    assert(a.len() == b.len());
    assert forall|i: int| 0 <= i < a.len() implies a[i] == b[i] by {
        let x = a[i];
        let y = b[i];
        assert(hex_of(a)[2 * i] == hex_digit(x >> 4u8));
        assert(hex_of(b)[2 * i] == hex_digit(y >> 4u8));
        assert(hex_of(a)[2 * i + 1] == hex_digit(x & 0xf));
        assert(hex_of(b)[2 * i + 1] == hex_digit(y & 0xf));
        assert(x >> 4u8 < 16 && y >> 4u8 < 16 && (x & 0xf) < 16 && (y & 0xf) < 16) by (bit_vector);
        assert(x >> 4u8 == y >> 4u8 && (x & 0xf) == (y & 0xf));
        assert(x >> 4u8 == y >> 4u8 && (x & 0xf) == (y & 0xf) ==> x == y) by (bit_vector);
    }
    assert(a =~= b);
}

/// A hex decoding error of the hex crate.
#[verifier::external_type_specification]
#[verifier::external_body]
pub struct ExFromHexError(hex::FromHexError);

/// Relies on hex::encode: two lowercase digits per byte, high nibble first.
#[verifier::external_body]
pub fn hex_encode(data: &[u8]) -> (r: String)
    ensures
        r@ == hex_of(data@),
{
    hex::encode(data)
}

/// Relies on hex::decode: it accepts the strings hex::encode produces and
/// returns the bytes they spell, failing on odd lengths and on characters
/// that are no hex digits.
#[verifier::external_body]
pub fn hex_decode(data: &str) -> (r: Result<Vec<u8>, hex::FromHexError>)
    ensures
        (exists|bs: Seq<u8>| data@ == hex_of(bs)) ==> r is Ok,
        r matches Ok(v) ==> forall|bs: Seq<u8>| data@ == hex_of(bs) ==> v@ == bs,
{
    hex::decode(data)
}

/// The file name a change record is stored under.
pub fn change_file_name(actor: &[u8], sn: u64) -> (r: String)
    ensures
        r@ == spec_change_file_name(actor@, sn),
{
    let mut name = hex_encode(actor);
    name.append("-");
    let tail = be_bytes(sn);
    let tail_hex = hex_encode(tail.as_slice());
    name.append(tail_hex.as_str());
    proof {
        reveal_strlit("-");
        assert(("-")@ =~= seq!['-']);
    }
    name
}

/// The file name a peer's sync state is stored under.
pub fn peer_file_name(peer_id: &[u8]) -> (r: String)
    ensures
        r@ == hex_of(peer_id@),
{
    hex_encode(peer_id)
}

/// The peer a sync-state file name spells, read back from its hex name.
pub fn peer_id_of_name(name: &str) -> (r: Result<Vec<u8>, hex::FromHexError>)
    ensures
        (exists|bs: Seq<u8>| name@ == hex_of(bs)) ==> r is Ok,
        r matches Ok(v) ==> forall|bs: Seq<u8>| name@ == hex_of(bs) ==> v@ == bs,
{
    hex_decode(name)
}

/// Treats a zero-length blob read from disk as an absent value, so an
/// empty file is "never set", not a zero-length document.
pub fn normalize_stored(data: Vec<u8>) -> (r: Option<Vec<u8>>)
    ensures
        r.deep_view() == norm_doc(Some(data@)),
{
    if data.len() == 0 {
        None
    } else {
        proof {
            lemma_bytes_deep_view(data);
        }
        Some(data)
    }
}

/// Sums the lengths of a list of scanned blobs, or reports that the total
/// does not fit a 64-bit counter.
pub fn sum_blob_lens(blobs: &Vec<Vec<u8>>) -> (r: Option<u64>)
    ensures
        r matches Some(t) ==> t == crate::model::blob_seq_bytes(blobs.deep_view()),
        r is None ==> crate::model::blob_seq_bytes(blobs.deep_view()) > u64::MAX,
{
    let ghost b = blobs.deep_view();
    proof {
        assert(b.take(0) =~= Seq::<Seq<u8>>::empty());
    }
    let mut acc: u64 = 0;
    let mut i: usize = 0;
    while i < blobs.len()
        invariant
            i <= blobs@.len(),
            b == blobs.deep_view(),
            b.len() == blobs@.len(),
            acc == crate::model::blob_seq_bytes(b.take(i as int)),
        decreases blobs@.len() - i,
    {
        proof {
            lemma_bytes_deep_view(blobs@[i as int]);
            assert(b.take(i + 1) =~= b.take(i as int).push(b[i as int]));
            crate::model::lemma_blob_seq_bytes_push(b.take(i as int), b[i as int]);
        }
        let l = blobs[i].len() as u64;
        if acc > u64::MAX - l {
            proof {
                crate::model::lemma_blob_seq_bytes_split(b, i + 1);
            }
            return None;
        }
        acc = acc + l;
        i = i + 1;
    }
    proof {
        assert(b.take(blobs@.len() as int) =~= b);
    }
    Some(acc)
}

/// Recomputes the three size counters from scanned storage contents — the
/// self-healing step of every backend's construction: counters are accurate
/// immediately after a restart without ever being persisted themselves.
/// Reports failure when the stored bytes do not fit the 64-bit counters.
pub fn healed_sizes(changes: &Vec<Vec<u8>>, document: &Option<Vec<u8>>, sync_states: &Vec<Vec<u8>>) -> (r:
    Option<StoredSizes>)
    ensures
        r matches Some(s) ==> s.changes == crate::model::blob_seq_bytes(changes.deep_view())
            && s.document == crate::model::doc_bytes(document.deep_view()) && s.sync_states
            == crate::model::blob_seq_bytes(sync_states.deep_view()),
        r is None ==> crate::model::blob_seq_bytes(changes.deep_view()) > u64::MAX
            || crate::model::blob_seq_bytes(sync_states.deep_view()) > u64::MAX,
{
    let c = match sum_blob_lens(changes) {
        Some(t) => t,
        None => {
            return None;
        },
    };
    let s = match sum_blob_lens(sync_states) {
        Some(t) => t,
        None => {
            return None;
        },
    };
    let d: u64 = match document {
        None => 0,
        Some(v) => {
            proof {
                lemma_bytes_deep_view(*v);
            }
            v.len() as u64
        },
    };
    Some(StoredSizes { changes: c, document: d, sync_states: s })
}

/// What unstaging a record did to the cache and the running counter.
pub enum UnstageOutcome {
    /// The record was staged: it is gone and the counter moved down by
    /// exactly its length.
    Removed,
    /// Nothing was staged under the key: the caller must look on disk.
    NotStaged,
    /// The staged blob was longer than the counter, which can only mean
    /// the counter was corrupted; nothing changed.
    CounterUnderflow,
}

/// The in-memory staging area of the filesystem backend: writes land here
/// and reads check here before touching the disk.
pub struct FsPersisterCache {
    changes: ChangeStore,
    document: Option<Vec<u8>>,
    sync_states: BlobStore,
}

impl FsPersisterCache {
    /// The cache's keyed regions hold each key at most once.
    pub closed spec fn wf(self) -> bool {
        self.changes.wf() && self.sync_states.wf()
    }

    /// The staged change records.
    pub closed spec fn changes_view(self) -> Map<ChangeKey, Seq<u8>> {
        self.changes@
    }

    /// The staged document snapshot, if one was set since the last drain.
    pub closed spec fn document_view(self) -> Option<Seq<u8>> {
        self.document.deep_view()
    }

    /// The staged sync states.
    pub closed spec fn sync_view(self) -> Map<Seq<u8>, Seq<u8>> {
        self.sync_states@
    }

    /// An empty cache.
    pub fn new() -> (r: Self)
        ensures
            r.wf(),
            r.changes_view() == Map::<ChangeKey, Seq<u8>>::empty(),
            r.document_view() is None,
            r.sync_view() == Map::<Seq<u8>, Seq<u8>>::empty(),
    {
        FsPersisterCache { changes: ChangeStore::new(), document: None, sync_states: BlobStore::new() }
    }

    /// Stages a change record, returning the blob it replaces in the cache,
    /// if any; an already-flushed record with the same key stays on disk
    /// until the next flush overwrites its file.
    pub fn insert_change(&mut self, actor: Vec<u8>, sn: u64, data: Vec<u8>) -> (r: Option<Vec<u8>>)
        requires
            old(self).wf(),
        ensures
            final(self).wf(),
            final(self).changes_view() == old(self).changes_view().insert((actor@, sn), data@),
            final(self).document_view() == old(self).document_view(),
            final(self).sync_view() == old(self).sync_view(),
            match r {
                Some(v) => old(self).changes_view().contains_key((actor@, sn)) && v@ == old(self).changes_view()[(actor@, sn)],
                None => !old(self).changes_view().contains_key((actor@, sn)),
            },
    {
        self.changes.upsert(actor, sn, data)
    }

    /// Unstages a change record, returning its blob when it was staged; a
    /// missing key means the record, if it exists at all, lives on disk and
    /// the caller must delete its file.
    pub fn remove_change(&mut self, actor: &[u8], sn: u64) -> (r: Option<Vec<u8>>)
        requires
            old(self).wf(),
        ensures
            final(self).wf(),
            final(self).changes_view() == old(self).changes_view().remove((actor@, sn)),
            final(self).document_view() == old(self).document_view(),
            final(self).sync_view() == old(self).sync_view(),
            match r {
                Some(v) => old(self).changes_view().contains_key((actor@, sn)) && v@ == old(self).changes_view()[(actor@, sn)],
                None => !old(self).changes_view().contains_key((actor@, sn)),
            },
    {
        self.changes.remove_key(actor, sn)
    }

    /// Stages the document snapshot, replacing any staged one.
    pub fn set_document(&mut self, data: Vec<u8>)
        requires
            old(self).wf(),
        ensures
            final(self).wf(),
            final(self).document_view() == Some(data@),
            final(self).changes_view() == old(self).changes_view(),
            final(self).sync_view() == old(self).sync_view(),
    {
        self.document = Some(data);
    }

    /// Reads the staged document, if one is staged; the caller falls back
    /// to the document file otherwise.
    pub fn get_document(&self) -> (r: Option<Vec<u8>>)
        requires
            self.wf(),
        ensures
            r.deep_view() == self.document_view(),
    {
        match &self.document {
            None => None,
            Some(v) => {
                let c = clone_bytes(v.as_slice());
                proof {
                    lemma_bytes_deep_view(c);
                }
                Some(c)
            },
        }
    }

    /// Stages a peer's sync state, returning the staged state it replaces.
    pub fn set_sync_state(&mut self, peer_id: Vec<u8>, sync_state: Vec<u8>) -> (r: Option<Vec<u8>>)
        requires
            old(self).wf(),
        ensures
            final(self).wf(),
            final(self).sync_view() == old(self).sync_view().insert(peer_id@, sync_state@),
            final(self).changes_view() == old(self).changes_view(),
            final(self).document_view() == old(self).document_view(),
            match r {
                Some(v) => old(self).sync_view().contains_key(peer_id@) && v@ == old(self).sync_view()[peer_id@],
                None => !old(self).sync_view().contains_key(peer_id@),
            },
    {
        self.sync_states.upsert(peer_id, sync_state)
    }

    /// Reads a peer's staged sync state, exactly this peer's; the caller
    /// falls back to the peer's file otherwise.
    pub fn get_sync_state(&self, peer_id: &[u8]) -> (r: Option<Vec<u8>>)
        requires
            self.wf(),
        ensures
            r.deep_view() == self.sync_view().index_opt(peer_id@),
    {
        let r = self.sync_states.get(peer_id);
        proof {
            match &r {
                Some(v) => lemma_bytes_deep_view(*v),
                None => (),
            }
        }
        r
    }

    /// Unstages a peer's sync state, returning it when it was staged; a
    /// missing key means the caller must delete the peer's file instead.
    pub fn remove_sync_state(&mut self, peer_id: &[u8]) -> (r: Option<Vec<u8>>)
        requires
            old(self).wf(),
        ensures
            final(self).wf(),
            final(self).sync_view() == old(self).sync_view().remove(peer_id@),
            final(self).changes_view() == old(self).changes_view(),
            final(self).document_view() == old(self).document_view(),
            match r {
                Some(v) => old(self).sync_view().contains_key(peer_id@) && v@ == old(self).sync_view()[peer_id@],
                None => !old(self).sync_view().contains_key(peer_id@),
            },
    {
        self.sync_states.remove_key(peer_id)
    }

    /// Drains the cache: empties it and hands the caller everything that
    /// was staged — exactly the staged records, the staged snapshot and the
    /// staged sync states — for writing out.
    pub fn drain(&mut self) -> (r: (Vec<(Vec<u8>, u64, Vec<u8>)>, Option<Vec<u8>>, Vec<
        (Vec<u8>, Vec<u8>),
    >))
        requires
            old(self).wf(),
        ensures
            final(self).wf(),
            final(self).changes_view() == Map::<ChangeKey, Seq<u8>>::empty(),
            final(self).document_view() is None,
            final(self).sync_view() == Map::<Seq<u8>, Seq<u8>>::empty(),
            r.0.deep_view() == old(self).changes_records(),
            r.1.deep_view() == old(self).document_view(),
            r.2.deep_view() == old(self).sync_pairs(),
    {
        let recs = self.changes.drain_records();
        let doc = self.take_document();
        let pairs = self.sync_states.drain_pairs();
        (recs, doc, pairs)
    }

    /// The staged change records as plain values, in staging order.
    pub closed spec fn changes_records(self) -> Seq<ChangeRecord> {
        self.changes.records_view()
    }

    /// The staged sync states as plain values, in staging order.
    pub closed spec fn sync_pairs(self) -> Seq<(Seq<u8>, Seq<u8>)> {
        self.sync_states.pairs_view()
    }

    /// The records and pairs a drain hands out rebuild exactly the staged
    /// maps, so draining loses nothing.
    pub proof fn lemma_drain_exact(self)
        requires
            self.wf(),
        ensures
            crate::model::upsert_changes(Map::empty(), self.changes_records())
                == self.changes_view(),
            crate::model::upsert_blobs(Map::empty(), self.sync_pairs()) == self.sync_view(),
    {
        self.changes.lemma_view();
        self.sync_states.lemma_view();
    }

    /// Stages a change record and moves the changes counter by exactly the
    /// new length minus the length of any blob it replaces in the cache —
    /// the whole compute side of the filesystem variant's insert. Refuses
    /// (changing nothing) only when the counter arithmetic would leave the
    /// 64-bit range.
    pub fn insert_change_accounted(
        &mut self,
        sizes: &mut StoredSizes,
        actor: Vec<u8>,
        sn: u64,
        data: Vec<u8>,
    ) -> (r: bool)
        requires
            old(self).wf(),
        ensures
            ({
                let staged = if old(self).changes_view().contains_key((actor@, sn)) {
                    old(self).changes_view()[(actor@, sn)].len()
                } else {
                    0
                };
                &&& r <==> staged <= old(sizes).changes && old(sizes).changes - staged
                    + data@.len() <= u64::MAX
                &&& r ==> final(self).wf() && final(self).changes_view() == old(self).changes_view().insert((actor@, sn), data@) && final(self).document_view() == old(self).document_view() && final(self).sync_view() == old(self).sync_view() && final(sizes).changes == old(sizes).changes - staged + data@.len() && final(sizes).document
                    == old(sizes).document && final(sizes).sync_states == old(sizes).sync_states
                &&& !r ==> *final(self) == *old(self) && *final(sizes) == *old(sizes)
            }),
    {
        let old_len: u64 = match self.changes.get(actor.as_slice(), sn) {
            Some(v) => v.len() as u64,
            None => 0,
        };
        if sizes.changes < old_len {
            return false;
        }
        let reduced = sizes.changes - old_len;
        if (data.len() as u64) > u64::MAX - reduced {
            return false;
        }
        let new_len: u64 = data.len() as u64;
        let _ = self.changes.upsert(actor, sn, data);
        sizes.changes = reduced + new_len;
        true
    }

    /// Unstages a change record, moving the counter down by exactly its
    /// staged length when it was staged; when it was not, the caller must
    /// delete the record's file and account for its on-disk length itself.
    pub fn remove_change_accounted(
        &mut self,
        sizes: &mut StoredSizes,
        actor: &[u8],
        sn: u64,
    ) -> (r: UnstageOutcome)
        requires
            old(self).wf(),
        ensures
            final(self).wf(),
            final(sizes).document == old(sizes).document,
            final(sizes).sync_states == old(sizes).sync_states,
            match r {
                UnstageOutcome::Removed => old(self).changes_view().contains_key((actor@, sn))
                    && final(self).changes_view() == old(self).changes_view().remove((actor@, sn))
                    && final(sizes).changes == old(sizes).changes - old(self).changes_view()[
                    (actor@, sn)
                ].len() && final(self).document_view() == old(self).document_view() && final(self).sync_view() == old(self).sync_view(),
                UnstageOutcome::NotStaged => !old(self).changes_view().contains_key((actor@, sn))
                    && *final(self) == *old(self) && *final(sizes) == *old(sizes),
                UnstageOutcome::CounterUnderflow => old(self).changes_view().contains_key(
                    (actor@, sn),
                ) && old(self).changes_view()[(actor@, sn)].len() > old(sizes).changes && *final(self) == *old(self) && *final(sizes) == *old(sizes),
            },
    {
        let old_len: u64 = match self.changes.get(actor, sn) {
            Some(v) => v.len() as u64,
            None => {
                return UnstageOutcome::NotStaged;
            },
        };
        if sizes.changes < old_len {
            return UnstageOutcome::CounterUnderflow;
        }
        let _ = self.changes.remove_key(actor, sn);
        sizes.changes = sizes.changes - old_len;
        UnstageOutcome::Removed
    }

    /// Stages the document snapshot and replaces — never accumulates — the
    /// document counter, since there is exactly one document slot.
    pub fn set_document_accounted(&mut self, sizes: &mut StoredSizes, data: Vec<u8>)
        requires
            old(self).wf(),
        ensures
            final(self).wf(),
            final(self).document_view() == Some(data@),
            final(self).changes_view() == old(self).changes_view(),
            final(self).sync_view() == old(self).sync_view(),
            final(sizes).document == data@.len(),
            final(sizes).changes == old(sizes).changes,
            final(sizes).sync_states == old(sizes).sync_states,
    {
        sizes.document = data.len() as u64;
        self.document = Some(data);
    }

    /// Stages a peer's sync state and moves the sync counter by exactly
    /// the new length minus the length of any staged state it replaces.
    /// Refuses (changing nothing) only when the counter arithmetic would
    /// leave the 64-bit range.
    pub fn set_sync_state_accounted(
        &mut self,
        sizes: &mut StoredSizes,
        peer_id: Vec<u8>,
        sync_state: Vec<u8>,
    ) -> (r: bool)
        requires
            old(self).wf(),
        ensures
            ({
                let staged = if old(self).sync_view().contains_key(peer_id@) {
                    old(self).sync_view()[peer_id@].len()
                } else {
                    0
                };
                &&& r <==> staged <= old(sizes).sync_states && old(sizes).sync_states - staged
                    + sync_state@.len() <= u64::MAX
                &&& r ==> final(self).wf() && final(self).sync_view() == old(self).sync_view().insert(peer_id@, sync_state@) && final(self).changes_view() == old(self).changes_view() && final(self).document_view() == old(self).document_view()
                    && final(sizes).sync_states == old(sizes).sync_states - staged
                    + sync_state@.len() && final(sizes).changes == old(sizes).changes && final(sizes).document == old(sizes).document
                &&& !r ==> *final(self) == *old(self) && *final(sizes) == *old(sizes)
            }),
    {
        let old_len: u64 = match self.sync_states.get(peer_id.as_slice()) {
            Some(v) => v.len() as u64,
            None => 0,
        };
        if sizes.sync_states < old_len {
            return false;
        }
        let reduced = sizes.sync_states - old_len;
        if (sync_state.len() as u64) > u64::MAX - reduced {
            return false;
        }
        let new_len: u64 = sync_state.len() as u64;
        let _ = self.sync_states.upsert(peer_id, sync_state);
        sizes.sync_states = reduced + new_len;
        true
    }

    /// Unstages a peer's sync state, moving the counter down by exactly
    /// its staged length when it was staged; when it was not, the caller
    /// must delete the peer's file and account for its length itself.
    pub fn remove_sync_state_accounted(&mut self, sizes: &mut StoredSizes, peer_id: &[u8]) -> (r:
        UnstageOutcome)
        requires
            old(self).wf(),
        ensures
            final(self).wf(),
            final(sizes).document == old(sizes).document,
            final(sizes).changes == old(sizes).changes,
            match r {
                UnstageOutcome::Removed => old(self).sync_view().contains_key(peer_id@) && final(self).sync_view() == old(self).sync_view().remove(peer_id@) && final(sizes).sync_states
                    == old(sizes).sync_states - old(self).sync_view()[peer_id@].len() && final(self).changes_view() == old(self).changes_view() && final(self).document_view() == old(self).document_view(),
                UnstageOutcome::NotStaged => !old(self).sync_view().contains_key(peer_id@)
                    && *final(self) == *old(self) && *final(sizes) == *old(sizes),
                UnstageOutcome::CounterUnderflow => old(self).sync_view().contains_key(peer_id@)
                    && old(self).sync_view()[peer_id@].len() > old(sizes).sync_states && *final(self) == *old(self) && *final(sizes) == *old(sizes),
            },
    {
        let old_len: u64 = match self.sync_states.get(peer_id) {
            Some(v) => v.len() as u64,
            None => {
                return UnstageOutcome::NotStaged;
            },
        };
        if sizes.sync_states < old_len {
            return UnstageOutcome::CounterUnderflow;
        }
        let _ = self.sync_states.remove_key(peer_id);
        sizes.sync_states = sizes.sync_states - old_len;
        UnstageOutcome::Removed
    }

    /// Copies out the staged change records without disturbing the cache,
    /// so a read can overlay them on what the disk holds.
    pub fn staged_records(&self) -> (r: Vec<(Vec<u8>, u64, Vec<u8>)>)
        ensures
            r.deep_view() == self.changes_records(),
    {
        self.changes.records()
    }

    /// Copies out the staged peers without disturbing the cache: exactly
    /// the peers with a staged sync state, each once.
    pub fn staged_peer_ids(&self) -> (r: Vec<Vec<u8>>)
        requires
            self.wf(),
        ensures
            r.deep_view().no_duplicates(),
            r.deep_view().to_set() == self.sync_view().dom(),
    {
        let r = self.sync_states.keys();
        proof {
            assert(r.deep_view().to_set() =~= self.sync_view().dom());
        }
        r
    }

    fn take_document(&mut self) -> (r: Option<Vec<u8>>)
        requires
            old(self).wf(),
        ensures
            final(self).wf(),
            final(self).document_view() is None,
            final(self).changes_view() == old(self).changes_view(),
            final(self).sync_view() == old(self).sync_view(),
            final(self).sync_pairs() == old(self).sync_pairs(),
            final(self).changes_records() == old(self).changes_records(),
            r.deep_view() == old(self).document_view(),
    {
        let r = match &self.document {
            None => None,
            Some(v) => {
                let c = clone_bytes(v.as_slice());
                proof {
                    lemma_bytes_deep_view(c);
                }
                Some(c)
            },
        };
        self.document = None;
        r
    }
}

} // verus!
