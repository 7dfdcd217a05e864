//! An in-memory region of blobs keyed by an opaque byte string.
//!
//! Sync states are stored this way: one blob per peer identifier. The store
//! is an association list with pairwise-distinct keys; its view is the
//! finite map it represents.

use vstd::prelude::*;

verus! {

use crate::model::{pair_vals, stored_vals, upsert_blobs, lemma_stored_vals_insert,
    lemma_stored_empty, lemma_upsert_blobs_push};
use crate::keys::{bytes_eq, clone_bytes};

/// The key of entry `i` of an association list of blobs.
pub open spec fn bentry_key(s: Seq<(Vec<u8>, Vec<u8>)>, i: int) -> Seq<u8> {
    s[i].0@
}

/// Whether some entry of the list carries key `k`.
pub open spec fn has_bkey(s: Seq<(Vec<u8>, Vec<u8>)>, k: Seq<u8>) -> bool {
    exists|i: int| 0 <= i < s.len() && bentry_key(s, i) == k
}

/// The keys of the list are pairwise distinct.
pub open spec fn distinct_bkeys(s: Seq<(Vec<u8>, Vec<u8>)>) -> bool {
    forall|i: int, j: int|
        0 <= i < j < s.len() ==> #[trigger] bentry_key(s, i) != #[trigger] bentry_key(s, j)
}

/// The finite map an association list of blobs represents.
pub open spec fn blob_map(s: Seq<(Vec<u8>, Vec<u8>)>) -> Map<Seq<u8>, Seq<u8>>
    decreases s.len(),
{
    if s.len() == 0 {
        Map::empty()
    } else {
        blob_map(s.drop_last()).insert(bentry_key(s, s.len() - 1), s.last().1@)
    }
}

/// The sequence of stored blobs, in list order.
pub open spec fn bvals_seq(s: Seq<(Vec<u8>, Vec<u8>)>) -> Seq<Seq<u8>> {
    Seq::new(s.len(), |i: int| s[i].1@)
}

/// The pairs of an association list, as plain sequences.
pub open spec fn deep_pairs(s: Seq<(Vec<u8>, Vec<u8>)>) -> Seq<(Seq<u8>, Seq<u8>)> {
    Seq::new(s.len(), |i: int| (s[i].0@, s[i].1@))
}

proof fn lemma_blob_map_finite(s: Seq<(Vec<u8>, Vec<u8>)>)
    ensures
        blob_map(s).dom().finite(),
    decreases s.len(),
{
    if s.len() > 0 {
        lemma_blob_map_finite(s.drop_last());
    }
}

proof fn lemma_blob_map_contains(s: Seq<(Vec<u8>, Vec<u8>)>, k: Seq<u8>)
    ensures
        blob_map(s).dom().contains(k) <==> has_bkey(s, k),
    decreases s.len(),
{
    if s.len() > 0 {
        let d = s.drop_last();
        lemma_blob_map_contains(d, k);
        if bentry_key(s, s.len() - 1) == k {
            assert(has_bkey(s, k));
        } else {
            if has_bkey(d, k) {
                let i = choose|i: int| 0 <= i < d.len() && bentry_key(d, i) == k;
                assert(bentry_key(s, i) == k);
                assert(has_bkey(s, k));
            }
            if has_bkey(s, k) {
                let i = choose|i: int| 0 <= i < s.len() && bentry_key(s, i) == k;
                assert(i < s.len() - 1);
                assert(bentry_key(d, i) == k);
            }
        }
    }
}

proof fn lemma_blob_map_index(s: Seq<(Vec<u8>, Vec<u8>)>, i: int)
    requires
        distinct_bkeys(s),
        0 <= i < s.len(),
    ensures
        blob_map(s).dom().contains(bentry_key(s, i)),
        blob_map(s)[bentry_key(s, i)] == s[i].1@,
    decreases s.len(),
{
    if i == s.len() - 1 {
    } else {
        let d = s.drop_last();
        assert(distinct_bkeys(d)) by {
            assert(forall|x: int, y: int|
                0 <= x < y < d.len() ==> bentry_key(d, x) == bentry_key(s, x) && bentry_key(d, y)
                    == bentry_key(s, y));
        }
        assert(bentry_key(d, i) == bentry_key(s, i));
        lemma_blob_map_index(d, i);
        assert(bentry_key(s, i) != bentry_key(s, s.len() - 1));
    }
}

proof fn lemma_blob_map_update(s: Seq<(Vec<u8>, Vec<u8>)>, i: int, e: (Vec<u8>, Vec<u8>))
    requires
        distinct_bkeys(s),
        0 <= i < s.len(),
        e.0@ == bentry_key(s, i),
    ensures
        blob_map(s.update(i, e)) == blob_map(s).insert(bentry_key(s, i), e.1@),
        distinct_bkeys(s.update(i, e)),
    decreases s.len(),
{
    let su = s.update(i, e);
    assert(forall|x: int| 0 <= x < s.len() ==> bentry_key(su, x) == bentry_key(s, x));
    assert(distinct_bkeys(su));
    if i == s.len() - 1 {
        assert(su.drop_last() =~= s.drop_last());
        assert(blob_map(su) == blob_map(s.drop_last()).insert(bentry_key(s, i), e.1@));
        assert(blob_map(s.drop_last()).insert(bentry_key(s, s.len() - 1), s.last().1@).insert(
            bentry_key(s, i),
            e.1@,
        ) =~= blob_map(s.drop_last()).insert(bentry_key(s, i), e.1@));
    } else {
        let d = s.drop_last();
        assert(distinct_bkeys(d)) by {
            assert(forall|x: int, y: int|
                0 <= x < y < d.len() ==> bentry_key(d, x) == bentry_key(s, x) && bentry_key(d, y)
                    == bentry_key(s, y));
        }
        assert(su.drop_last() =~= d.update(i, e));
        assert(bentry_key(d, i) == bentry_key(s, i));
        lemma_blob_map_update(d, i, e);
        assert(su.last() == s.last());
        assert(bentry_key(su, su.len() - 1) == bentry_key(s, s.len() - 1));
        assert(blob_map(su) == blob_map(d).insert(bentry_key(s, i), e.1@).insert(
            bentry_key(s, s.len() - 1),
            s.last().1@,
        ));
        assert(bentry_key(s, i) != bentry_key(s, s.len() - 1));
        assert(blob_map(d).insert(bentry_key(s, i), e.1@).insert(
            bentry_key(s, s.len() - 1),
            s.last().1@,
        ) =~= blob_map(d).insert(bentry_key(s, s.len() - 1), s.last().1@).insert(
            bentry_key(s, i),
            e.1@,
        ));
    }
}

proof fn lemma_blob_map_push(s: Seq<(Vec<u8>, Vec<u8>)>, e: (Vec<u8>, Vec<u8>))
    ensures
        blob_map(s.push(e)) == blob_map(s).insert(e.0@, e.1@),
{
    assert(s.push(e).drop_last() =~= s);
    assert(bentry_key(s.push(e), s.len() as int) == e.0@);
}

proof fn lemma_blob_map_remove(s: Seq<(Vec<u8>, Vec<u8>)>, i: int)
    requires
        distinct_bkeys(s),
        0 <= i < s.len(),
    ensures
        blob_map(s.remove(i)) == blob_map(s).remove(bentry_key(s, i)),
        distinct_bkeys(s.remove(i)),
    decreases s.len(),
{
    let sr = s.remove(i);
    assert(forall|x: int|
        0 <= x < sr.len() ==> bentry_key(sr, x) == if x < i {
            bentry_key(s, x)
        } else {
            bentry_key(s, x + 1)
        });
    assert(distinct_bkeys(sr));
    let d = s.drop_last();
    assert(distinct_bkeys(d)) by {
        assert(forall|x: int, y: int|
            0 <= x < y < d.len() ==> bentry_key(d, x) == bentry_key(s, x) && bentry_key(d, y)
                == bentry_key(s, y));
    }
    lemma_blob_map_contains(d, bentry_key(s, i));
    if i == s.len() - 1 {
        assert(sr =~= d);
        assert(!has_bkey(d, bentry_key(s, i))) by {
            assert(forall|x: int| 0 <= x < d.len() ==> bentry_key(d, x) == bentry_key(s, x));
        }
        assert(blob_map(s) == blob_map(d).insert(bentry_key(s, i), s.last().1@));
        assert(blob_map(s).remove(bentry_key(s, i)) =~= blob_map(d));
    } else {
        assert(sr.drop_last() =~= d.remove(i));
        assert(bentry_key(d, i) == bentry_key(s, i));
        lemma_blob_map_remove(d, i);
        assert(sr.last() == s.last());
        assert(bentry_key(sr, sr.len() - 1) == bentry_key(s, s.len() - 1));
        assert(blob_map(sr) == blob_map(d).remove(bentry_key(s, i)).insert(
            bentry_key(s, s.len() - 1),
            s.last().1@,
        ));
        assert(bentry_key(s, i) != bentry_key(s, s.len() - 1));
        assert(blob_map(d).remove(bentry_key(s, i)).insert(
            bentry_key(s, s.len() - 1),
            s.last().1@,
        ) =~= blob_map(d).insert(bentry_key(s, s.len() - 1), s.last().1@).remove(bentry_key(s, i)));
    }
}

proof fn lemma_blob_map_vals(s: Seq<(Vec<u8>, Vec<u8>)>)
    requires
        distinct_bkeys(s),
    ensures
        stored_vals(blob_map(s)) == bvals_seq(s).to_multiset(),
    decreases s.len(),
{
    broadcast use vstd::seq_lib::group_to_multiset_ensures;

    if s.len() == 0 {
        lemma_stored_empty::<Seq<u8>, Seq<u8>>();
        assert(bvals_seq(s) =~= Seq::<Seq<u8>>::empty());
    } else {
        let d = s.drop_last();
        assert(distinct_bkeys(d)) by {
            assert(forall|x: int, y: int|
                0 <= x < y < d.len() ==> bentry_key(d, x) == bentry_key(s, x) && bentry_key(d, y)
                    == bentry_key(s, y));
        }
        lemma_blob_map_vals(d);
        lemma_blob_map_finite(d);
        lemma_blob_map_contains(d, bentry_key(s, s.len() - 1));
        assert(!has_bkey(d, bentry_key(s, s.len() - 1))) by {
            assert(forall|x: int| 0 <= x < d.len() ==> bentry_key(d, x) == bentry_key(s, x));
        }
        lemma_stored_vals_insert(blob_map(d), bentry_key(s, s.len() - 1), s.last().1@);
        assert(bvals_seq(s) =~= bvals_seq(d).push(s.last().1@));
    }
}

/// With pairwise-distinct keys, folding the pairs over the empty map gives
/// back the represented map.
pub proof fn lemma_blob_map_as_upserts(s: Seq<(Vec<u8>, Vec<u8>)>)
    ensures
        blob_map(s) == upsert_blobs(Map::empty(), deep_pairs(s)),
    decreases s.len(),
{
    if s.len() == 0 {
        assert(deep_pairs(s) =~= Seq::<(Seq<u8>, Seq<u8>)>::empty());
    } else {
        let d = s.drop_last();
        lemma_blob_map_as_upserts(d);
        assert(deep_pairs(s) =~= deep_pairs(d).push((s.last().0@, s.last().1@)));
        lemma_upsert_blobs_push(Map::empty(), deep_pairs(d), (s.last().0@, s.last().1@));
    }
}

/// An in-memory map of blobs keyed by an opaque byte string.
pub struct BlobStore {
    entries: Vec<(Vec<u8>, Vec<u8>)>,
}

impl View for BlobStore {
    type V = Map<Seq<u8>, Seq<u8>>;

    closed spec fn view(&self) -> Map<Seq<u8>, Seq<u8>> {
        blob_map(self.entries@)
    }
}

impl BlobStore {
    /// The store's keys are pairwise distinct.
    pub closed spec fn wf(self) -> bool {
        distinct_bkeys(self.entries@)
    }

    /// The stored pairs, as plain sequences, in storage order.
    pub closed spec fn pairs_view(self) -> Seq<(Seq<u8>, Seq<u8>)> {
        deep_pairs(self.entries@)
    }

    /// A well-formed store represents a finite map whose stored values are
    /// exactly its listed blobs, and which its pairs rebuild by upserts.
    pub proof fn lemma_view(self)
        requires
            self.wf(),
        ensures
            self@.dom().finite(),
            stored_vals(self@) == pair_vals(self.pairs_view()).to_multiset(),
            self@ == upsert_blobs(Map::empty(), self.pairs_view()),
    {
        lemma_blob_map_finite(self.entries@);
        lemma_blob_map_vals(self.entries@);
        lemma_blob_map_as_upserts(self.entries@);
        assert(pair_vals(self.pairs_view()) =~= bvals_seq(self.entries@));
    }

    /// An empty store.
    pub fn new() -> (r: Self)
        ensures
            r.wf(),
            r@ == Map::<Seq<u8>, Seq<u8>>::empty(),
            r.pairs_view() == Seq::<(Seq<u8>, Seq<u8>)>::empty(),
    {
        let r = BlobStore { entries: Vec::new() };
        proof {
            assert(r.pairs_view() =~= Seq::<(Seq<u8>, Seq<u8>)>::empty());
        }
        r
    }

    fn find(&self, key: &[u8]) -> (r: Option<usize>)
        ensures
            match r {
                Option::Some(i) => i < self.entries@.len() && bentry_key(self.entries@, i as int)
                    == key@,
                Option::None => !has_bkey(self.entries@, key@),
            },
    {
        let mut i: usize = 0;
        while i < self.entries.len()
            invariant
                i <= self.entries@.len(),
                forall|j: int| 0 <= j < i ==> bentry_key(self.entries@, j) != key@,
            decreases self.entries@.len() - i,
        {
            if bytes_eq(self.entries[i].0.as_slice(), key) {
                return Some(i);
            }
            i = i + 1;
        }
        None
    }

    /// Copies out the blob stored under `key`, if any.
    pub fn get(&self, key: &[u8]) -> (r: Option<Vec<u8>>)
        requires
            self.wf(),
        ensures
            match r {
                Option::Some(v) => self@.dom().contains(key@) && v@ == self@[key@],
                Option::None => !self@.dom().contains(key@),
            },
    {
        proof {
            lemma_blob_map_contains(self.entries@, key@);
        }
        match self.find(key) {
            Some(i) => {
                proof {
                    lemma_blob_map_index(self.entries@, i as int);
                }
                Some(clone_bytes(self.entries[i].1.as_slice()))
            },
            None => None,
        }
    }

    /// Stores `data` under `key`, returning the blob previously stored
    /// there, if any.
    pub fn upsert(&mut self, key: Vec<u8>, data: Vec<u8>) -> (r: Option<Vec<u8>>)
        requires
            old(self).wf(),
        ensures
            final(self).wf(),
            final(self)@ == old(self)@.insert(key@, data@),
            match r {
                Option::Some(v) => old(self)@.dom().contains(key@) && v@ == old(self)@[key@],
                Option::None => !old(self)@.dom().contains(key@),
            },
    {
        proof {
            lemma_blob_map_contains(self.entries@, key@);
        }
        match self.find(key.as_slice()) {
            Some(i) => {
                proof {
                    lemma_blob_map_index(self.entries@, i as int);
                    lemma_blob_map_update(self.entries@, i as int, (key, data));
                }
                replace_pair(&mut self.entries, i, (key, data))
            },
            None => {
                let ghost s0 = self.entries@;
                let ghost kk = key@;
                proof {
                    lemma_blob_map_push(s0, (key, data));
                }
                self.entries.push((key, data));
                proof {
                    let s1 = self.entries@;
                    assert forall|x: int, y: int| 0 <= x < y < s1.len() implies bentry_key(s1, x)
                        != bentry_key(s1, y) by {
                        if y < s0.len() {
                            assert(bentry_key(s1, x) == bentry_key(s0, x));
                            assert(bentry_key(s1, y) == bentry_key(s0, y));
                        } else {
                            assert(bentry_key(s1, x) == bentry_key(s0, x));
                            assert(bentry_key(s1, y) == kk);
                            assert(!has_bkey(s0, kk));
                        }
                    }
                }
                None
            },
        }
    }

    /// Deletes the blob stored under `key`, returning it if it was present;
    /// deleting an absent key is a no-op.
    pub fn remove_key(&mut self, key: &[u8]) -> (r: Option<Vec<u8>>)
        requires
            old(self).wf(),
        ensures
            final(self).wf(),
            final(self)@ == old(self)@.remove(key@),
            match r {
                Option::Some(v) => old(self)@.dom().contains(key@) && v@ == old(self)@[key@],
                Option::None => !old(self)@.dom().contains(key@) && old(self)@.remove(key@) == old(self)@,
            },
    {
        proof {
            lemma_blob_map_contains(self.entries@, key@);
        }
        match self.find(key) {
            Some(i) => {
                proof {
                    lemma_blob_map_index(self.entries@, i as int);
                    lemma_blob_map_remove(self.entries@, i as int);
                }
                let e = self.entries.remove(i);
                Some(e.1)
            },
            None => {
                proof {
                    assert(old(self)@.remove(key@) =~= old(self)@);
                }
                None
            },
        }
    }

    /// Copies out every stored key; each stored key appears exactly once.
    pub fn keys(&self) -> (r: Vec<Vec<u8>>)
        requires
            self.wf(),
        ensures
            r.deep_view().no_duplicates(),
            forall|k: Seq<u8>| r.deep_view().contains(k) <==> self@.dom().contains(k),
    {
        let mut out: Vec<Vec<u8>> = Vec::new();
        proof {
            assert(out.deep_view() =~= Seq::<Seq<u8>>::empty());
        }
        let mut i: usize = 0;
        while i < self.entries.len()
            invariant
                i <= self.entries@.len(),
                out@.len() == i,
                forall|j: int| 0 <= j < i ==> #[trigger] out@[j]@ == bentry_key(self.entries@, j),
            decreases self.entries@.len() - i,
        {
            let k = clone_bytes(self.entries[i].0.as_slice());
            out.push(k);
            i = i + 1;
        }
        proof {
            let dv = out.deep_view();
            assert(dv.len() == out@.len());
            assert forall|j: int| 0 <= j < dv.len() implies dv[j] == bentry_key(
                self.entries@,
                j,
            ) by {
                crate::keys::lemma_bytes_deep_view(out@[j]);
            }
            assert forall|x: int, y: int| 0 <= x < y < dv.len() implies dv[x] != dv[y] by {
                assert(bentry_key(self.entries@, x) != bentry_key(self.entries@, y));
            }
            assert(dv.no_duplicates());
            assert forall|k: Seq<u8>| dv.contains(k) <==> self@.dom().contains(k) by {
                lemma_blob_map_contains(self.entries@, k);
                if dv.contains(k) {
                    let j = choose|j: int| 0 <= j < dv.len() && dv[j] == k;
                    assert(bentry_key(self.entries@, j) == k);
                    assert(has_bkey(self.entries@, k));
                }
                if has_bkey(self.entries@, k) {
                    let j = choose|j: int|
                        0 <= j < self.entries@.len() && bentry_key(self.entries@, j) == k;
                    assert(dv[j] == k);
                }
            }
        }
        out
    }

    /// Copies out every stored pair, in storage order.
    pub fn pairs(&self) -> (r: Vec<(Vec<u8>, Vec<u8>)>)
        ensures
            r.deep_view() == self.pairs_view(),
    {
        let mut out: Vec<(Vec<u8>, Vec<u8>)> = Vec::new();
        proof {
            assert(out.deep_view() =~= deep_pairs(self.entries@).take(0));
        }
        let mut i: usize = 0;
        while i < self.entries.len()
            invariant
                i <= self.entries@.len(),
                out.deep_view() == deep_pairs(self.entries@).take(i as int),
            decreases self.entries@.len() - i,
        {
            let e = &self.entries[i];
            let k = clone_bytes(e.0.as_slice());
            let v = clone_bytes(e.1.as_slice());
            proof {
                assert(k.deep_view() =~= k@);
                assert(v.deep_view() =~= v@);
            }
            out.push((k, v));
            proof {
                assert(out.deep_view() =~= deep_pairs(self.entries@).take(i as int).push(
                    (self.entries@[i as int].0@, self.entries@[i as int].1@),
                ));
                assert(deep_pairs(self.entries@).take(i + 1) =~= deep_pairs(self.entries@).take(
                    i as int,
                ).push((self.entries@[i as int].0@, self.entries@[i as int].1@)));
            }
            i = i + 1;
        }
        proof {
            assert(deep_pairs(self.entries@).take(self.entries@.len() as int) =~= deep_pairs(
                self.entries@,
            ));
        }
        out
    }

    /// Hands out every stored pair and empties the store.
    pub fn drain_pairs(&mut self) -> (r: Vec<(Vec<u8>, Vec<u8>)>)
        requires
            old(self).wf(),
        ensures
            final(self).wf(),
            final(self)@ == Map::<Seq<u8>, Seq<u8>>::empty(),
            final(self).pairs_view() == Seq::<(Seq<u8>, Seq<u8>)>::empty(),
            r.deep_view() == old(self).pairs_view(),
    {
        let out = self.pairs();
        self.entries.truncate(0);
        proof {
            assert(self.entries@ =~= Seq::<(Vec<u8>, Vec<u8>)>::empty());
            assert(self.pairs_view() =~= Seq::<(Seq<u8>, Seq<u8>)>::empty());
        }
        out
    }
}

/// Replaces entry `i` of a pair list with `e`, returning the blob of the
/// pair previously there.
fn replace_pair(entries: &mut Vec<(Vec<u8>, Vec<u8>)>, i: usize, e: (Vec<u8>, Vec<u8>)) -> (r:
    Option<Vec<u8>>)
    requires
        i < old(entries)@.len(),
    ensures
        final(entries)@ == old(entries)@.update(i as int, e),
        r matches Option::Some(v) && v@ == old(entries)@[i as int].1@,
    {
    let old_e = entries.remove(i);
    entries.insert(i, e);
    proof {
        assert(entries@ =~= old(entries)@.update(i as int, e));
    }
    Some(old_e.1)
}

} // verus!
