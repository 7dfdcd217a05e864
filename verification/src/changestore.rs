//! An in-memory region of change records.
//!
//! Changes are keyed by the pair of actor identifier and sequence number.
//! The store is an association list with pairwise-distinct keys; its view is
//! the finite map it represents.

use vstd::prelude::*;

verus! {

use crate::model::{ChangeKey, ChangeRecord, record_vals, stored_vals, upsert_changes,
    lemma_stored_vals_insert, lemma_stored_empty, lemma_upsert_changes_push};
use crate::keys::{bytes_eq, clone_bytes};

/// The key of entry `i` of an association list of change records.
pub open spec fn entry_key(s: Seq<(Vec<u8>, u64, Vec<u8>)>, i: int) -> ChangeKey {
    (s[i].0@, s[i].1)
}

/// Whether some entry of the list carries key `k`.
pub open spec fn has_key(s: Seq<(Vec<u8>, u64, Vec<u8>)>, k: ChangeKey) -> bool {
    exists|i: int| 0 <= i < s.len() && entry_key(s, i) == k
}

/// The keys of the list are pairwise distinct.
pub open spec fn distinct_keys(s: Seq<(Vec<u8>, u64, Vec<u8>)>) -> bool {
    forall|i: int, j: int|
        0 <= i < j < s.len() ==> #[trigger] entry_key(s, i) != #[trigger] entry_key(s, j)
}

/// The finite map an association list of change records represents.
pub open spec fn change_map(s: Seq<(Vec<u8>, u64, Vec<u8>)>) -> Map<ChangeKey, Seq<u8>>
    decreases s.len(),
{
    if s.len() == 0 {
        Map::empty()
    } else {
        change_map(s.drop_last()).insert(entry_key(s, s.len() - 1), s.last().2@)
    }
}

/// The sequence of stored blobs, in list order.
pub open spec fn vals_seq(s: Seq<(Vec<u8>, u64, Vec<u8>)>) -> Seq<Seq<u8>> {
    Seq::new(s.len(), |i: int| s[i].2@)
}

proof fn lemma_change_map_finite(s: Seq<(Vec<u8>, u64, Vec<u8>)>)
    ensures
        change_map(s).dom().finite(),
    decreases s.len(),
{
    if s.len() > 0 {
        lemma_change_map_finite(s.drop_last());
    }
}

proof fn lemma_change_map_contains(s: Seq<(Vec<u8>, u64, Vec<u8>)>, k: ChangeKey)
    ensures
        change_map(s).dom().contains(k) <==> has_key(s, k),
    decreases s.len(),
{
    if s.len() > 0 {
        let d = s.drop_last();
        lemma_change_map_contains(d, k);
        if entry_key(s, s.len() - 1) == k {
            assert(has_key(s, k));
        } else {
            if has_key(d, k) {
                let i = choose|i: int| 0 <= i < d.len() && entry_key(d, i) == k;
                assert(entry_key(s, i) == k);
                assert(has_key(s, k));
            }
            if has_key(s, k) {
                let i = choose|i: int| 0 <= i < s.len() && entry_key(s, i) == k;
                assert(i < s.len() - 1);
                assert(entry_key(d, i) == k);
            }
        }
    }
}

proof fn lemma_change_map_index(s: Seq<(Vec<u8>, u64, Vec<u8>)>, i: int)
    requires
        distinct_keys(s),
        0 <= i < s.len(),
    ensures
        change_map(s).dom().contains(entry_key(s, i)),
        change_map(s)[entry_key(s, i)] == s[i].2@,
    decreases s.len(),
{
    if i == s.len() - 1 {
    } else {
        let d = s.drop_last();
        assert(distinct_keys(d)) by {
            assert(forall|x: int, y: int|
                0 <= x < y < d.len() ==> entry_key(d, x) == entry_key(s, x) && entry_key(d, y)
                    == entry_key(s, y));
        }
        assert(entry_key(d, i) == entry_key(s, i));
        lemma_change_map_index(d, i);
        assert(entry_key(s, i) != entry_key(s, s.len() - 1));
    }
}

proof fn lemma_change_map_update(s: Seq<(Vec<u8>, u64, Vec<u8>)>, i: int, e: (Vec<u8>, u64, Vec<u8>))
    requires
        distinct_keys(s),
        0 <= i < s.len(),
        (e.0@, e.1) == entry_key(s, i),
    ensures
        change_map(s.update(i, e)) == change_map(s).insert(entry_key(s, i), e.2@),
        distinct_keys(s.update(i, e)),
    decreases s.len(),
{
    let su = s.update(i, e);
    assert(forall|x: int| 0 <= x < s.len() ==> entry_key(su, x) == entry_key(s, x));
    assert(distinct_keys(su));
    if i == s.len() - 1 {
        assert(su.drop_last() =~= s.drop_last());
        assert(change_map(su) == change_map(s.drop_last()).insert(entry_key(s, i), e.2@));
        assert(change_map(s.drop_last()).insert(entry_key(s, s.len() - 1), s.last().2@).insert(
            entry_key(s, i),
            e.2@,
        ) =~= change_map(s.drop_last()).insert(entry_key(s, i), e.2@));
    } else {
        let d = s.drop_last();
        assert(distinct_keys(d)) by {
            assert(forall|x: int, y: int|
                0 <= x < y < d.len() ==> entry_key(d, x) == entry_key(s, x) && entry_key(d, y)
                    == entry_key(s, y));
        }
        assert(su.drop_last() =~= d.update(i, e));
        assert(entry_key(d, i) == entry_key(s, i));
        lemma_change_map_update(d, i, e);
        assert(su.last() == s.last());
        assert(entry_key(su, su.len() - 1) == entry_key(s, s.len() - 1));
        assert(change_map(su) == change_map(d).insert(entry_key(s, i), e.2@).insert(
            entry_key(s, s.len() - 1),
            s.last().2@,
        ));
        assert(entry_key(s, i) != entry_key(s, s.len() - 1));
        assert(change_map(d).insert(entry_key(s, i), e.2@).insert(
            entry_key(s, s.len() - 1),
            s.last().2@,
        ) =~= change_map(d).insert(entry_key(s, s.len() - 1), s.last().2@).insert(
            entry_key(s, i),
            e.2@,
        ));
    }
}

proof fn lemma_change_map_push(s: Seq<(Vec<u8>, u64, Vec<u8>)>, e: (Vec<u8>, u64, Vec<u8>))
    ensures
        change_map(s.push(e)) == change_map(s).insert((e.0@, e.1), e.2@),
{
    assert(s.push(e).drop_last() =~= s);
    assert(entry_key(s.push(e), s.len() as int) == ((e.0@, e.1)));
}

proof fn lemma_change_map_remove(s: Seq<(Vec<u8>, u64, Vec<u8>)>, i: int)
    requires
        distinct_keys(s),
        0 <= i < s.len(),
    ensures
        change_map(s.remove(i)) == change_map(s).remove(entry_key(s, i)),
        distinct_keys(s.remove(i)),
    decreases s.len(),
{
    let sr = s.remove(i);
    assert(forall|x: int|
        0 <= x < sr.len() ==> entry_key(sr, x) == if x < i {
            entry_key(s, x)
        } else {
            entry_key(s, x + 1)
        });
    assert(distinct_keys(sr));
    let d = s.drop_last();
    assert(distinct_keys(d)) by {
        assert(forall|x: int, y: int|
            0 <= x < y < d.len() ==> entry_key(d, x) == entry_key(s, x) && entry_key(d, y)
                == entry_key(s, y));
    }
    lemma_change_map_contains(d, entry_key(s, i));
    if i == s.len() - 1 {
        assert(sr =~= d);
        assert(!has_key(d, entry_key(s, i))) by {
            assert(forall|x: int| 0 <= x < d.len() ==> entry_key(d, x) == entry_key(s, x));
        }
        assert(change_map(s) == change_map(d).insert(entry_key(s, i), s.last().2@));
        assert(change_map(s).remove(entry_key(s, i)) =~= change_map(d));
    } else {
        assert(sr.drop_last() =~= d.remove(i));
        assert(entry_key(d, i) == entry_key(s, i));
        lemma_change_map_remove(d, i);
        assert(sr.last() == s.last());
        assert(entry_key(sr, sr.len() - 1) == entry_key(s, s.len() - 1));
        assert(change_map(sr) == change_map(d).remove(entry_key(s, i)).insert(
            entry_key(s, s.len() - 1),
            s.last().2@,
        ));
        assert(entry_key(s, i) != entry_key(s, s.len() - 1));
        assert(change_map(d).remove(entry_key(s, i)).insert(
            entry_key(s, s.len() - 1),
            s.last().2@,
        ) =~= change_map(d).insert(entry_key(s, s.len() - 1), s.last().2@).remove(entry_key(s, i)));
    }
}

/// With pairwise-distinct keys, the stored values of the represented map
/// are exactly the listed blobs.
proof fn lemma_change_map_vals(s: Seq<(Vec<u8>, u64, Vec<u8>)>)
    requires
        distinct_keys(s),
    ensures
        stored_vals(change_map(s)) == vals_seq(s).to_multiset(),
    decreases s.len(),
{
    broadcast use vstd::seq_lib::group_to_multiset_ensures;

    if s.len() == 0 {
        lemma_stored_empty::<ChangeKey, Seq<u8>>();
        assert(vals_seq(s) =~= Seq::<Seq<u8>>::empty());
    } else {
        let d = s.drop_last();
        assert(distinct_keys(d)) by {
            assert(forall|x: int, y: int|
                0 <= x < y < d.len() ==> entry_key(d, x) == entry_key(s, x) && entry_key(d, y)
                    == entry_key(s, y));
        }
        lemma_change_map_vals(d);
        lemma_change_map_finite(d);
        lemma_change_map_contains(d, entry_key(s, s.len() - 1));
        assert(!has_key(d, entry_key(s, s.len() - 1))) by {
            assert(forall|x: int| 0 <= x < d.len() ==> entry_key(d, x) == entry_key(s, x));
        }
        lemma_stored_vals_insert(change_map(d), entry_key(s, s.len() - 1), s.last().2@);
        assert(vals_seq(s) =~= vals_seq(d).push(s.last().2@));
    }
}

/// With pairwise-distinct keys, folding the records over the empty map
/// gives back the represented map.
pub proof fn lemma_change_map_as_upserts(s: Seq<(Vec<u8>, u64, Vec<u8>)>)
    ensures
        change_map(s) == upsert_changes(Map::empty(), deep_records(s)),
    decreases s.len(),
{
    if s.len() == 0 {
        assert(deep_records(s) =~= Seq::<ChangeRecord>::empty());
    } else {
        let d = s.drop_last();
        lemma_change_map_as_upserts(d);
        assert(deep_records(s) =~= deep_records(d).push(
            (s.last().0@, s.last().1, s.last().2@),
        ));
        lemma_upsert_changes_push(
            Map::empty(),
            deep_records(d),
            (s.last().0@, s.last().1, s.last().2@),
        );
    }
}

/// The records of an association list, as plain sequences.
pub open spec fn deep_records(s: Seq<(Vec<u8>, u64, Vec<u8>)>) -> Seq<ChangeRecord> {
    Seq::new(s.len(), |i: int| (s[i].0@, s[i].1, s[i].2@))
}

/// An in-memory map of change records keyed by (actor, sequence number).
pub struct ChangeStore {
    entries: Vec<(Vec<u8>, u64, Vec<u8>)>,
}

impl View for ChangeStore {
    type V = Map<ChangeKey, Seq<u8>>;

    closed spec fn view(&self) -> Map<ChangeKey, Seq<u8>> {
        change_map(self.entries@)
    }
}

impl ChangeStore {
    /// The store's keys are pairwise distinct.
    pub closed spec fn wf(self) -> bool {
        distinct_keys(self.entries@)
    }

    /// The stored records, as plain sequences, in storage order.
    pub closed spec fn records_view(self) -> Seq<ChangeRecord> {
        deep_records(self.entries@)
    }

    /// A well-formed store represents a finite map whose stored values are
    /// exactly its records' blobs, and which its records rebuild by upserts.
    pub proof fn lemma_view(self)
        requires
            self.wf(),
        ensures
            self@.dom().finite(),
            stored_vals(self@) == record_vals(self.records_view()).to_multiset(),
            self@ == upsert_changes(Map::empty(), self.records_view()),
    {
        lemma_change_map_finite(self.entries@);
        lemma_change_map_vals(self.entries@);
        lemma_change_map_as_upserts(self.entries@);
        assert(record_vals(self.records_view()) =~= vals_seq(self.entries@));
    }

    /// An empty store.
    pub fn new() -> (r: Self)
        ensures
            r.wf(),
            r@ == Map::<ChangeKey, Seq<u8>>::empty(),
            r.records_view() == Seq::<ChangeRecord>::empty(),
    {
        let r = ChangeStore { entries: Vec::new() };
        proof {
            assert(r.records_view() =~= Seq::<ChangeRecord>::empty());
        }
        r
    }

    fn find(&self, actor: &[u8], sn: u64) -> (r: Option<usize>)
        ensures
            match r {
                Option::Some(i) => i < self.entries@.len() && entry_key(self.entries@, i as int)
                    == ((actor@, sn)),
                Option::None => !has_key(self.entries@, (actor@, sn)),
            },
    {
        let mut i: usize = 0;
        while i < self.entries.len()
            invariant
                i <= self.entries@.len(),
                forall|j: int| 0 <= j < i ==> entry_key(self.entries@, j) != ((actor@, sn)),
            decreases self.entries@.len() - i,
        {
            let e = &self.entries[i];
            if e.1 == sn && bytes_eq(e.0.as_slice(), actor) {
                return Some(i);
            }
            i = i + 1;
        }
        None
    }

    /// Copies out the blob stored under `(actor, sn)`, if any.
    pub fn get(&self, actor: &[u8], sn: u64) -> (r: Option<Vec<u8>>)
        requires
            self.wf(),
        ensures
            match r {
                Option::Some(v) => self@.dom().contains((actor@, sn)) && v@ == self@[(actor@, sn)],
                Option::None => !self@.dom().contains((actor@, sn)),
            },
    {
        proof {
            lemma_change_map_contains(self.entries@, (actor@, sn));
        }
        match self.find(actor, sn) {
            Some(i) => {
                proof {
                    lemma_change_map_index(self.entries@, i as int);
                }
                Some(clone_bytes(self.entries[i].2.as_slice()))
            },
            None => None,
        }
    }

    /// Stores `data` under `(actor, sn)`, returning the blob previously
    /// stored there, if any.
    pub fn upsert(&mut self, actor: Vec<u8>, sn: u64, data: Vec<u8>) -> (r: Option<Vec<u8>>)
        requires
            old(self).wf(),
        ensures
            final(self).wf(),
            final(self)@ == old(self)@.insert((actor@, sn), data@),
            match r {
                Option::Some(v) => old(self)@.dom().contains((actor@, sn)) && v@ == old(self)@[(actor@, sn)],
                Option::None => !old(self)@.dom().contains((actor@, sn)),
            },
    {
        let ghost k: ChangeKey = (actor@, sn);
        proof {
            lemma_change_map_contains(self.entries@, k);
        }
        match self.find(actor.as_slice(), sn) {
            Some(i) => {
                proof {
                    lemma_change_map_index(self.entries@, i as int);
                    lemma_change_map_update(self.entries@, i as int, (actor, sn, data));
                }
                replace_entry(&mut self.entries, i, (actor, sn, data))
            },
            None => {
                let ghost s0 = self.entries@;
                proof {
                    lemma_change_map_push(s0, (actor, sn, data));
                }
                self.entries.push((actor, sn, data));
                proof {
                    let s1 = self.entries@;
                    assert forall|x: int, y: int| 0 <= x < y < s1.len() implies entry_key(s1, x)
                        != entry_key(s1, y) by {
                        if y < s0.len() {
                            assert(entry_key(s1, x) == entry_key(s0, x));
                            assert(entry_key(s1, y) == entry_key(s0, y));
                        } else {
                            assert(entry_key(s1, x) == entry_key(s0, x));
                            assert(entry_key(s1, y) == k);
                            assert(!has_key(s0, k));
                        }
                    }
                }
                None
            },
        }
    }

    /// Deletes the record stored under `(actor, sn)`, returning its blob if
    /// it was present; deleting an absent key is a no-op.
    pub fn remove_key(&mut self, actor: &[u8], sn: u64) -> (r: Option<Vec<u8>>)
        requires
            old(self).wf(),
        ensures
            final(self).wf(),
            final(self)@ == old(self)@.remove((actor@, sn)),
            match r {
                Option::Some(v) => old(self)@.dom().contains((actor@, sn)) && v@ == old(self)@[(actor@, sn)],
                Option::None => !old(self)@.dom().contains((actor@, sn)) && old(self)@.remove(
                    (actor@, sn),
                ) == old(self)@,
            },
    {
        let ghost k: ChangeKey = (actor@, sn);
        proof {
            lemma_change_map_contains(self.entries@, k);
        }
        match self.find(actor, sn) {
            Some(i) => {
                proof {
                    lemma_change_map_index(self.entries@, i as int);
                    lemma_change_map_remove(self.entries@, i as int);
                }
                let e = self.entries.remove(i);
                Some(e.2)
            },
            None => {
                proof {
                    assert(old(self)@.remove(k) =~= old(self)@);
                }
                None
            },
        }
    }

    /// Copies out every stored blob; order is unspecified.
    pub fn values(&self) -> (r: Vec<Vec<u8>>)
        requires
            self.wf(),
        ensures
            r.deep_view().to_multiset() == stored_vals(self@),
    {
        let mut out: Vec<Vec<u8>> = Vec::new();
        proof {
            assert(out.deep_view() =~= vals_seq(self.entries@).take(0));
        }
        let mut i: usize = 0;
        while i < self.entries.len()
            invariant
                i <= self.entries@.len(),
                out.deep_view() == vals_seq(self.entries@).take(i as int),
            decreases self.entries@.len() - i,
        {
            let v = clone_bytes(self.entries[i].2.as_slice());
            proof {
                assert(v.deep_view() =~= v@);
            }
            out.push(v);
            proof {
                assert(out.deep_view() =~= vals_seq(self.entries@).take(i as int).push(
                    self.entries@[i as int].2@,
                ));
                assert(vals_seq(self.entries@).take(i + 1) =~= vals_seq(self.entries@).take(
                    i as int,
                ).push(self.entries@[i as int].2@));
            }
            i = i + 1;
        }
        proof {
            assert(vals_seq(self.entries@).take(self.entries@.len() as int) =~= vals_seq(
                self.entries@,
            ));
            lemma_change_map_vals(self.entries@);
        }
        out
    }

    /// Copies out every stored record, in storage order.
    pub fn records(&self) -> (r: Vec<(Vec<u8>, u64, Vec<u8>)>)
        ensures
            r.deep_view() == self.records_view(),
    {
        let mut out: Vec<(Vec<u8>, u64, Vec<u8>)> = Vec::new();
        proof {
            assert(out.deep_view() =~= deep_records(self.entries@).take(0));
        }
        let mut i: usize = 0;
        while i < self.entries.len()
            invariant
                i <= self.entries@.len(),
                out.deep_view() == deep_records(self.entries@).take(i as int),
            decreases self.entries@.len() - i,
        {
            let e = &self.entries[i];
            let a = clone_bytes(e.0.as_slice());
            let v = clone_bytes(e.2.as_slice());
            proof {
                assert(a.deep_view() =~= a@);
                assert(v.deep_view() =~= v@);
            }
            out.push((a, e.1, v));
            proof {
                assert(out.deep_view() =~= deep_records(self.entries@).take(i as int).push(
                    (self.entries@[i as int].0@, self.entries@[i as int].1, self.entries@[i as int].2@),
                ));
                assert(deep_records(self.entries@).take(i + 1) =~= deep_records(self.entries@).take(
                    i as int,
                ).push(
                    (self.entries@[i as int].0@, self.entries@[i as int].1, self.entries@[i as int].2@),
                ));
            }
            i = i + 1;
        }
        proof {
            assert(deep_records(self.entries@).take(self.entries@.len() as int) =~= deep_records(
                self.entries@,
            ));
        }
        out
    }

    /// Hands out every stored record and empties the store.
    pub fn drain_records(&mut self) -> (r: Vec<(Vec<u8>, u64, Vec<u8>)>)
        requires
            old(self).wf(),
        ensures
            final(self).wf(),
            final(self)@ == Map::<ChangeKey, Seq<u8>>::empty(),
            final(self).records_view() == Seq::<ChangeRecord>::empty(),
            r.deep_view() == old(self).records_view(),
    {
        let out = self.records();
        self.entries.truncate(0);
        proof {
            assert(self.entries@ =~= Seq::<(Vec<u8>, u64, Vec<u8>)>::empty());
            assert(self.records_view() =~= Seq::<ChangeRecord>::empty());
        }
        out
    }
}

/// Replaces entry `i` of a record list with `e`, returning the blob of the
/// record previously there.
fn replace_entry(entries: &mut Vec<(Vec<u8>, u64, Vec<u8>)>, i: usize, e: (Vec<u8>, u64, Vec<u8>)) -> (r:
    Option<Vec<u8>>)
    requires
        i < old(entries)@.len(),
    ensures
        final(entries)@ == old(entries)@.update(i as int, e),
        r matches Option::Some(v) && v@ == old(entries)@[i as int].2@,
{
    let old_e = entries.remove(i);
    entries.insert(i, e);
    proof {
        assert(entries@ =~= old(entries)@.update(i as int, e));
    }
    Some(old_e.2)
}

} // verus!
