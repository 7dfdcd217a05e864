//! Trusted interface to the embedded ordered key-value store.
//!
//! A [`sled::Tree`] is an ordered map from byte-string keys to byte-string
//! values with a durability flush. Verus sees it through the uninterpreted
//! contents function [`tree_entries`] and the wrappers below, whose
//! contracts state what sled's documented operations do to the contents.
//!
//! The contracts describe a tree through the handle that owns it: they rely
//! on the persister holding the only handle to each tree, so no other
//! handle mutates the contents between calls.

use vstd::prelude::*;

verus! {

/// An ordered key-value tree of the embedded store.
#[verifier::external_type_specification]
#[verifier::external_body]
pub struct ExTree(sled::Tree);

/// An internal error of the embedded store.
#[verifier::external_type_specification]
#[verifier::external_body]
pub struct ExSledError(sled::Error);

/// The contents of a tree: the finite map it currently stores.
pub uninterp spec fn tree_entries(t: sled::Tree) -> Map<Seq<u8>, Seq<u8>>;

/// Whether `k` starts with the byte string `p`.
pub open spec fn key_prefixed(k: Seq<u8>, p: Seq<u8>) -> bool {
    k.len() >= p.len() && k.take(p.len() as int) == p
}

/// Relies on sled::Tree::insert: stores the value at the key and returns
/// the previous value at that key, if any.
#[verifier::external_body]
pub(crate) fn kv_insert(t: &mut sled::Tree, key: Vec<u8>, value: Vec<u8>) -> (r: Result<
    Option<Vec<u8>>,
    sled::Error,
>)
    ensures
        r matches Ok(prev) ==> tree_entries(*final(t)) == tree_entries(*old(t)).insert(
            key@,
            value@,
        ) && prev.deep_view() == tree_entries(*old(t)).index_opt(key@),
{
    match t.insert(key, value) {
        Ok(prev) => Ok(prev.map(|v| v.to_vec())),
        Err(e) => Err(e),
    }
}

/// Relies on sled::Tree::remove: deletes the value at the key and returns
/// it, if any; removing an absent key is not an error.
#[verifier::external_body]
pub(crate) fn kv_remove(t: &mut sled::Tree, key: &[u8]) -> (r: Result<Option<Vec<u8>>, sled::Error>)
    ensures
        r matches Ok(prev) ==> tree_entries(*final(t)) == tree_entries(*old(t)).remove(key@)
            && prev.deep_view() == tree_entries(*old(t)).index_opt(key@),
{
    match t.remove(key) {
        Ok(prev) => Ok(prev.map(|v| v.to_vec())),
        Err(e) => Err(e),
    }
}

/// Relies on sled::Tree::get: returns the value stored at the key, if any,
/// without changing the tree.
#[verifier::external_body]
pub(crate) fn kv_get(t: &sled::Tree, key: &[u8]) -> (r: Result<Option<Vec<u8>>, sled::Error>)
    ensures
        r matches Ok(v) ==> v.deep_view() == tree_entries(*t).index_opt(key@),
{
    match t.get(key) {
        Ok(v) => Ok(v.map(|v| v.to_vec())),
        Err(e) => Err(e),
    }
}

/// Relies on sled::Tree::scan_prefix: yields exactly the entries whose key
/// starts with the prefix, each key once.
#[verifier::external_body]
pub(crate) fn kv_scan_prefix(t: &sled::Tree, prefix: &[u8]) -> (r: Result<
    Vec<(Vec<u8>, Vec<u8>)>,
    sled::Error,
>)
    ensures
        r matches Ok(v) ==> {
            let s = v.deep_view();
            &&& forall|i: int|
                0 <= i < s.len() ==> tree_entries(*t).contains_pair(#[trigger] s[i].0, s[i].1)
                    && key_prefixed(s[i].0, prefix@)
            &&& forall|k: Seq<u8>|
                tree_entries(*t).contains_key(k) && key_prefixed(k, prefix@) ==> exists|i: int|
                    0 <= i < s.len() && (#[trigger] s[i]).0 == k
            &&& forall|i: int, j: int| 0 <= i < j < s.len() ==> (#[trigger] s[i]).0 != (#[trigger] s[j]).0
        },
{
    let mut out: Vec<(Vec<u8>, Vec<u8>)> = Vec::new();
    for kv in t.scan_prefix(prefix) {
        let (k, v) = kv?;
        out.push((k.to_vec(), v.to_vec()));
    }
    Ok(out)
}

/// Relies on sled::Tree::flush: makes the tree durable, returning the bytes
/// written; the stored contents are unchanged.
#[verifier::external_body]
pub(crate) fn kv_flush(t: &mut sled::Tree) -> (r: Result<usize, sled::Error>)
    ensures
        tree_entries(*final(t)) == tree_entries(*old(t)),
{
    t.flush()
}

} // verus!
