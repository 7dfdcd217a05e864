//! Storage-key encoding.
//!
//! Every backend keys a change record by `prefix ++ actor ++ big_endian(seq)`
//! and a sync state by `prefix ++ peer_id`, where `prefix` namespaces one
//! logical document inside a shared physical store. The sequence number is
//! encoded as exactly eight big-endian bytes, so the encoding is injective
//! for a fixed prefix and an ordered store yields one actor's changes in
//! ascending sequence order.

use vstd::prelude::*;

verus! {

/// Byte `i` (0 = most significant) of the big-endian encoding of `x`.
pub open spec fn be_byte(x: u64, i: int) -> u8 {
    ((x >> ((56 - 8 * i) as u64)) & 0xff) as u8
}

/// The eight-byte big-endian encoding of a sequence number.
pub open spec fn spec_be_bytes(x: u64) -> Seq<u8> {
    Seq::new(8, |i: int| be_byte(x, i))
}

/// The sequence number an eight-byte big-endian string encodes.
pub open spec fn spec_be_val(s: Seq<u8>) -> u64 {
    (((s[0] as u64) << 56u64) | ((s[1] as u64) << 48u64) | ((s[2] as u64) << 40u64) | ((s[3] as u64)
        << 32u64) | ((s[4] as u64) << 24u64) | ((s[5] as u64) << 16u64) | ((s[6] as u64) << 8u64) | (
    s[7] as u64)) as u64
}

/// The storage key of a change record under a namespace prefix.
pub open spec fn spec_change_key(prefix: Seq<u8>, actor: Seq<u8>, sn: u64) -> Seq<u8> {
    prefix + actor + spec_be_bytes(sn)
}

/// The storage key of a peer's sync state under a namespace prefix.
pub open spec fn spec_peer_key(prefix: Seq<u8>, peer_id: Seq<u8>) -> Seq<u8> {
    prefix + peer_id
}

/// Decoding inverts encoding: the eight bytes of `spec_be_bytes` name `x`
/// and nothing else.
pub proof fn lemma_be_bytes_val(x: u64)
    ensures
        spec_be_val(spec_be_bytes(x)) == x,
{
    let s = spec_be_bytes(x);
    assert(s[0] == be_byte(x, 0) && s[1] == be_byte(x, 1) && s[2] == be_byte(x, 2) && s[3]
        == be_byte(x, 3) && s[4] == be_byte(x, 4) && s[5] == be_byte(x, 5) && s[6] == be_byte(x, 6)
        && s[7] == be_byte(x, 7));
    let b0 = s[0];
    let b1 = s[1];
    let b2 = s[2];
    let b3 = s[3];
    let b4 = s[4];
    let b5 = s[5];
    let b6 = s[6];
    let b7 = s[7];
    assert(b0 == ((x >> 56u64) & 0xff) as u8 && b1 == ((x >> 48u64) & 0xff) as u8 && b2 == ((x
        >> 40u64) & 0xff) as u8 && b3 == ((x >> 32u64) & 0xff) as u8 && b4 == ((x >> 24u64)
        & 0xff) as u8 && b5 == ((x >> 16u64) & 0xff) as u8 && b6 == ((x >> 8u64) & 0xff) as u8 && b7
        == ((x >> 0u64) & 0xff) as u8 ==> (((b0 as u64) << 56u64) | ((b1 as u64) << 48u64) | ((
    b2 as u64) << 40u64) | ((b3 as u64) << 32u64) | ((b4 as u64) << 24u64) | ((b5 as u64) << 16u64)
        | ((b6 as u64) << 8u64) | (b7 as u64)) as u64 == x) by (bit_vector);
    assert(be_byte(x, 7) == ((x >> 0u64) & 0xff) as u8);
}

/// Two sequence numbers with the same big-endian encoding are equal.
pub proof fn lemma_be_bytes_injective(a: u64, b: u64)
    requires
        spec_be_bytes(a) == spec_be_bytes(b),
    ensures
        a == b,
{
    lemma_be_bytes_val(a);
    lemma_be_bytes_val(b);
}

/// An eight-byte string is the encoding of the value it decodes to.
pub proof fn lemma_be_val_bytes(s: Seq<u8>)
    requires
        s.len() == 8,
    ensures
        spec_be_bytes(spec_be_val(s)) == s,
{
    let b0 = s[0];
    let b1 = s[1];
    let b2 = s[2];
    let b3 = s[3];
    let b4 = s[4];
    let b5 = s[5];
    let b6 = s[6];
    let b7 = s[7];
    let x = spec_be_val(s);
    assert(x == (((b0 as u64) << 56u64) | ((b1 as u64) << 48u64) | ((b2 as u64) << 40u64) | ((
    b3 as u64) << 32u64) | ((b4 as u64) << 24u64) | ((b5 as u64) << 16u64) | ((b6 as u64) << 8u64)
        | (b7 as u64)) as u64);
    let y = (((b0 as u64) << 56u64) | ((b1 as u64) << 48u64) | ((b2 as u64) << 40u64) | ((b3 as u64)
        << 32u64) | ((b4 as u64) << 24u64) | ((b5 as u64) << 16u64) | ((b6 as u64) << 8u64) | (
    b7 as u64)) as u64;
    assert(y == (((b0 as u64) << 56u64) | ((b1 as u64) << 48u64) | ((b2 as u64) << 40u64) | ((
    b3 as u64) << 32u64) | ((b4 as u64) << 24u64) | ((b5 as u64) << 16u64) | ((b6 as u64) << 8u64)
        | (b7 as u64)) as u64 ==> ((y >> 56u64) & 0xff) as u8 == b0 && ((y >> 48u64)
        & 0xff) as u8 == b1 && ((y >> 40u64) & 0xff) as u8 == b2 && ((y >> 32u64) & 0xff) as u8
        == b3 && ((y >> 24u64) & 0xff) as u8 == b4 && ((y >> 16u64) & 0xff) as u8 == b5 && ((y
        >> 8u64) & 0xff) as u8 == b6 && ((y >> 0u64) & 0xff) as u8 == b7) by (bit_vector);
    assert(be_byte(x, 7) == ((x >> 0u64) & 0xff) as u8);
    assert(spec_be_bytes(x) =~= s);
}

/// A change key always carries its prefix, is long enough to hold the
/// sequence number, and gives back the actor and sequence number it was
/// built from.
pub proof fn lemma_change_key_shape(prefix: Seq<u8>, actor: Seq<u8>, sn: u64)
    ensures
        spec_change_key(prefix, actor, sn).len() == prefix.len() + actor.len() + 8,
        spec_change_key(prefix, actor, sn).take(prefix.len() as int) == prefix,
        spec_change_key(prefix, actor, sn).subrange(
            prefix.len() as int,
            (prefix.len() + actor.len()) as int,
        ) == actor,
        spec_change_key(prefix, actor, sn).subrange(
            (prefix.len() + actor.len()) as int,
            (prefix.len() + actor.len() + 8) as int,
        ) == spec_be_bytes(sn),
{
    let k = spec_change_key(prefix, actor, sn);
    assert(k.take(prefix.len() as int) =~= prefix);
    assert(k.subrange(prefix.len() as int, (prefix.len() + actor.len()) as int) =~= actor);
    assert(k.subrange((prefix.len() + actor.len()) as int, (prefix.len() + actor.len() + 8) as int)
        =~= spec_be_bytes(sn));
}

/// Key encoding has no collisions: under one prefix, distinct (actor,
/// sequence) pairs get distinct keys.
pub proof fn lemma_change_key_injective(prefix: Seq<u8>, a1: Seq<u8>, s1: u64, a2: Seq<u8>, s2: u64)
    requires
        spec_change_key(prefix, a1, s1) == spec_change_key(prefix, a2, s2),
    ensures
        a1 == a2,
        s1 == s2,
{
    lemma_change_key_shape(prefix, a1, s1);
    lemma_change_key_shape(prefix, a2, s2);
    assert(a1.len() == a2.len());
    lemma_be_bytes_injective(s1, s2);
}

/// Under one prefix, distinct peers get distinct sync-state keys.
pub proof fn lemma_peer_key_injective(prefix: Seq<u8>, p1: Seq<u8>, p2: Seq<u8>)
    requires
        spec_peer_key(prefix, p1) == spec_peer_key(prefix, p2),
    ensures
        p1 == p2,
{
    assert(p1 =~= spec_peer_key(prefix, p1).skip(prefix.len() as int));
    assert(p2 =~= spec_peer_key(prefix, p2).skip(prefix.len() as int));
}

/// The deep view of a byte vector is its view.
pub proof fn lemma_bytes_deep_view(v: Vec<u8>)
    ensures
        v.deep_view() == v@,
{
    assert(v.deep_view() =~= v@);
}

/// Appends `src` to `dst`.
pub fn append_bytes(dst: &mut Vec<u8>, src: &[u8])
    ensures
        final(dst)@ == old(dst)@ + src@,
{
    let mut i: usize = 0;
    while i < src.len()
        invariant
            i <= src@.len(),
            dst@ == old(dst)@ + src@.take(i as int),
        decreases src@.len() - i,
    {
        let b = src[i];
        dst.push(b);
        assert(src@.take(i + 1) =~= src@.take(i as int).push(src@[i as int]));
        assert(old(dst)@ + src@.take(i as int).push(src@[i as int]) =~= (old(dst)@ + src@.take(
            i as int,
        )).push(src@[i as int]));
        i = i + 1;
    }
    assert(src@.take(src@.len() as int) =~= src@);
}

/// Copies a byte string.
pub fn clone_bytes(src: &[u8]) -> (r: Vec<u8>)
    ensures
        r@ == src@,
{
    let mut out: Vec<u8> = Vec::new();
    append_bytes(&mut out, src);
    assert(out@ =~= src@);
    out
}

/// Copies the bytes of `src` from position `start` on.
pub fn skip_bytes(src: &[u8], start: usize) -> (r: Vec<u8>)
    requires
        start <= src@.len(),
    ensures
        r@ == src@.skip(start as int),
{
    let mut out: Vec<u8> = Vec::new();
    let mut i: usize = start;
    while i < src.len()
        invariant
            start <= i <= src@.len(),
            out@ == src@.subrange(start as int, i as int),
        decreases src@.len() - i,
    {
        let b = src[i];
        out.push(b);
        assert(src@.subrange(start as int, i + 1) =~= src@.subrange(start as int, i as int).push(
            src@[i as int],
        ));
        i = i + 1;
    }
    assert(src@.subrange(start as int, src@.len() as int) =~= src@.skip(start as int));
    out
}

/// Whether two byte strings hold the same bytes.
pub fn bytes_eq(a: &[u8], b: &[u8]) -> (r: bool)
    ensures
        r == (a@ == b@),
{
    if a.len() != b.len() {
        assert(a@.len() != b@.len());
        return false;
    }
    let mut i: usize = 0;
    while i < a.len()
        invariant
            i <= a@.len(),
            a@.len() == b@.len(),
            forall|j: int| 0 <= j < i ==> a@[j] == b@[j],
        decreases a@.len() - i,
    {
        if a[i] != b[i] {
            return false;
        }
        i = i + 1;
    }
    assert(a@ =~= b@);
    true
}

/// Builds the eight-byte big-endian encoding of a sequence number.
pub fn be_bytes(x: u64) -> (r: Vec<u8>)
    ensures
        r@ == spec_be_bytes(x),
{
    let mut out: Vec<u8> = Vec::new();
    let mut i: usize = 0;
    while i < 8
        invariant
            i <= 8,
            out@.len() == i,
            forall|j: int| 0 <= j < i ==> out@[j] == be_byte(x, j),
        decreases 8 - i,
    {
        let shift: u64 = 56 - 8 * (i as u64);
        let b: u64 = (x >> shift) & 0xff;
        assert(b <= 0xff) by (bit_vector)
            requires
                b == (x >> shift) & 0xff,
        ;
        out.push(b as u8);
        assert(out@[i as int] == be_byte(x, i as int));
        i = i + 1;
    }
    assert(out@ =~= spec_be_bytes(x));
    out
}

/// Builds the storage key of a change record: `prefix ++ actor ++
/// big_endian(sn)`.
pub fn change_key(prefix: &[u8], actor: &[u8], sn: u64) -> (r: Vec<u8>)
    ensures
        r@ == spec_change_key(prefix@, actor@, sn),
{
    let mut key = clone_bytes(prefix);
    append_bytes(&mut key, actor);
    let tail = be_bytes(sn);
    append_bytes(&mut key, tail.as_slice());
    key
}

/// Builds the storage key of a peer's sync state: `prefix ++ peer_id`.
pub fn peer_key(prefix: &[u8], peer_id: &[u8]) -> (r: Vec<u8>)
    ensures
        r@ == spec_peer_key(prefix@, peer_id@),
{
    let mut key = clone_bytes(prefix);
    append_bytes(&mut key, peer_id);
    key
}

} // verus!
