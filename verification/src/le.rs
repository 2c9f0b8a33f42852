//! Little-endian fields inside byte buffers.
use vstd::prelude::*;
use vstd::bytes::{spec_u16_from_le_bytes, spec_u16_to_le_bytes, spec_u64_from_le_bytes,
    spec_u64_to_le_bytes, u16_from_le_bytes, u16_to_le_bytes, u64_from_le_bytes, u64_to_le_bytes,
    lemma_auto_spec_u16_to_from_le_bytes, lemma_auto_spec_u64_to_from_le_bytes};
use vstd::slice::slice_subrange;

verus! {

/// The little-endian `u16` at byte `at` of `s`.
pub open spec fn le16(s: Seq<u8>, at: int) -> u16 {
    spec_u16_from_le_bytes(s.subrange(at, at + 2))
}

/// The little-endian `u64` at byte `at` of `s`.
pub open spec fn le64(s: Seq<u8>, at: int) -> u64 {
    spec_u64_from_le_bytes(s.subrange(at, at + 8))
}

/// `s` with the bytes from `at` on replaced by `b`.
pub open spec fn splice(s: Seq<u8>, at: int, b: Seq<u8>) -> Seq<u8> {
    s.subrange(0, at) + b + s.subrange(at + b.len(), s.len() as int)
}

/// Reading a field just written gives the value written.
pub proof fn lemma_read_spliced16(s: Seq<u8>, at: int, x: u16)
    requires
        0 <= at,
        at + 2 <= s.len(),
    ensures
        le16(splice(s, at, spec_u16_to_le_bytes(x)), at) == x,
        splice(s, at, spec_u16_to_le_bytes(x)).len() == s.len(),
{
    lemma_auto_spec_u16_to_from_le_bytes();
    let t = splice(s, at, spec_u16_to_le_bytes(x));
    assert(t.subrange(at, at + 2) =~= spec_u16_to_le_bytes(x));
}

/// Reading a field just written gives the value written.
pub proof fn lemma_read_spliced64(s: Seq<u8>, at: int, x: u64)
    requires
        0 <= at,
        at + 8 <= s.len(),
    ensures
        le64(splice(s, at, spec_u64_to_le_bytes(x)), at) == x,
        splice(s, at, spec_u64_to_le_bytes(x)).len() == s.len(),
{
    lemma_auto_spec_u64_to_from_le_bytes();
    let t = splice(s, at, spec_u64_to_le_bytes(x));
    assert(t.subrange(at, at + 8) =~= spec_u64_to_le_bytes(x));
}

/// A splice leaves the bytes outside its range alone.
pub proof fn lemma_splice_frame(s: Seq<u8>, at: int, b: Seq<u8>)
    requires
        0 <= at,
        at + b.len() <= s.len(),
    ensures
        splice(s, at, b).len() == s.len(),
        forall|p: int| 0 <= p < s.len() && (p < at || p >= at + b.len()) ==> #[trigger] splice(s, at, b)[p] == s[p],
        forall|p: int| at <= p < at + b.len() ==> #[trigger] splice(s, at, b)[p] == b[p - at],
{
}

/// Equal bytes read as equal fields.
pub proof fn lemma_same_bytes16(s: Seq<u8>, t: Seq<u8>, at: int)
    requires
        0 <= at,
        at + 2 <= s.len(),
        at + 2 <= t.len(),
        s[at] == t[at],
        s[at + 1] == t[at + 1],
    ensures
        le16(s, at) == le16(t, at),
{
    assert(s.subrange(at, at + 2) =~= t.subrange(at, at + 2));
}

/// Equal bytes read as equal fields.
pub proof fn lemma_same_bytes64(s: Seq<u8>, t: Seq<u8>, at: int)
    requires
        0 <= at,
        at + 8 <= s.len(),
        at + 8 <= t.len(),
        forall|p: int| at <= p < at + 8 ==> s[p] == t[p],
    ensures
        le64(s, at) == le64(t, at),
{
    assert(s.subrange(at, at + 8) =~= t.subrange(at, at + 8));
}

pub fn read_le16(data: &[u8], at: usize) -> (r: u16)
    requires
        at + 2 <= data@.len(),
    ensures
        r == le16(data@, at as int),
{
    let _n = data.len();
    u16_from_le_bytes(slice_subrange(data, at, at + 2))
}

pub fn read_le64(data: &[u8], at: usize) -> (r: u64)
    requires
        at + 8 <= data@.len(),
    ensures
        r == le64(data@, at as int),
{
    let _n = data.len();
    u64_from_le_bytes(slice_subrange(data, at, at + 8))
}

/// Copy `bytes` into `data` starting at `at`.
pub fn put_bytes(data: &mut [u8], at: usize, bytes: &[u8])
    requires
        at + bytes@.len() <= old(data)@.len(),
    ensures
        final(data)@ == splice(old(data)@, at as int, bytes@),
{
    let _n = data.len();
    let mut i: usize = 0;
    while i < bytes.len()
        invariant
            i <= bytes@.len(),
            at + bytes@.len() <= data@.len(),
            data@.len() == old(data)@.len(),
            data@.len() <= usize::MAX,
            data@ =~= old(data)@.subrange(0, at as int) + bytes@.subrange(0, i as int)
                + old(data)@.subrange(at + i, old(data)@.len() as int),
        decreases bytes@.len() - i,
    {
        data[at + i] = bytes[i];
        i = i + 1;
    }
}

pub fn put_le16(data: &mut [u8], at: usize, x: u16)
    requires
        at + 2 <= old(data)@.len(),
    ensures
        final(data)@ == splice(old(data)@, at as int, spec_u16_to_le_bytes(x)),
{
    let b = u16_to_le_bytes(x);
    put_bytes(data, at, b.as_slice());
}

pub fn put_le64(data: &mut [u8], at: usize, x: u64)
    requires
        at + 8 <= old(data)@.len(),
    ensures
        final(data)@ == splice(old(data)@, at as int, spec_u64_to_le_bytes(x)),
{
    let b = u64_to_le_bytes(x);
    put_bytes(data, at, b.as_slice());
}

} // verus!
