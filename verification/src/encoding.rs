//! Fixed-width big-endian integer encodings used on the wire.
use vstd::prelude::*;

verus! {

/// The two big-endian bytes of `v`.
pub open spec fn u16_be(v: u16) -> Seq<u8> {
    seq![(v >> 8u16) as u8, (v & 0xffu16) as u8]
}

/// The value of two big-endian bytes.
pub open spec fn u16_from_be(b0: u8, b1: u8) -> u16 {
    ((b0 as u16) << 8u16) | (b1 as u16)
}

/// The four big-endian bytes of `v`.
pub open spec fn u32_be(v: u32) -> Seq<u8> {
    seq![(v >> 24u32) as u8, ((v >> 16u32) & 0xffu32) as u8, ((v >> 8u32) & 0xffu32) as u8, (v & 0xffu32) as u8]
}

/// The value of four big-endian bytes.
pub open spec fn u32_from_be(b0: u8, b1: u8, b2: u8, b3: u8) -> u32 {
    ((b0 as u32) << 24u32) | ((b1 as u32) << 16u32) | ((b2 as u32) << 8u32) | (b3 as u32)
}

/// The eight big-endian bytes of `v`.
pub open spec fn u64_be(v: u64) -> Seq<u8> {
    seq![
        (v >> 56u64) as u8,
        ((v >> 48u64) & 0xffu64) as u8,
        ((v >> 40u64) & 0xffu64) as u8,
        ((v >> 32u64) & 0xffu64) as u8,
        ((v >> 24u64) & 0xffu64) as u8,
        ((v >> 16u64) & 0xffu64) as u8,
        ((v >> 8u64) & 0xffu64) as u8,
        (v & 0xffu64) as u8,
    ]
}

/// The value of the first eight bytes of `b`, read big-endian.
pub open spec fn u64_from_be(b: Seq<u8>) -> u64 {
    ((b[0] as u64) << 56u64) | ((b[1] as u64) << 48u64) | ((b[2] as u64) << 40u64)
        | ((b[3] as u64) << 32u64) | ((b[4] as u64) << 24u64) | ((b[5] as u64) << 16u64)
        | ((b[6] as u64) << 8u64) | (b[7] as u64)
}

/// Reading back the bytes of a `u16` gives the `u16`.
pub proof fn lemma_u16_be_roundtrip(v: u16)
    ensures
        u16_from_be(u16_be(v)[0], u16_be(v)[1]) == v,
{
    let b0 = (v >> 8u16) as u8;
    let b1 = (v & 0xffu16) as u8;
    assert(((b0 as u16) << 8u16) | (b1 as u16) == v) by (bit_vector)
        requires
            b0 == (v >> 8u16) as u8,
            b1 == (v & 0xffu16) as u8,
    ;
}

/// Reading back the bytes of a `u32` gives the `u32`.
pub proof fn lemma_u32_be_roundtrip(v: u32)
    ensures
        u32_from_be(u32_be(v)[0], u32_be(v)[1], u32_be(v)[2], u32_be(v)[3]) == v,
{
    let b0 = (v >> 24u32) as u8;
    let b1 = ((v >> 16u32) & 0xffu32) as u8;
    let b2 = ((v >> 8u32) & 0xffu32) as u8;
    let b3 = (v & 0xffu32) as u8;
    assert(((b0 as u32) << 24u32) | ((b1 as u32) << 16u32) | ((b2 as u32) << 8u32) | (b3 as u32)
        == v) by (bit_vector)
        requires
            b0 == (v >> 24u32) as u8,
            b1 == ((v >> 16u32) & 0xffu32) as u8,
            b2 == ((v >> 8u32) & 0xffu32) as u8,
            b3 == (v & 0xffu32) as u8,
    ;
}

/// Reading back the bytes of a `u64` gives the `u64`.
pub proof fn lemma_u64_be_roundtrip(v: u64)
    ensures
        u64_from_be(u64_be(v)) == v,
{
    let b = u64_be(v);
    let b0 = (v >> 56u64) as u8;
    let b1 = ((v >> 48u64) & 0xffu64) as u8;
    let b2 = ((v >> 40u64) & 0xffu64) as u8;
    let b3 = ((v >> 32u64) & 0xffu64) as u8;
    let b4 = ((v >> 24u64) & 0xffu64) as u8;
    let b5 = ((v >> 16u64) & 0xffu64) as u8;
    let b6 = ((v >> 8u64) & 0xffu64) as u8;
    let b7 = (v & 0xffu64) as u8;
    assert(b[0] == b0 && b[1] == b1 && b[2] == b2 && b[3] == b3 && b[4] == b4 && b[5] == b5
        && b[6] == b6 && b[7] == b7);
    assert(((b0 as u64) << 56u64) | ((b1 as u64) << 48u64) | ((b2 as u64) << 40u64) | ((
    b3 as u64) << 32u64) | ((b4 as u64) << 24u64) | ((b5 as u64) << 16u64) | ((b6 as u64)
        << 8u64) | (b7 as u64) == v) by (bit_vector)
        requires
            b0 == (v >> 56u64) as u8,
            b1 == ((v >> 48u64) & 0xffu64) as u8,
            b2 == ((v >> 40u64) & 0xffu64) as u8,
            b3 == ((v >> 32u64) & 0xffu64) as u8,
            b4 == ((v >> 24u64) & 0xffu64) as u8,
            b5 == ((v >> 16u64) & 0xffu64) as u8,
            b6 == ((v >> 8u64) & 0xffu64) as u8,
            b7 == (v & 0xffu64) as u8,
    ;
}

/// Distinct `u64` values have distinct big-endian encodings.
pub proof fn lemma_u64_be_injective(a: u64, b: u64)
    ensures
        u64_be(a) == u64_be(b) ==> a == b,
{
    lemma_u64_be_roundtrip(a);
    lemma_u64_be_roundtrip(b);
}

/// The big-endian bytes of the value read from the first eight bytes of `b`
/// are those eight bytes.
pub proof fn lemma_u64_from_be_bytes(b: Seq<u8>)
    requires
        b.len() >= 8,
    ensures
        u64_be(u64_from_be(b)) == b.subrange(0, 8),
{
    let (b0, b1, b2, b3, b4, b5, b6, b7) = (b[0], b[1], b[2], b[3], b[4], b[5], b[6], b[7]);
    let v = u64_from_be(b);
    assert(v == ((b0 as u64) << 56u64) | ((b1 as u64) << 48u64) | ((b2 as u64) << 40u64) | ((
    b3 as u64) << 32u64) | ((b4 as u64) << 24u64) | ((b5 as u64) << 16u64) | ((b6 as u64)
        << 8u64) | (b7 as u64));
    assert((v >> 56u64) as u8 == b0 && ((v >> 48u64) & 0xffu64) as u8 == b1 && ((v >> 40u64)
        & 0xffu64) as u8 == b2 && ((v >> 32u64) & 0xffu64) as u8 == b3 && ((v >> 24u64)
        & 0xffu64) as u8 == b4 && ((v >> 16u64) & 0xffu64) as u8 == b5 && ((v >> 8u64)
        & 0xffu64) as u8 == b6 && (v & 0xffu64) as u8 == b7) by (bit_vector)
        requires
            v == ((b0 as u64) << 56u64) | ((b1 as u64) << 48u64) | ((b2 as u64) << 40u64) | ((
            b3 as u64) << 32u64) | ((b4 as u64) << 24u64) | ((b5 as u64) << 16u64) | ((
            b6 as u64) << 8u64) | (b7 as u64),
    ;
    assert(u64_be(v) =~= b.subrange(0, 8));
}

/// Appends the two big-endian bytes of `v`.
pub fn push_u16_be(out: &mut Vec<u8>, v: u16)
    ensures
        final(out)@ == old(out)@ + u16_be(v),
{
    out.push((v >> 8u16) as u8);
    out.push((v & 0xffu16) as u8);
    assert(out@ =~= old(out)@ + u16_be(v));
}

/// Appends the eight big-endian bytes of `v`.
pub fn push_u64_be(out: &mut Vec<u8>, v: u64)
    ensures
        final(out)@ == old(out)@ + u64_be(v),
{
    out.push((v >> 56u64) as u8);
    out.push(((v >> 48u64) & 0xffu64) as u8);
    out.push(((v >> 40u64) & 0xffu64) as u8);
    out.push(((v >> 32u64) & 0xffu64) as u8);
    out.push(((v >> 24u64) & 0xffu64) as u8);
    out.push(((v >> 16u64) & 0xffu64) as u8);
    out.push(((v >> 8u64) & 0xffu64) as u8);
    out.push((v & 0xffu64) as u8);
    assert(out@ =~= old(out)@ + u64_be(v));
}

/// Reads a big-endian `u64` from the first eight bytes.
pub fn read_u64_be(b: &[u8]) -> (v: u64)
    requires
        b@.len() >= 8,
    ensures
        v == u64_from_be(b@),
{
    ((b[0] as u64) << 56u64) | ((b[1] as u64) << 48u64) | ((b[2] as u64) << 40u64) | ((
    b[3] as u64) << 32u64) | ((b[4] as u64) << 24u64) | ((b[5] as u64) << 16u64) | ((
    b[6] as u64) << 8u64) | (b[7] as u64)
}

} // verus!
