//! Big-endian integers as bytes.
use vstd::prelude::*;

verus! {

/// The two big-endian bytes of `v`.
pub open spec fn u16_be(v: u16) -> Seq<u8> {
    seq![(v >> 8u16) as u8, (v & 0xffu16) as u8]
}

/// The four big-endian bytes of `v`.
pub open spec fn u32_be(v: u32) -> Seq<u8> {
    seq![
        (v >> 24u32) as u8,
        ((v >> 16u32) & 0xffu32) as u8,
        ((v >> 8u32) & 0xffu32) as u8,
        (v & 0xffu32) as u8,
    ]
}

/// The eight big-endian bytes of `v`.
pub open spec fn u64_be(v: u64) -> Seq<u8> {
    seq![
        (v >> 56u64) as u8,
        ((v >> 48u64) & 0xffu64) as u8,
        ((v >> 40u64) & 0xffu64) as u8,
        ((v >> 32u64) & 0xffu64) as u8,
        ((v >> 24u64) & 0xffu64) as u8,
        ((v >> 16u64) & 0xffu64) as u8,
        ((v >> 8u64) & 0xffu64) as u8,
        (v & 0xffu64) as u8,
    ]
}

/// The `u16` whose big-endian bytes are `s[p]`, `s[p + 1]`.
pub open spec fn u16_at(s: Seq<u8>, p: int) -> u16 {
    ((s[p] as u16) << 8u16) | (s[p + 1] as u16)
}

/// The `u32` whose big-endian bytes start at `s[p]`.
pub open spec fn u32_at(s: Seq<u8>, p: int) -> u32 {
    ((s[p] as u32) << 24u32) | ((s[p + 1] as u32) << 16u32) | ((s[p + 2] as u32) << 8u32) | (s[p
        + 3] as u32)
}

/// The `u64` whose big-endian bytes start at `s[p]`.
pub open spec fn u64_at(s: Seq<u8>, p: int) -> u64 {
    ((s[p] as u64) << 56u64) | ((s[p + 1] as u64) << 48u64) | ((s[p + 2] as u64) << 40u64) | ((s[p
        + 3] as u64) << 32u64) | ((s[p + 4] as u64) << 24u64) | ((s[p + 5] as u64) << 16u64) | ((s[p
        + 6] as u64) << 8u64) | (s[p + 7] as u64)
}

/// Reading back the bytes of a `u16` gives the `u16`.
pub proof fn lemma_u16_roundtrip(v: u16)
    ensures
        u16_at(u16_be(v), 0) == v,
{
    let b0 = (v >> 8u16) as u8;
    let b1 = (v & 0xffu16) as u8;
    assert(u16_be(v)[0] == b0 && u16_be(v)[1] == b1);
    assert(((b0 as u16) << 8u16) | (b1 as u16) == v) by (bit_vector)
        requires
            b0 == (v >> 8u16) as u8,
            b1 == (v & 0xffu16) as u8,
    ;
}

/// Reading back the bytes of a `u32` gives the `u32`.
pub proof fn lemma_u32_roundtrip(v: u32)
    ensures
        u32_at(u32_be(v), 0) == v,
{
    let b0 = (v >> 24u32) as u8;
    let b1 = ((v >> 16u32) & 0xffu32) as u8;
    let b2 = ((v >> 8u32) & 0xffu32) as u8;
    let b3 = (v & 0xffu32) as u8;
    let s = u32_be(v);
    assert(s[0] == b0 && s[1] == b1 && s[2] == b2 && s[3] == b3);
    assert(((b0 as u32) << 24u32) | ((b1 as u32) << 16u32) | ((b2 as u32) << 8u32) | (b3 as u32)
        == v) by (bit_vector)
        requires
            b0 == (v >> 24u32) as u8,
            b1 == ((v >> 16u32) & 0xffu32) as u8,
            b2 == ((v >> 8u32) & 0xffu32) as u8,
            b3 == (v & 0xffu32) as u8,
    ;
}

/// Reading back the bytes of a `u64` gives the `u64`.
pub proof fn lemma_u64_roundtrip(v: u64)
    ensures
        u64_at(u64_be(v), 0) == v,
{
    let b0 = (v >> 56u64) as u8;
    let b1 = ((v >> 48u64) & 0xffu64) as u8;
    let b2 = ((v >> 40u64) & 0xffu64) as u8;
    let b3 = ((v >> 32u64) & 0xffu64) as u8;
    let b4 = ((v >> 24u64) & 0xffu64) as u8;
    let b5 = ((v >> 16u64) & 0xffu64) as u8;
    let b6 = ((v >> 8u64) & 0xffu64) as u8;
    let b7 = (v & 0xffu64) as u8;
    let s = u64_be(v);
    assert(s[0] == b0 && s[1] == b1 && s[2] == b2 && s[3] == b3 && s[4] == b4 && s[5] == b5 && s[6]
        == b6 && s[7] == b7);
    assert(((b0 as u64) << 56u64) | ((b1 as u64) << 48u64) | ((b2 as u64) << 40u64) | ((b3 as u64)
        << 32u64) | ((b4 as u64) << 24u64) | ((b5 as u64) << 16u64) | ((b6 as u64) << 8u64) | (
    b7 as u64) == v) by (bit_vector)
        requires
            b0 == (v >> 56u64) as u8,
            b1 == ((v >> 48u64) & 0xffu64) as u8,
            b2 == ((v >> 40u64) & 0xffu64) as u8,
            b3 == ((v >> 32u64) & 0xffu64) as u8,
            b4 == ((v >> 24u64) & 0xffu64) as u8,
            b5 == ((v >> 16u64) & 0xffu64) as u8,
            b6 == ((v >> 8u64) & 0xffu64) as u8,
            b7 == (v & 0xffu64) as u8,
    ;
}

/// Appends the big-endian bytes of `v`.
pub fn push_u16(out: &mut Vec<u8>, v: u16)
    ensures
        final(out)@ == old(out)@ + u16_be(v),
{
    out.push((v >> 8u16) as u8);
    out.push((v & 0xffu16) as u8);
    assert(out@ =~= old(out)@ + u16_be(v));
}

/// Appends the big-endian bytes of `v`.
pub fn push_u32(out: &mut Vec<u8>, v: u32)
    ensures
        final(out)@ == old(out)@ + u32_be(v),
{
    out.push((v >> 24u32) as u8);
    out.push(((v >> 16u32) & 0xffu32) as u8);
    out.push(((v >> 8u32) & 0xffu32) as u8);
    out.push((v & 0xffu32) as u8);
    assert(out@ =~= old(out)@ + u32_be(v));
}

/// Appends the big-endian bytes of `v`.
pub fn push_u64(out: &mut Vec<u8>, v: u64)
    ensures
        final(out)@ == old(out)@ + u64_be(v),
{
    out.push((v >> 56u64) as u8);
    out.push(((v >> 48u64) & 0xffu64) as u8);
    out.push(((v >> 40u64) & 0xffu64) as u8);
    out.push(((v >> 32u64) & 0xffu64) as u8);
    out.push(((v >> 24u64) & 0xffu64) as u8);
    out.push(((v >> 16u64) & 0xffu64) as u8);
    out.push(((v >> 8u64) & 0xffu64) as u8);
    out.push((v & 0xffu64) as u8);
    assert(out@ =~= old(out)@ + u64_be(v));
}

/// The `u16` stored big-endian at `s[p]`.
pub fn read_u16(s: &[u8], p: usize) -> (v: u16)
    requires
        p + 2 <= s@.len(),
    ensures
        v == u16_at(s@, p as int),
{
    ((s[p] as u16) << 8u16) | (s[p + 1] as u16)
}

/// The `u32` stored big-endian at `s[p]`.
pub fn read_u32(s: &[u8], p: usize) -> (v: u32)
    requires
        p + 4 <= s@.len(),
    ensures
        v == u32_at(s@, p as int),
{
    ((s[p] as u32) << 24u32) | ((s[p + 1] as u32) << 16u32) | ((s[p + 2] as u32) << 8u32) | (s[p
        + 3] as u32)
}

/// The `u64` stored big-endian at `s[p]`.
pub fn read_u64(s: &[u8], p: usize) -> (v: u64)
    requires
        p + 8 <= s@.len(),
    ensures
        v == u64_at(s@, p as int),
{
    ((s[p] as u64) << 56u64) | ((s[p + 1] as u64) << 48u64) | ((s[p + 2] as u64) << 40u64) | ((s[p
        + 3] as u64) << 32u64) | ((s[p + 4] as u64) << 24u64) | ((s[p + 5] as u64) << 16u64) | ((s[p
        + 6] as u64) << 8u64) | (s[p + 7] as u64)
}

} // verus!
