//! Little-endian encoding helpers shared by every serializer in the crate.

use vstd::prelude::*;
use vstd::bytes::*;

verus! {

/// Little-endian `u16` at byte `p` of `d`.
pub open spec fn u16_at(d: Seq<u8>, p: int) -> u16 {
    spec_u16_from_le_bytes(d.subrange(p, p + 2))
}

/// Little-endian `u32` at byte `p` of `d`.
pub open spec fn u32_at(d: Seq<u8>, p: int) -> u32 {
    spec_u32_from_le_bytes(d.subrange(p, p + 4))
}

/// Little-endian `u64` at byte `p` of `d`.
pub open spec fn u64_at(d: Seq<u8>, p: int) -> u64 {
    spec_u64_from_le_bytes(d.subrange(p, p + 8))
}

/// Appends `bytes` to the end of `buf`.
pub fn push_all(buf: &mut Vec<u8>, bytes: &[u8])
    ensures
        final(buf)@ == old(buf)@ + bytes@,
{
    let n = bytes.len();
    let mut i: usize = 0;
    while i < n
        invariant
            n == bytes@.len(),
            0 <= i <= n,
            buf@ == old(buf)@ + bytes@.subrange(0, i as int),
        decreases n - i,
    {
        buf.push(bytes[i]);
        i = i + 1;
        assert(bytes@.subrange(0, i as int) == bytes@.subrange(0, (i - 1) as int).push(bytes@[i - 1]));
    }
    assert(bytes@.subrange(0, n as int) == bytes@);
}

/// Appends the little-endian encoding of a `u16`.
pub fn push_u16(buf: &mut Vec<u8>, x: u16)
    ensures
        final(buf)@ == old(buf)@ + spec_u16_to_le_bytes(x),
{
    let v = u16_to_le_bytes(x);
    push_all(buf, v.as_slice());
}

/// Appends the little-endian encoding of a `u32`.
pub fn push_u32(buf: &mut Vec<u8>, x: u32)
    ensures
        final(buf)@ == old(buf)@ + spec_u32_to_le_bytes(x),
{
    let v = u32_to_le_bytes(x);
    push_all(buf, v.as_slice());
}

/// Appends the little-endian encoding of a `u64`.
pub fn push_u64(buf: &mut Vec<u8>, x: u64)
    ensures
        final(buf)@ == old(buf)@ + spec_u64_to_le_bytes(x),
{
    let v = u64_to_le_bytes(x);
    push_all(buf, v.as_slice());
}

/// Reads a little-endian `u16` starting at `pos`.
pub fn read_u16(data: &[u8], pos: usize) -> (x: u16)
    requires
        pos + 2 <= data@.len(),
    ensures
        x == spec_u16_from_le_bytes(data@.subrange(pos as int, pos + 2)),
{
    let len = data.len();
    u16_from_le_bytes(vstd::slice::slice_subrange(data, pos, pos + 2))
}

/// Reads a little-endian `u32` starting at `pos`.
pub fn read_u32(data: &[u8], pos: usize) -> (x: u32)
    requires
        pos + 4 <= data@.len(),
    ensures
        x == spec_u32_from_le_bytes(data@.subrange(pos as int, pos + 4)),
{
    let len = data.len();
    u32_from_le_bytes(vstd::slice::slice_subrange(data, pos, pos + 4))
}

/// Reads a little-endian `u64` starting at `pos`.
pub fn read_u64(data: &[u8], pos: usize) -> (x: u64)
    requires
        pos + 8 <= data@.len(),
    ensures
        x == spec_u64_from_le_bytes(data@.subrange(pos as int, pos + 8)),
{
    let len = data.len();
    u64_from_le_bytes(vstd::slice::slice_subrange(data, pos, pos + 8))
}

/// Encoding then decoding a `u16` gives the value back; every encoding is two bytes.
pub proof fn lemma_u16_roundtrip(x: u16)
    ensures
        spec_u16_to_le_bytes(x).len() == 2,
        spec_u16_from_le_bytes(spec_u16_to_le_bytes(x)) == x,
{
    lemma_auto_spec_u16_to_from_le_bytes();
    assert(spec_u16_to_le_bytes(x).len() == 2);
}

/// Encoding then decoding a `u32` gives the value back; every encoding is four bytes.
pub proof fn lemma_u32_roundtrip(x: u32)
    ensures
        spec_u32_to_le_bytes(x).len() == 4,
        spec_u32_from_le_bytes(spec_u32_to_le_bytes(x)) == x,
{
    lemma_auto_spec_u32_to_from_le_bytes();
    assert(spec_u32_to_le_bytes(x).len() == 4);
}

/// Encoding then decoding a `u64` gives the value back; every encoding is eight bytes.
pub proof fn lemma_u64_roundtrip(x: u64)
    ensures
        spec_u64_to_le_bytes(x).len() == 8,
        spec_u64_from_le_bytes(spec_u64_to_le_bytes(x)) == x,
{
    lemma_auto_spec_u64_to_from_le_bytes();
    assert(spec_u64_to_le_bytes(x).len() == 8);
}

} // verus!
