//! Little-endian fixed-width field codec shared by the wire formats.
use vstd::bytes::{
    spec_u32_from_le_bytes, spec_u32_to_le_bytes, spec_u64_from_le_bytes,
    spec_u64_to_le_bytes, u32_from_le_bytes, u32_to_le_bytes, u64_from_le_bytes,
    u64_to_le_bytes,
};
use vstd::prelude::*;
use vstd::slice::{slice_subrange, slice_to_vec};

verus! {

/// The four little-endian bytes of a `u32`.
pub open spec fn le32(x: u32) -> Seq<u8> {
    spec_u32_to_le_bytes(x)
}

/// The eight little-endian bytes of a `u64`.
pub open spec fn le64(x: u64) -> Seq<u8> {
    spec_u64_to_le_bytes(x)
}

/// The `u32` stored little-endian at `pos`.
pub open spec fn u32_at(s: Seq<u8>, pos: int) -> u32 {
    spec_u32_from_le_bytes(s.subrange(pos, pos + 4))
}

/// The `u64` stored little-endian at `pos`.
pub open spec fn u64_at(s: Seq<u8>, pos: int) -> u64 {
    spec_u64_from_le_bytes(s.subrange(pos, pos + 8))
}

/// Encoded fields have their fixed widths, and reading a field back at its
/// offset inside any surrounding bytes yields the encoded value.
pub proof fn lemma_le32_read(a: Seq<u8>, x: u32, b: Seq<u8>)
    ensures
        le32(x).len() == 4,
        u32_at(a + le32(x) + b, a.len() as int) == x,
{
    vstd::bytes::lemma_auto_spec_u32_to_from_le_bytes();
    assert((a + le32(x) + b).subrange(a.len() as int, a.len() + 4int) =~= le32(x));
}

/// See [`lemma_le32_read`].
pub proof fn lemma_le64_read(a: Seq<u8>, x: u64, b: Seq<u8>)
    ensures
        le64(x).len() == 8,
        u64_at(a + le64(x) + b, a.len() as int) == x,
{
    vstd::bytes::lemma_auto_spec_u64_to_from_le_bytes();
    assert((a + le64(x) + b).subrange(a.len() as int, a.len() + 8int) =~= le64(x));
}

/// Encoded widths.
pub proof fn lemma_le_lens(x: u32, y: u64)
    ensures
        le32(x).len() == 4,
        le64(y).len() == 8,
{
    vstd::bytes::lemma_auto_spec_u32_to_from_le_bytes();
    vstd::bytes::lemma_auto_spec_u64_to_from_le_bytes();
}

/// Appends a `u32` little-endian.
pub fn push_u32(out: &mut Vec<u8>, x: u32)
    ensures
        final(out)@ == old(out)@ + le32(x),
{
    let mut bytes = u32_to_le_bytes(x);
    out.append(&mut bytes);
}

/// Appends a `u64` little-endian.
pub fn push_u64(out: &mut Vec<u8>, x: u64)
    ensures
        final(out)@ == old(out)@ + le64(x),
{
    let mut bytes = u64_to_le_bytes(x);
    out.append(&mut bytes);
}

/// Appends a byte run.
pub fn push_bytes(out: &mut Vec<u8>, bytes: &[u8])
    ensures
        final(out)@ == old(out)@ + bytes@,
{
    let mut copy = slice_to_vec(bytes);
    out.append(&mut copy);
}

/// Reads the `u32` stored little-endian at `pos`.
pub fn read_u32_at(s: &[u8], pos: usize) -> (x: u32)
    requires
        pos + 4 <= s@.len(),
    ensures
        x == u32_at(s@, pos as int),
{
    let _n = s.len();
    u32_from_le_bytes(slice_subrange(s, pos, pos + 4))
}

/// Reads the `u64` stored little-endian at `pos`.
pub fn read_u64_at(s: &[u8], pos: usize) -> (x: u64)
    requires
        pos + 8 <= s@.len(),
    ensures
        x == u64_at(s@, pos as int),
{
    let _n = s.len();
    u64_from_le_bytes(slice_subrange(s, pos, pos + 8))
}

} // verus!
