//! CRC-32C (Castagnoli) checksums over byte runs.
//!
//! The checksum guards every delta-log record and the superblock. It is the
//! reflected CRC-32C with polynomial `0x82F6_3B78`, initial value `!0`, and a
//! final bitwise complement.
use vstd::prelude::*;

verus! {

/// Reflected CRC-32C polynomial.
pub const CRC32C_POLY: u32 = 0x82F6_3B78;

/// One bit step of the reflected CRC register.
pub open spec fn crc_bit(c: u32) -> u32 {
    if c & 1 == 1 {
        (c >> 1) ^ CRC32C_POLY
    } else {
        c >> 1
    }
}

/// `n` bit steps of the reflected CRC register.
pub open spec fn crc_bits(c: u32, n: nat) -> u32
    decreases n,
{
    if n == 0 {
        c
    } else {
        crc_bits(crc_bit(c), (n - 1) as nat)
    }
}

/// Folds one byte into the raw (uncomplemented) CRC register.
pub open spec fn crc_byte(c: u32, b: u8) -> u32 {
    crc_bits(c ^ (b as u32), 8)
}

/// Folds a byte run into the raw CRC register, front to back.
pub open spec fn crc_raw(c: u32, s: Seq<u8>) -> u32
    decreases s.len(),
{
    if s.len() == 0 {
        c
    } else {
        crc_byte(crc_raw(c, s.drop_last()), s.last())
    }
}

/// The CRC-32C of a byte run.
pub open spec fn spec_checksum(s: Seq<u8>) -> u32 {
    !crc_raw(!0u32, s)
}

/// Continues a finished CRC-32C `crc` over `more` bytes.
pub open spec fn spec_checksum_append(crc: u32, more: Seq<u8>) -> u32 {
    !crc_raw(!crc, more)
}

/// Folding `a + b` is folding `a` and then `b`.
pub proof fn lemma_crc_raw_concat(c: u32, a: Seq<u8>, b: Seq<u8>)
    ensures
        crc_raw(c, a + b) == crc_raw(crc_raw(c, a), b),
    decreases b.len(),
{
    if b.len() == 0 {
        assert(a + b =~= a);
    } else {
        lemma_crc_raw_concat(c, a, b.drop_last());
        assert((a + b).drop_last() =~= a + b.drop_last());
        assert((a + b).last() == b.last());
    }
}

/// Continuing the checksum of `a` over `b` is the checksum of `a + b`, so a
/// checksum over two disjoint slices needs no joined buffer.
pub proof fn lemma_checksum_append(a: Seq<u8>, b: Seq<u8>)
    ensures
        spec_checksum_append(spec_checksum(a), b) == spec_checksum(a + b),
{
    let r = crc_raw(!0u32, a);
    assert(!(!r) == r) by (bit_vector);
    lemma_crc_raw_concat(!0u32, a, b);
}

/// Folds one byte into the raw register.
fn crc_update_byte(c: u32, b: u8) -> (out: u32)
    ensures
        out == crc_byte(c, b),
{
    let mut reg: u32 = c ^ (b as u32);
    let mut i: u32 = 0;
    while i < 8
        invariant
            i <= 8,
            crc_bits(reg, (8 - i) as nat) == crc_byte(c, b),
        decreases 8 - i,
    {
        reg = if reg & 1 == 1 {
            (reg >> 1) ^ CRC32C_POLY
        } else {
            reg >> 1
        };
        i = i + 1;
    }
    reg
}

/// Folds a byte run into the raw register.
fn crc_update(c: u32, bytes: &[u8]) -> (out: u32)
    ensures
        out == crc_raw(c, bytes@),
{
    let mut reg = c;
    let mut i: usize = 0;
    while i < bytes.len()
        invariant
            i <= bytes@.len(),
            reg == crc_raw(c, bytes@.subrange(0, i as int)),
        decreases bytes@.len() - i,
    {
        proof {
            assert(bytes@.subrange(0, i as int + 1).drop_last() =~= bytes@.subrange(0, i as int));
        }
        reg = crc_update_byte(reg, bytes[i]);
        i = i + 1;
    }
    proof {
        assert(bytes@.subrange(0, i as int) =~= bytes@);
    }
    reg
}

/// Computes the CRC-32C of `bytes`.
pub fn checksum(bytes: &[u8]) -> (crc: u32)
    ensures
        crc == spec_checksum(bytes@),
{
    !crc_update(!0u32, bytes)
}

/// Continues the finished CRC-32C `crc` over `more`; equal to the checksum of
/// the concatenation of the bytes `crc` was computed over and `more`.
pub fn checksum_append(crc: u32, more: &[u8]) -> (out: u32)
    ensures
        out == spec_checksum_append(crc, more@),
{
    !crc_update(!crc, more)
}

} // verus!
