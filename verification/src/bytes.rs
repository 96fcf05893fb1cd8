//! Little-endian integers as they stand in the container and in the Huffman sections.

use vstd::arithmetic::div_mod::*;
use vstd::prelude::*;

verus! {

/// The four bytes of `v`, least significant first.
pub open spec fn le32(v: int) -> Seq<u8> {
    seq![
        (v % 256) as u8,
        (v / 256 % 256) as u8,
        (v / 65536 % 256) as u8,
        (v / 16777216 % 256) as u8,
    ]
}

/// The number whose four bytes, least significant first, stand in `data` from `at` on.
pub open spec fn le32_at(data: Seq<u8>, at: int) -> int {
    data[at] + 256 * data[at + 1] + 65536 * data[at + 2] + 16777216 * data[at + 3]
}

/// The eight bytes of `v`, least significant first.
pub open spec fn le64(v: int) -> Seq<u8> {
    le32(v % 4294967296) + le32(v / 4294967296)
}

/// Reads the little-endian 32-bit number at `at`.
pub fn read_le32(data: &[u8], at: usize) -> (v: u32)
    requires
        at + 4 <= data@.len(),
    ensures
        v == le32_at(data@, at as int),
{
    data[at] as u32 + 256 * data[at + 1] as u32 + 65536 * data[at + 2] as u32 + 16777216 * data[at
        + 3] as u32
}

/// Appends `v` as a little-endian 32-bit number.
pub fn push_le32(out: &mut Vec<u8>, v: u32)
    ensures
        final(out)@ == old(out)@ + le32(v as int),
{
    out.push((v % 256) as u8);
    out.push((v / 256 % 256) as u8);
    out.push((v / 65536 % 256) as u8);
    out.push((v / 16777216 % 256) as u8);
}

/// Appends the low 32 bits of a length as a little-endian number.
pub fn push_len(out: &mut Vec<u8>, len: usize)
    ensures
        final(out)@ == old(out)@ + le32(len as int),
{
    let low: u32 = (len as u64 % 4294967296) as u32;
    push_le32(out, low);
    proof {
        lemma_le32_low(len as int);
    }
}

/// Four bytes hold the low 32 bits of a number.
proof fn lemma_le32_low(v: int)
    requires
        0 <= v,
    ensures
        le32(v % 4294967296) == le32(v),
{
    let q = v / 4294967296;
    let l = v % 4294967296;
    lemma_low_byte(q, l, 16777216, 1);
    lemma_low_byte(q, l, 65536, 256);
    lemma_low_byte(q, l, 256, 65536);
    lemma_low_byte(q, l, 1, 16777216);
}

/// A multiple of `2^32` leaves the four low bytes as they are.
proof fn lemma_low_byte(q: int, l: int, k: int, d: nat)
    requires
        d > 0,
        256 * k * d == 4294967296,
    ensures
        (4294967296 * q + l) / (d as int) % 256 == l / (d as int) % 256,
{
    assert(4294967296 * q == (256 * (k * q)) * d) by (nonlinear_arith)
        requires
            256 * k * d == 4294967296,
    ;
    lemma_hoist_over_denominator(l, 256 * (k * q), d);
    lemma_mod_multiples_vanish(k * q, l / (d as int), 256);
}

/// Appends `v` as a little-endian 64-bit number.
pub fn push_le64(out: &mut Vec<u8>, v: u64)
    ensures
        final(out)@ == old(out)@ + le64(v as int),
{
    push_le32(out, (v % 4294967296) as u32);
    push_le32(out, (v / 4294967296) as u32);
}

/// Appends the bytes of a slice.
pub fn append(out: &mut Vec<u8>, data: &[u8])
    ensures
        final(out)@ == old(out)@ + data@,
{
    out.extend_from_slice(data);
    assert(out@ =~= old(out)@ + data@);
}

/// A 32-bit number read back where it was written is the same number.
pub proof fn lemma_le32_reads_back(before: Seq<u8>, v: int, after: Seq<u8>)
    requires
        0 <= v <= u32::MAX,
    ensures
        le32_at(before + le32(v) + after, before.len() as int) == v,
{
}

} // verus!
