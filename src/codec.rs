//! Big-endian integer codecs over byte sequences.
use vstd::prelude::*;

verus! {

/// The `u32` whose big-endian bytes are `b0 b1 b2 b3`.
pub open spec fn u32_of(b0: u8, b1: u8, b2: u8, b3: u8) -> u32 {
    ((b0 as u32) << 24u32) | ((b1 as u32) << 16u32) | ((b2 as u32) << 8u32) | (b3 as u32)
}

/// The big-endian `u32` stored at `s[pos..pos + 4]`.
pub open spec fn u32_at(s: Seq<u8>, pos: int) -> u32 {
    u32_of(s[pos], s[pos + 1], s[pos + 2], s[pos + 3])
}

/// The big-endian bytes of `v`.
pub open spec fn u32_bytes(v: u32) -> Seq<u8> {
    seq![
        ((v >> 24u32) & 0xffu32) as u8,
        ((v >> 16u32) & 0xffu32) as u8,
        ((v >> 8u32) & 0xffu32) as u8,
        (v & 0xffu32) as u8,
    ]
}

/// The big-endian `u64` stored at `s[pos..pos + 8]`.
pub open spec fn u64_at(s: Seq<u8>, pos: int) -> u64 {
    ((u32_at(s, pos) as u64) << 32u64) | (u32_at(s, pos + 4) as u64)
}

/// The big-endian bytes of `v`.
pub open spec fn u64_bytes(v: u64) -> Seq<u8> {
    u32_bytes((v >> 32u64) as u32) + u32_bytes((v & 0xffff_ffffu64) as u32)
}

/// The two's complement reading of a 32-bit pattern.
pub open spec fn signed_of(u: u32) -> int {
    if u < 0x8000_0000 {
        u as int
    } else {
        u as int - 0x1_0000_0000
    }
}

/// The 32-bit pattern of a signed value.
pub open spec fn unsigned_of(v: int) -> u32 {
    if v >= 0 {
        v as u32
    } else {
        (v + 0x1_0000_0000) as u32
    }
}

/// The big-endian signed `i32` stored at `s[pos..pos + 4]`.
pub open spec fn i32_at(s: Seq<u8>, pos: int) -> int {
    signed_of(u32_at(s, pos))
}

pub proof fn lemma_u32_round_trip(v: u32, rest: Seq<u8>)
    ensures
        u32_at(u32_bytes(v) + rest, 0) == v,
{
    let s = u32_bytes(v) + rest;
    assert(s[0] == ((v >> 24u32) & 0xffu32) as u8);
    assert(s[1] == ((v >> 16u32) & 0xffu32) as u8);
    assert(s[2] == ((v >> 8u32) & 0xffu32) as u8);
    assert(s[3] == (v & 0xffu32) as u8);
    assert(((((((v >> 24u32) & 0xffu32) as u8) as u32) << 24u32) | (((((v >> 16u32) & 0xffu32) as u8) as u32) << 16u32)
        | (((((v >> 8u32) & 0xffu32) as u8) as u32) << 8u32) | (((v & 0xffu32) as u8) as u32)) == v) by (bit_vector);
}

pub proof fn lemma_u64_round_trip(v: u64, rest: Seq<u8>)
    ensures
        u64_at(u64_bytes(v) + rest, 0) == v,
{
    let hi = (v >> 32u64) as u32;
    let lo = (v & 0xffff_ffffu64) as u32;
    let s = u64_bytes(v) + rest;
    assert(s =~= u32_bytes(hi) + (u32_bytes(lo) + rest));
    lemma_u32_round_trip(hi, u32_bytes(lo) + rest);
    assert(s.subrange(4, s.len() as int) =~= u32_bytes(lo) + rest);
    lemma_u32_round_trip(lo, rest);
    assert(u32_at(s, 4) == u32_at(u32_bytes(lo) + rest, 0));
    assert((((hi as u64) << 32u64) | (lo as u64)) == v) by (bit_vector)
        requires
            hi == (v >> 32u64) as u32,
            lo == (v & 0xffff_ffffu64) as u32,
    ;
}

pub proof fn lemma_signed_round_trip(v: int)
    requires
        -0x8000_0000 <= v < 0x8000_0000,
    ensures
        signed_of(unsigned_of(v)) == v,
{
}

/// Reads the big-endian `u32` at `buf[pos..pos + 4]`.
pub fn read_u32_be(buf: &[u8], pos: usize) -> (r: u32)
    requires
        pos + 4 <= buf@.len(),
    ensures
        r == u32_at(buf@, pos as int),
{
    let _n = buf.len();
    let b0 = buf[pos];
    let b1 = buf[pos + 1];
    let b2 = buf[pos + 2];
    let b3 = buf[pos + 3];
    ((b0 as u32) << 24u32) | ((b1 as u32) << 16u32) | ((b2 as u32) << 8u32) | (b3 as u32)
}

/// Reads the big-endian `u64` at `buf[pos..pos + 8]`.
pub fn read_u64_be(buf: &[u8], pos: usize) -> (r: u64)
    requires
        pos + 8 <= buf@.len(),
    ensures
        r == u64_at(buf@, pos as int),
{
    let _n = buf.len();
    let hi = read_u32_be(buf, pos);
    let lo = read_u32_be(buf, pos + 4);
    ((hi as u64) << 32u64) | (lo as u64)
}

/// Reads the big-endian `i32` at `buf[pos..pos + 4]`.
pub fn read_i32_be(buf: &[u8], pos: usize) -> (r: i32)
    requires
        pos + 4 <= buf@.len(),
    ensures
        r as int == i32_at(buf@, pos as int),
{
    let u = read_u32_be(buf, pos);
    if u < 0x8000_0000 {
        u as i32
    } else {
        let low = (u - 0x8000_0000) as i32;
        low - 0x7fff_ffff - 1
    }
}

/// Appends the big-endian bytes of `v`.
pub fn push_u32_be(out: &mut Vec<u8>, v: u32)
    ensures
        final(out)@ == old(out)@ + u32_bytes(v),
{
    out.push(((v >> 24u32) & 0xffu32) as u8);
    out.push(((v >> 16u32) & 0xffu32) as u8);
    out.push(((v >> 8u32) & 0xffu32) as u8);
    out.push((v & 0xffu32) as u8);
    assert(out@ =~= old(out)@ + u32_bytes(v));
}

/// Appends the big-endian bytes of `v`.
pub fn push_u64_be(out: &mut Vec<u8>, v: u64)
    ensures
        final(out)@ == old(out)@ + u64_bytes(v),
{
    push_u32_be(out, (v >> 32u64) as u32);
    push_u32_be(out, (v & 0xffff_ffffu64) as u32);
    assert(out@ =~= old(out)@ + u64_bytes(v));
}

/// Appends the big-endian two's complement bytes of `v`.
pub fn push_i32_be(out: &mut Vec<u8>, v: i32)
    ensures
        final(out)@ == old(out)@ + u32_bytes(unsigned_of(v as int)),
{
    let u: u32 = if v >= 0 {
        v as u32
    } else {
        ((v + 0x7fff_ffff + 1) as u32) + 0x8000_0000
    };
    push_u32_be(out, u);
}

} // verus!
