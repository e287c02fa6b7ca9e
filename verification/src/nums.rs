//! Fixed-width numeric helpers: 16-bit two's-complement truncation for
//! PC-relative offsets, reading an `i16` as its 16-bit bit pattern, and
//! little-endian byte encodings of 16-, 32- and 64-bit words.

use vstd::prelude::*;
use vstd::arithmetic::div_mod::{lemma_add_mod_noop_right, lemma_sub_mod_noop};
use vstd::pervasive::VecAdditionalExecFns;

verus! {

/// The two's-complement truncation of an integer to 16 bits.
pub open spec fn trunc_i16(x: int) -> i16 {
    let m = x % 0x10000;
    if m < 0x8000 {
        m as i16
    } else {
        (m - 0x10000) as i16
    }
}

/// The 16-bit pattern of an `i16`, as an unsigned value.
pub open spec fn i16_bits(x: i16) -> u16 {
    if x >= 0 {
        x as u16
    } else {
        (x + 0x10000) as u16
    }
}

/// The `i16` whose 16-bit pattern is the given unsigned value.
pub open spec fn i16_of_bits(x: u16) -> i16 {
    if x < 0x8000 {
        x as i16
    } else {
        (x - 0x10000) as i16
    }
}

/// `target - pc`, truncated to a signed 16-bit PC-relative offset.
pub fn pc_relative(target: usize, pc: usize) -> (r: i16)
    ensures
        r == trunc_i16(target - pc),
{
    let m: usize = ((target % 0x10000) + 0x10000 - (pc % 0x10000)) % 0x10000;
    proof {
        lemma_add_mod_noop_right((target as int) % 0x10000 + 0x10000 - (pc as int), pc as int, 0x10000);
        lemma_sub_mod_noop(target as int % 0x10000 + 0x10000, pc as int, 0x10000);
        lemma_add_mod_noop_right(target as int % 0x10000, 0x10000, 0x10000);
        lemma_sub_mod_noop(target as int, 0 as int, 0x10000);
        assert(m == (target - pc) % 0x10000);
    }
    if m < 0x8000 {
        m as i16
    } else {
        (m as i32 - 0x10000) as i16
    }
}

/// The 16-bit bit pattern of an `i16`, computed without truncating casts.
pub fn i16_to_bits(x: i16) -> (r: u16)
    ensures
        r == i16_bits(x),
{
    if x >= 0 {
        x as u16
    } else {
        (x as i32 + 0x10000) as u16
    }
}

/// The `i16` holding the given 16-bit pattern.
pub fn bits_to_i16(x: u16) -> (r: i16)
    ensures
        r == i16_of_bits(x),
{
    if x < 0x8000 {
        x as i16
    } else {
        (x as i32 - 0x10000) as i16
    }
}

/// The little-endian bytes of a 16-bit word.
pub open spec fn le16(v: u16) -> Seq<u8> {
    seq![(v & 0xFF) as u8, ((v >> 8) & 0xFF) as u8]
}

/// The little-endian bytes of a 32-bit word.
pub open spec fn le32(v: u32) -> Seq<u8> {
    seq![
        (v & 0xFF) as u8,
        ((v >> 8) & 0xFF) as u8,
        ((v >> 16) & 0xFF) as u8,
        ((v >> 24) & 0xFF) as u8,
    ]
}

/// The little-endian bytes of a 64-bit word.
pub open spec fn le64(v: u64) -> Seq<u8> {
    seq![
        (v & 0xFF) as u8,
        ((v >> 8) & 0xFF) as u8,
        ((v >> 16) & 0xFF) as u8,
        ((v >> 24) & 0xFF) as u8,
        ((v >> 32) & 0xFF) as u8,
        ((v >> 40) & 0xFF) as u8,
        ((v >> 48) & 0xFF) as u8,
        ((v >> 56) & 0xFF) as u8,
    ]
}

proof fn lemma_u16_bytes(v: u16)
    by (bit_vector)
    ensures
        v & 0xFF < 0x100,
        (v >> 8) & 0xFF < 0x100,
{
}

proof fn lemma_u32_bytes(v: u32)
    by (bit_vector)
    ensures
        v & 0xFF < 0x100,
        (v >> 8) & 0xFF < 0x100,
        (v >> 16) & 0xFF < 0x100,
        (v >> 24) & 0xFF < 0x100,
{
}

proof fn lemma_u64_bytes(v: u64)
    by (bit_vector)
    ensures
        v & 0xFF < 0x100,
        (v >> 8) & 0xFF < 0x100,
        (v >> 16) & 0xFF < 0x100,
        (v >> 24) & 0xFF < 0x100,
        (v >> 32) & 0xFF < 0x100,
        (v >> 40) & 0xFF < 0x100,
        (v >> 48) & 0xFF < 0x100,
        (v >> 56) & 0xFF < 0x100,
{
}

/// Appends the two little-endian bytes of `v` to `out`.
pub fn push_le16(out: &mut Vec<u8>, v: u16)
    ensures
        final(out)@ == old(out)@ + le16(v),
{
    proof {
        lemma_u16_bytes(v);
    }
    out.push((v & 0xFF) as u8);
    out.push(((v >> 8) & 0xFF) as u8);
    proof {
        assert(out@ =~= old(out)@ + le16(v));
    }
}

/// Appends the four little-endian bytes of `v` to `out`.
pub fn push_le32(out: &mut Vec<u8>, v: u32)
    ensures
        final(out)@ == old(out)@ + le32(v),
{
    proof {
        lemma_u32_bytes(v);
    }
    out.push((v & 0xFF) as u8);
    out.push(((v >> 8) & 0xFF) as u8);
    out.push(((v >> 16) & 0xFF) as u8);
    out.push(((v >> 24) & 0xFF) as u8);
    proof {
        assert(out@ =~= old(out)@ + le32(v));
    }
}

/// Appends the eight little-endian bytes of `v` to `out`.
pub fn push_le64(out: &mut Vec<u8>, v: u64)
    ensures
        final(out)@ == old(out)@ + le64(v),
{
    proof {
        lemma_u64_bytes(v);
    }
    out.push((v & 0xFF) as u8);
    out.push(((v >> 8) & 0xFF) as u8);
    out.push(((v >> 16) & 0xFF) as u8);
    out.push(((v >> 24) & 0xFF) as u8);
    out.push(((v >> 32) & 0xFF) as u8);
    out.push(((v >> 40) & 0xFF) as u8);
    out.push(((v >> 48) & 0xFF) as u8);
    out.push(((v >> 56) & 0xFF) as u8);
    proof {
        assert(out@ =~= old(out)@ + le64(v));
    }
}


/// Overwrites the eight bytes at `at` with the little-endian encoding of
/// `v`, leaving the rest of the buffer unchanged.
pub fn write8(pool: &mut Vec<u8>, at: usize, v: u64)
    requires
        at + 8 <= old(pool)@.len(),
    ensures
        final(pool)@ == old(pool)@.take(at as int) + le64(v) + old(pool)@.skip(at + 8),
        final(pool)@.len() == old(pool)@.len(),
{
    let _n = pool.len();
    proof {
        lemma_u64_bytes(v);
    }
    pool.set(at, (v & 0xFF) as u8);
    pool.set(at + 1, ((v >> 8) & 0xFF) as u8);
    pool.set(at + 2, ((v >> 16) & 0xFF) as u8);
    pool.set(at + 3, ((v >> 24) & 0xFF) as u8);
    pool.set(at + 4, ((v >> 32) & 0xFF) as u8);
    pool.set(at + 5, ((v >> 40) & 0xFF) as u8);
    pool.set(at + 6, ((v >> 48) & 0xFF) as u8);
    pool.set(at + 7, ((v >> 56) & 0xFF) as u8);
    proof {
        assert(pool@ =~= old(pool)@.take(at as int) + le64(v) + old(pool)@.skip(at + 8));
    }
}


/// The little-endian bytes of a 64-bit word reconstruct it: byte `k`
/// carries the value's bits `8k..8k+8`.
pub proof fn lemma_le64_value(v: u64)
    ensures
        le64(v)[0] + 0x100 * le64(v)[1] + 0x10000 * le64(v)[2] + 0x1000000 * le64(v)[3]
            + 0x100000000 * le64(v)[4] + 0x10000000000 * le64(v)[5] + 0x1000000000000 * le64(v)[6]
            + 0x100000000000000 * le64(v)[7] == v,
{
    let b0 = (v & 0xFF) as u8;
    let b1 = ((v >> 8) & 0xFF) as u8;
    let b2 = ((v >> 16) & 0xFF) as u8;
    let b3 = ((v >> 24) & 0xFF) as u8;
    let b4 = ((v >> 32) & 0xFF) as u8;
    let b5 = ((v >> 40) & 0xFF) as u8;
    let b6 = ((v >> 48) & 0xFF) as u8;
    let b7 = ((v >> 56) & 0xFF) as u8;
    assert(b0 + 0x100 * b1 + 0x10000 * b2 + 0x1000000 * b3 + 0x100000000 * b4 + 0x10000000000
        * b5 + 0x1000000000000 * b6 + 0x100000000000000 * b7 == v) by (bit_vector)
        requires
            b0 == (v & 0xFF) as u8,
            b1 == ((v >> 8) & 0xFF) as u8,
            b2 == ((v >> 16) & 0xFF) as u8,
            b3 == ((v >> 24) & 0xFF) as u8,
            b4 == ((v >> 32) & 0xFF) as u8,
            b5 == ((v >> 40) & 0xFF) as u8,
            b6 == ((v >> 48) & 0xFF) as u8,
            b7 == ((v >> 56) & 0xFF) as u8,
    ;
}

} // verus!
