//! The bare-value codec: fixed-width big-endian numbers, and the two's
//! complement correspondence between the signed wire types and the unsigned
//! bit patterns they travel as.

use vstd::prelude::*;

verus! {

broadcast use vstd::std_specs::vec::group_vec_axioms;

// ---------------------------------------------------------------------------
// Big-endian byte strings of the unsigned fixed-width values.
// ---------------------------------------------------------------------------

pub open spec fn u16_be(n: u16) -> Seq<u8> {
    seq![(n / 0x100) as u8, (n % 0x100) as u8]
}

pub open spec fn u32_be(n: u32) -> Seq<u8> {
    u16_be((n / 0x10000) as u16) + u16_be((n % 0x10000) as u16)
}

pub open spec fn u64_be(n: u64) -> Seq<u8> {
    u32_be((n / 0x100000000) as u32) + u32_be((n % 0x100000000) as u32)
}

pub open spec fn be_u16(s: Seq<u8>) -> u16
    recommends
        s.len() == 2,
{
    (s[0] * 0x100 + s[1]) as u16
}

pub open spec fn be_u32(s: Seq<u8>) -> u32
    recommends
        s.len() == 4,
{
    (be_u16(s.subrange(0, 2)) * 0x10000 + be_u16(s.subrange(2, 4))) as u32
}

pub open spec fn be_u64(s: Seq<u8>) -> u64
    recommends
        s.len() == 8,
{
    (be_u32(s.subrange(0, 4)) * 0x100000000 + be_u32(s.subrange(4, 8))) as u64
}

pub proof fn lemma_u16_be_round_trip(n: u16)
    ensures
        u16_be(n).len() == 2,
        be_u16(u16_be(n)) == n,
{
}

pub proof fn lemma_u32_be_round_trip(n: u32)
    ensures
        u32_be(n).len() == 4,
        be_u32(u32_be(n)) == n,
{
    let hi = (n / 0x10000) as u16;
    let lo = (n % 0x10000) as u16;
    lemma_u16_be_round_trip(hi);
    lemma_u16_be_round_trip(lo);
    assert(u32_be(n).subrange(0, 2) =~= u16_be(hi));
    assert(u32_be(n).subrange(2, 4) =~= u16_be(lo));
}

pub proof fn lemma_u64_be_round_trip(n: u64)
    ensures
        u64_be(n).len() == 8,
        be_u64(u64_be(n)) == n,
{
    let hi = (n / 0x100000000) as u32;
    let lo = (n % 0x100000000) as u32;
    lemma_u32_be_round_trip(hi);
    lemma_u32_be_round_trip(lo);
    assert(u64_be(n).subrange(0, 4) =~= u32_be(hi));
    assert(u64_be(n).subrange(4, 8) =~= u32_be(lo));
}

// ---------------------------------------------------------------------------
// Two's complement: each signed wire type as its unsigned bit pattern.
// ---------------------------------------------------------------------------

pub open spec fn spec_u8_of_i8(v: i8) -> u8 {
    if v >= 0 {
        v as u8
    } else {
        (v + 0x100) as u8
    }
}

pub open spec fn spec_i8_of_u8(n: u8) -> i8 {
    if n < 0x80 {
        n as i8
    } else {
        (n - 0x100) as i8
    }
}

pub open spec fn spec_u16_of_i16(v: i16) -> u16 {
    if v >= 0 {
        v as u16
    } else {
        (v + 0x10000) as u16
    }
}

pub open spec fn spec_i16_of_u16(n: u16) -> i16 {
    if n < 0x8000 {
        n as i16
    } else {
        (n - 0x10000) as i16
    }
}

pub open spec fn spec_u32_of_i32(v: i32) -> u32 {
    if v >= 0 {
        v as u32
    } else {
        (v + 0x100000000) as u32
    }
}

pub open spec fn spec_i32_of_u32(n: u32) -> i32 {
    if n < 0x80000000 {
        n as i32
    } else {
        (n - 0x100000000) as i32
    }
}

pub open spec fn spec_u64_of_i64(v: i64) -> u64 {
    if v >= 0 {
        v as u64
    } else {
        (v + 0x10000000000000000) as u64
    }
}

pub open spec fn spec_i64_of_u64(n: u64) -> i64 {
    if n < 0x8000000000000000 {
        n as i64
    } else {
        (n - 0x10000000000000000) as i64
    }
}

pub proof fn lemma_signed_round_trip(a: i8, b: i16, c: i32, d: i64)
    ensures
        spec_i8_of_u8(spec_u8_of_i8(a)) == a,
        spec_i16_of_u16(spec_u16_of_i16(b)) == b,
        spec_i32_of_u32(spec_u32_of_i32(c)) == c,
        spec_i64_of_u64(spec_u64_of_i64(d)) == d,
{
}

pub fn u8_from_i8(v: i8) -> (r: u8)
    ensures
        r == spec_u8_of_i8(v),
{
    if v >= 0 {
        v as u8
    } else {
        ((v as i16) + 0x100) as u8
    }
}

pub fn i8_from_u8(n: u8) -> (r: i8)
    ensures
        r == spec_i8_of_u8(n),
{
    if n < 0x80 {
        n as i8
    } else {
        ((n as i16) - 0x100) as i8
    }
}

pub fn u16_from_i16(v: i16) -> (r: u16)
    ensures
        r == spec_u16_of_i16(v),
{
    if v >= 0 {
        v as u16
    } else {
        ((v as i32) + 0x10000) as u16
    }
}

pub fn i16_from_u16(n: u16) -> (r: i16)
    ensures
        r == spec_i16_of_u16(n),
{
    if n < 0x8000 {
        n as i16
    } else {
        ((n as i32) - 0x10000) as i16
    }
}

pub fn u32_from_i32(v: i32) -> (r: u32)
    ensures
        r == spec_u32_of_i32(v),
{
    if v >= 0 {
        v as u32
    } else {
        ((v as i64) + 0x100000000) as u32
    }
}

pub fn i32_from_u32(n: u32) -> (r: i32)
    ensures
        r == spec_i32_of_u32(n),
{
    if n < 0x80000000 {
        n as i32
    } else {
        ((n as i64) - 0x100000000) as i32
    }
}

pub fn u64_from_i64(v: i64) -> (r: u64)
    ensures
        r == spec_u64_of_i64(v),
{
    if v >= 0 {
        v as u64
    } else {
        ((v as i128) + 0x10000000000000000) as u64
    }
}

pub fn i64_from_u64(n: u64) -> (r: i64)
    ensures
        r == spec_i64_of_u64(n),
{
    if n < 0x8000000000000000 {
        n as i64
    } else {
        ((n as i128) - 0x10000000000000000) as i64
    }
}

// ---------------------------------------------------------------------------
// Writing into and reading out of a byte buffer.
// ---------------------------------------------------------------------------

pub fn write_u16_be(out: &mut Vec<u8>, v: u16)
    ensures
        final(out)@ == old(out)@ + u16_be(v),
{
    out.push((v / 0x100) as u8);
    out.push((v % 0x100) as u8);
    assert(out@ =~= old(out)@ + u16_be(v));
}

pub fn write_u32_be(out: &mut Vec<u8>, v: u32)
    ensures
        final(out)@ == old(out)@ + u32_be(v),
{
    write_u16_be(out, (v / 0x10000) as u16);
    write_u16_be(out, (v % 0x10000) as u16);
    assert(out@ =~= old(out)@ + u32_be(v));
}

pub fn write_u64_be(out: &mut Vec<u8>, v: u64)
    ensures
        final(out)@ == old(out)@ + u64_be(v),
{
    write_u32_be(out, (v / 0x100000000) as u32);
    write_u32_be(out, (v % 0x100000000) as u32);
    assert(out@ =~= old(out)@ + u64_be(v));
}

pub fn read_u16_be(data: &Vec<u8>, pos: usize) -> (r: u16)
    requires
        pos + 2 <= data@.len(),
    ensures
        r == be_u16(data@.subrange(pos as int, pos + 2)),
{
    let n = data.len();
    let hi = data[pos];
    let lo = data[pos + 1];
    (hi as u16) * 0x100 + (lo as u16)
}

pub fn read_u32_be(data: &Vec<u8>, pos: usize) -> (r: u32)
    requires
        pos + 4 <= data@.len(),
    ensures
        r == be_u32(data@.subrange(pos as int, pos + 4)),
{
    let n = data.len();
    let hi = read_u16_be(data, pos);
    let lo = read_u16_be(data, pos + 2);
    let s = Ghost(data@.subrange(pos as int, pos + 4));
    assert(s@.subrange(0, 2) =~= data@.subrange(pos as int, pos + 2));
    assert(s@.subrange(2, 4) =~= data@.subrange(pos + 2, pos + 4));
    (hi as u32) * 0x10000 + (lo as u32)
}

pub fn read_u64_be(data: &Vec<u8>, pos: usize) -> (r: u64)
    requires
        pos + 8 <= data@.len(),
    ensures
        r == be_u64(data@.subrange(pos as int, pos + 8)),
{
    let n = data.len();
    let hi = read_u32_be(data, pos);
    let lo = read_u32_be(data, pos + 4);
    let s = Ghost(data@.subrange(pos as int, pos + 8));
    assert(s@.subrange(0, 4) =~= data@.subrange(pos as int, pos + 4));
    assert(s@.subrange(4, 8) =~= data@.subrange(pos + 4, pos + 8));
    (hi as u64) * 0x100000000 + (lo as u64)
}

} // verus!
