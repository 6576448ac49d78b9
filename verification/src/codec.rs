//! Fixed-width integers as bytes: big-endian for the snapshot file,
//! little-endian for the records the file system hands out.

use vstd::prelude::*;

verus! {

/// The two bytes of `x`, most significant first.
pub open spec fn u16_be(x: u16) -> Seq<u8> {
    seq![(x / 0x100) as u8, (x % 0x100) as u8]
}

/// The four bytes of `x`, most significant first.
pub open spec fn u32_be(x: u32) -> Seq<u8> {
    seq![
        (x / 0x100_0000) as u8,
        ((x / 0x1_0000) % 0x100) as u8,
        ((x / 0x100) % 0x100) as u8,
        (x % 0x100) as u8,
    ]
}

/// The eight bytes of `x`, most significant first.
pub open spec fn u64_be(x: u64) -> Seq<u8> {
    seq![
        (x / 0x100_0000_0000_0000) as u8,
        ((x / 0x1_0000_0000_0000) % 0x100) as u8,
        ((x / 0x100_0000_0000) % 0x100) as u8,
        ((x / 0x1_0000_0000) % 0x100) as u8,
        ((x / 0x100_0000) % 0x100) as u8,
        ((x / 0x1_0000) % 0x100) as u8,
        ((x / 0x100) % 0x100) as u8,
        (x % 0x100) as u8,
    ]
}

/// The number whose big-endian bytes are the first two of `s`.
pub open spec fn u16_from_be(s: Seq<u8>) -> u16 {
    (s[0] as int * 0x100 + s[1] as int) as u16
}

/// The number whose big-endian bytes are the first four of `s`.
pub open spec fn u32_from_be(s: Seq<u8>) -> u32 {
    (s[0] as int * 0x100_0000 + s[1] as int * 0x1_0000 + s[2] as int * 0x100 + s[3] as int) as u32
}

/// The number whose big-endian bytes are the first eight of `s`.
pub open spec fn u64_from_be(s: Seq<u8>) -> u64 {
    (s[0] as int * 0x100_0000_0000_0000 + s[1] as int * 0x1_0000_0000_0000 + s[2] as int
        * 0x100_0000_0000 + s[3] as int * 0x1_0000_0000 + s[4] as int * 0x100_0000 + s[5] as int
        * 0x1_0000 + s[6] as int * 0x100 + s[7] as int) as u64
}

/// The number whose little-endian bytes are the first two of `s`.
pub open spec fn u16_from_le(s: Seq<u8>) -> u16 {
    (s[1] as int * 0x100 + s[0] as int) as u16
}

/// The number whose little-endian bytes are the first four of `s`.
pub open spec fn u32_from_le(s: Seq<u8>) -> u32 {
    (s[3] as int * 0x100_0000 + s[2] as int * 0x1_0000 + s[1] as int * 0x100 + s[0] as int) as u32
}

/// The number whose little-endian bytes are the first eight of `s`.
pub open spec fn u64_from_le(s: Seq<u8>) -> u64 {
    (s[7] as int * 0x100_0000_0000_0000 + s[6] as int * 0x1_0000_0000_0000 + s[5] as int
        * 0x100_0000_0000 + s[4] as int * 0x1_0000_0000 + s[3] as int * 0x100_0000 + s[2] as int
        * 0x1_0000 + s[1] as int * 0x100 + s[0] as int) as u64
}

/// The unsigned number with the same 64 bits as `x` in two's complement.
pub open spec fn i64_bits(x: i64) -> u64 {
    if x >= 0 {
        x as u64
    } else {
        (x + 0x1_0000_0000_0000_0000) as u64
    }
}

/// The signed number with the same 64 bits as `u` in two's complement.
pub open spec fn i64_of_bits(u: u64) -> i64 {
    if u < 0x8000_0000_0000_0000 {
        u as i64
    } else {
        (u - 0x1_0000_0000_0000_0000) as i64
    }
}

/// The unsigned number with the same 8 bits as `x` in two's complement.
pub open spec fn i8_bits(x: i8) -> u8 {
    if x >= 0 {
        x as u8
    } else {
        (x + 0x100) as u8
    }
}

/// The signed number with the same 8 bits as `u` in two's complement.
pub open spec fn i8_of_bits(u: u8) -> i8 {
    if u < 0x80 {
        u as i8
    } else {
        (u - 0x100) as i8
    }
}

/// Reading back two bytes that were written gives the number that was written.
pub proof fn lemma_u16_be_round_trip(x: u16)
    ensures
        u16_from_be(u16_be(x)) == x,
{
}

/// Reading back four bytes that were written gives the number that was written.
pub proof fn lemma_u32_be_round_trip(x: u32)
    ensures
        u32_from_be(u32_be(x)) == x,
{
}

/// Reading back eight bytes that were written gives the number that was written.
pub proof fn lemma_u64_be_round_trip(x: u64)
    ensures
        u64_from_be(u64_be(x)) == x,
{
    let s = u64_be(x);
    let x1 = x / 0x100;
    let x2 = x1 / 0x100;
    let x3 = x2 / 0x100;
    let x4 = x3 / 0x100;
    let x5 = x4 / 0x100;
    let x6 = x5 / 0x100;
    let x7 = x6 / 0x100;
    assert(x2 == x / 0x1_0000);
    assert(x3 == x / 0x100_0000);
    assert(x4 == x / 0x1_0000_0000);
    assert(x5 == x / 0x100_0000_0000);
    assert(x6 == x / 0x1_0000_0000_0000);
    assert(x7 == x / 0x100_0000_0000_0000);
    assert(s[0] == x7);
    assert(s[1] == x6 % 0x100);
    assert(s[2] == x5 % 0x100);
    assert(s[3] == x4 % 0x100);
    assert(s[4] == x3 % 0x100);
    assert(s[5] == x2 % 0x100);
    assert(s[6] == x1 % 0x100);
    assert(s[7] == x % 0x100);
}

/// The two's-complement image of a signed number leads back to it.
pub proof fn lemma_bits_round_trip(x: i64, r: i8)
    ensures
        i64_of_bits(i64_bits(x)) == x,
        i8_of_bits(i8_bits(r)) == r,
{
}

/// Appends the big-endian bytes of `x` to `out`.
pub fn put_u16_be(out: &mut Vec<u8>, x: u16)
    ensures
        final(out)@ == old(out)@ + u16_be(x),
{
    out.push((x / 0x100) as u8);
    out.push((x % 0x100) as u8);
}

/// Appends the big-endian bytes of `x` to `out`.
pub fn put_u32_be(out: &mut Vec<u8>, x: u32)
    ensures
        final(out)@ == old(out)@ + u32_be(x),
{
    out.push((x / 0x100_0000) as u8);
    out.push(((x / 0x1_0000) % 0x100) as u8);
    out.push(((x / 0x100) % 0x100) as u8);
    out.push((x % 0x100) as u8);
}

/// Appends the big-endian bytes of `x` to `out`.
pub fn put_u64_be(out: &mut Vec<u8>, x: u64)
    ensures
        final(out)@ == old(out)@ + u64_be(x),
{
    out.push((x / 0x100_0000_0000_0000) as u8);
    out.push(((x / 0x1_0000_0000_0000) % 0x100) as u8);
    out.push(((x / 0x100_0000_0000) % 0x100) as u8);
    out.push(((x / 0x1_0000_0000) % 0x100) as u8);
    out.push(((x / 0x100_0000) % 0x100) as u8);
    out.push(((x / 0x1_0000) % 0x100) as u8);
    out.push(((x / 0x100) % 0x100) as u8);
    out.push((x % 0x100) as u8);
}

/// The 64 bits of `x` as an unsigned number.
pub fn i64_to_bits(x: i64) -> (u: u64)
    ensures
        u == i64_bits(x),
{
    if x >= 0 {
        x as u64
    } else {
        let below: u64 = (-(x + 1)) as u64;
        u64::MAX - below
    }
}

/// The signed number that has the 64 bits of `u`.
pub fn i64_from_bits(u: u64) -> (x: i64)
    ensures
        x == i64_of_bits(u),
{
    if u < 0x8000_0000_0000_0000 {
        u as i64
    } else {
        let below: u64 = u64::MAX - u;
        -(below as i64) - 1
    }
}

/// The 8 bits of `x` as an unsigned number.
pub fn i8_to_bits(x: i8) -> (u: u8)
    ensures
        u == i8_bits(x),
{
    if x >= 0 {
        x as u8
    } else {
        let below: u8 = (-(x + 1)) as u8;
        u8::MAX - below
    }
}

/// The signed number that has the 8 bits of `u`.
pub fn i8_from_bits(u: u8) -> (x: i8)
    ensures
        x == i8_of_bits(u),
{
    if u < 0x80 {
        u as i8
    } else {
        let below: u8 = u8::MAX - u;
        -(below as i8) - 1
    }
}

/// Reads two big-endian bytes at `at`.
pub fn get_u16_be(data: &[u8], at: usize) -> (x: u16)
    requires
        at + 2 <= data.len(),
    ensures
        x == u16_from_be(data@.subrange(at as int, at + 2)),
{
    (data[at] as u16) * 0x100 + (data[at + 1] as u16)
}

/// Reads four big-endian bytes at `at`.
pub fn get_u32_be(data: &[u8], at: usize) -> (x: u32)
    requires
        at + 4 <= data.len(),
    ensures
        x == u32_from_be(data@.subrange(at as int, at + 4)),
{
    (data[at] as u32) * 0x100_0000 + (data[at + 1] as u32) * 0x1_0000 + (data[at + 2] as u32)
        * 0x100 + (data[at + 3] as u32)
}

/// Reads eight big-endian bytes at `at`.
pub fn get_u64_be(data: &[u8], at: usize) -> (x: u64)
    requires
        at + 8 <= data.len(),
    ensures
        x == u64_from_be(data@.subrange(at as int, at + 8)),
{
    (data[at] as u64) * 0x100_0000_0000_0000 + (data[at + 1] as u64) * 0x1_0000_0000_0000 + (
    data[at + 2] as u64) * 0x100_0000_0000 + (data[at + 3] as u64) * 0x1_0000_0000 + (data[at
        + 4] as u64) * 0x100_0000 + (data[at + 5] as u64) * 0x1_0000 + (data[at + 6] as u64)
        * 0x100 + (data[at + 7] as u64)
}

/// Reads two little-endian bytes at `at`.
pub fn get_u16_le(data: &[u8], at: usize) -> (x: u16)
    requires
        at + 2 <= data.len(),
    ensures
        x == u16_from_le(data@.subrange(at as int, at + 2)),
{
    let b0 = data[at];
    let b1 = data[at + 1];
    (b1 as u16) * 0x100 + (b0 as u16)
}

/// Reads four little-endian bytes at `at`.
pub fn get_u32_le(data: &[u8], at: usize) -> (x: u32)
    requires
        at + 4 <= data.len(),
    ensures
        x == u32_from_le(data@.subrange(at as int, at + 4)),
{
    let b0 = data[at];
    let b1 = data[at + 1];
    let b2 = data[at + 2];
    let b3 = data[at + 3];
    (b3 as u32) * 0x100_0000 + (b2 as u32) * 0x1_0000 + (b1 as u32) * 0x100 + (b0 as u32)
}

/// Reads eight little-endian bytes at `at`.
pub fn get_u64_le(data: &[u8], at: usize) -> (x: u64)
    requires
        at + 8 <= data.len(),
    ensures
        x == u64_from_le(data@.subrange(at as int, at + 8)),
{
    let lo = get_u32_le(data, at);
    let hi = get_u32_le(data, at + 4);
    (hi as u64) * 0x1_0000_0000 + (lo as u64)
}

} // verus!
