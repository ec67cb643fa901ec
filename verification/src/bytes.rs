//! Integers in byte sequences, little-endian unless the name says otherwise.

use vstd::prelude::*;

verus! {

/// The two-byte number at `at`.
pub open spec fn le16(s: Seq<u8>, at: int) -> int {
    s[at] + s[at + 1] * 0x100
}

/// The four-byte number at `at`.
pub open spec fn le32(s: Seq<u8>, at: int) -> int {
    le16(s, at) + le16(s, at + 2) * 0x1_0000
}

/// The eight-byte number at `at`.
pub open spec fn le64(s: Seq<u8>, at: int) -> int {
    le32(s, at) + le32(s, at + 4) * 0x1_0000_0000
}

/// The two-byte big-endian number at `at`.
pub open spec fn be16(s: Seq<u8>, at: int) -> int {
    s[at] * 0x100 + s[at + 1]
}

/// The four-byte big-endian number at `at`.
pub open spec fn be32(s: Seq<u8>, at: int) -> int {
    be16(s, at) * 0x1_0000 + be16(s, at + 2)
}

/// The eight-byte big-endian number at `at`.
pub open spec fn be64(s: Seq<u8>, at: int) -> int {
    be32(s, at) * 0x1_0000_0000 + be32(s, at + 4)
}

/// A number of `width` bits, given as its range, read as two's complement.
pub open spec fn as_signed(v: int, range: int) -> int {
    if v >= range / 2 {
        v - range
    } else {
        v
    }
}

/// A number reduced to 32 bits.
pub open spec fn wrap32(x: int) -> u32 {
    (x % 0x1_0000_0000) as u32
}

/// The two-byte number at `at`.
#[inline]
pub fn read_u16_le(data: &[u8], at: usize) -> (r: u16)
    requires
        at + 2 <= data.len(),
    ensures
        r == le16(data@, at as int),
{
    data[at] as u16 + data[at + 1] as u16 * 0x100
}

/// The four-byte number at `at`.
#[inline]
pub fn read_u32_le(data: &[u8], at: usize) -> (r: u32)
    requires
        at + 4 <= data.len(),
    ensures
        r == le32(data@, at as int),
{
    read_u16_le(data, at) as u32 + read_u16_le(data, at + 2) as u32 * 0x1_0000
}

/// The eight-byte number at `at`.
#[inline]
pub fn read_u64_le(data: &[u8], at: usize) -> (r: u64)
    requires
        at + 8 <= data.len(),
    ensures
        r == le64(data@, at as int),
{
    read_u32_le(data, at) as u64 + read_u32_le(data, at + 4) as u64 * 0x1_0000_0000
}

/// The two-byte big-endian number at `at`.
#[inline]
pub fn read_u16_be(data: &[u8], at: usize) -> (r: u16)
    requires
        at + 2 <= data.len(),
    ensures
        r == be16(data@, at as int),
{
    data[at] as u16 * 0x100 + data[at + 1] as u16
}

/// The four-byte big-endian number at `at`.
#[inline]
pub fn read_u32_be(data: &[u8], at: usize) -> (r: u32)
    requires
        at + 4 <= data.len(),
    ensures
        r == be32(data@, at as int),
{
    read_u16_be(data, at) as u32 * 0x1_0000 + read_u16_be(data, at + 2) as u32
}

/// The eight-byte big-endian number at `at`.
#[inline]
pub fn read_u64_be(data: &[u8], at: usize) -> (r: u64)
    requires
        at + 8 <= data.len(),
    ensures
        r == be64(data@, at as int),
{
    read_u32_be(data, at) as u64 * 0x1_0000_0000 + read_u32_be(data, at + 4) as u64
}

/// A byte read as two's complement.
#[inline]
pub fn signed8(v: u8) -> (r: i64)
    ensures
        r == as_signed(v as int, 0x100),
        -0x80 <= r < 0x80,
{
    if v >= 0x80 {
        v as i64 - 0x100
    } else {
        v as i64
    }
}

/// A two-byte number read as two's complement.
#[inline]
pub fn signed16(v: u16) -> (r: i64)
    ensures
        r == as_signed(v as int, 0x1_0000),
        -0x8000 <= r < 0x8000,
{
    if v >= 0x8000 {
        v as i64 - 0x1_0000
    } else {
        v as i64
    }
}

/// A four-byte number read as two's complement.
#[inline]
pub fn signed32(v: u32) -> (r: i64)
    ensures
        r == as_signed(v as int, 0x1_0000_0000),
        -0x8000_0000 <= r < 0x8000_0000,
{
    if v >= 0x8000_0000 {
        v as i64 - 0x1_0000_0000
    } else {
        v as i64
    }
}

/// The bytes of a number, lowest first, read back as the number; so do they highest
/// first in the big-endian forms.
pub proof fn law_bytes_read_back(s: Seq<u8>, at: int, v: int)
    requires
        0 <= v < 0x1_0000_0000,
    ensures
        s[at] == v % 0x100 && s[at + 1] == (v / 0x100) % 0x100 && s[at + 2] == (v / 0x1_0000)
            % 0x100 && s[at + 3] == v / 0x100_0000 ==> le32(s, at) == v,
        s[at + 3] == v % 0x100 && s[at + 2] == (v / 0x100) % 0x100 && s[at + 1] == (v / 0x1_0000)
            % 0x100 && s[at] == v / 0x100_0000 ==> be32(s, at) == v,
        s[at] == v % 0x100 && s[at + 1] == v / 0x100 ==> le16(s, at) == v,
        s[at + 1] == v % 0x100 && s[at] == v / 0x100 ==> be16(s, at) == v,
        le64(s, at) == le32(s, at) + 0x1_0000_0000 * le32(s, at + 4),
        be64(s, at) == be32(s, at + 4) + 0x1_0000_0000 * be32(s, at),
{
}

} // verus!
