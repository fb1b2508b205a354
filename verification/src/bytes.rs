//! Integers as little-endian bytes.
use vstd::prelude::*;

verus! {

/// The 16-bit integer that stands at `at`.
pub open spec fn le16(bytes: Seq<u8>, at: int) -> int {
    bytes[at] + 0x100 * bytes[at + 1]
}

/// The 32-bit integer that stands at `at`.
pub open spec fn le32(bytes: Seq<u8>, at: int) -> int {
    le16(bytes, at) + 0x1_0000 * le16(bytes, at + 2)
}

/// The 64-bit integer that stands at `at`.
pub open spec fn le64(bytes: Seq<u8>, at: int) -> int {
    le32(bytes, at) + 0x1_0000_0000 * le32(bytes, at + 4)
}

/// The signed byte with the same bits.
pub open spec fn signed(b: u8) -> i8 {
    if b < 128 {
        b as i8
    } else {
        (b - 256) as i8
    }
}

/// The bytes of a 32-bit integer.
pub open spec fn bytes32(x: u32) -> Seq<u8> {
    seq![
        (x as int % 0x100) as u8,
        (x as int / 0x100 % 0x100) as u8,
        (x as int / 0x1_0000 % 0x100) as u8,
        (x as int / 0x100_0000) as u8,
    ]
}

/// The bytes of a 64-bit integer.
pub open spec fn bytes64(x: u64) -> Seq<u8> {
    bytes32((x as int % 0x1_0000_0000) as u32) + bytes32((x as int / 0x1_0000_0000) as u32)
}

/// The bytes of a signed byte: one, with the same bits.
pub open spec fn unsigned(q: i8) -> u8 {
    if q >= 0 {
        q as u8
    } else {
        (q + 256) as u8
    }
}

/// The first byte counts least, and each byte 256 times the one in front of it.
pub proof fn law_first_byte_counts_least(bytes: Seq<u8>, at: int)
    ensures
        le16(bytes, at) == bytes[at] + 256 * bytes[at + 1],
        le32(bytes, at) == bytes[at] + 256 * bytes[at + 1] + 65536 * bytes[at + 2] + 16777216
            * bytes[at + 3],
        le64(bytes, at) == bytes[at] + 256 * bytes[at + 1] + 65536 * bytes[at + 2] + 16777216
            * bytes[at + 3] + 4294967296 * (bytes[at + 4] + 256 * bytes[at + 5] + 65536 * bytes[at
            + 6] + 16777216 * bytes[at + 7]),
{
}

/// A signed byte is, up to multiples of 256, the byte with the same bits.
pub proof fn law_signed_byte_wraps(b: u8)
    ensures
        -128 <= signed(b) <= 127,
        signed(b) == b || signed(b) == b - 256,
        unsigned(signed(b)) == b,
{
}

/// A 32-bit integer is read back from its bytes.
pub proof fn law_u32_reads_back(x: u32)
    ensures
        bytes32(x).len() == 4,
        le32(bytes32(x), 0) == x,
{
}

/// A 64-bit integer is read back from its bytes.
pub proof fn law_u64_reads_back(x: u64)
    ensures
        bytes64(x).len() == 8,
        le64(bytes64(x), 0) == x,
{
    let low = (x as int % 0x1_0000_0000) as u32;
    let high = (x as int / 0x1_0000_0000) as u32;
    law_u32_reads_back(low);
    law_u32_reads_back(high);
    let all = bytes64(x);
    assert(le32(all, 0) == le32(bytes32(low), 0));
    assert(le32(all, 4) == le32(bytes32(high), 0));
}

/// A signed byte is read back from its byte.
pub proof fn law_i8_reads_back(q: i8)
    ensures
        signed(unsigned(q)) == q,
{
}

pub(crate) fn read_u16(bytes: &[u8], at: usize) -> (r: u16)
    requires
        at + 2 <= bytes@.len(),
    ensures
        r == le16(bytes@, at as int),
{
    bytes[at] as u16 + 0x100 * bytes[at + 1] as u16
}

pub(crate) fn read_u32(bytes: &[u8], at: usize) -> (r: u32)
    requires
        at + 4 <= bytes@.len(),
    ensures
        r == le32(bytes@, at as int),
{
    assert(bytes.len() == bytes@.len());
    read_u16(bytes, at) as u32 + 0x1_0000 * read_u16(bytes, at + 2) as u32
}

pub(crate) fn read_u64(bytes: &[u8], at: usize) -> (r: u64)
    requires
        at + 8 <= bytes@.len(),
    ensures
        r == le64(bytes@, at as int),
{
    assert(bytes.len() == bytes@.len());
    read_u32(bytes, at) as u64 + 0x1_0000_0000 * read_u32(bytes, at + 4) as u64
}

pub(crate) fn read_i8(bytes: &[u8], at: usize) -> (r: i8)
    requires
        at < bytes@.len(),
    ensures
        r == signed(bytes@[at as int]),
{
    let b = bytes[at];
    if b < 128 {
        b as i8
    } else {
        (b as i16 - 256) as i8
    }
}

pub(crate) fn push_u32(out: &mut Vec<u8>, x: u32)
    ensures
        final(out)@ == old(out)@ + bytes32(x),
{
    out.push((x % 0x100) as u8);
    out.push((x / 0x100 % 0x100) as u8);
    out.push((x / 0x1_0000 % 0x100) as u8);
    out.push((x / 0x100_0000) as u8);
}

pub(crate) fn push_u64(out: &mut Vec<u8>, x: u64)
    ensures
        final(out)@ == old(out)@ + bytes64(x),
{
    push_u32(out, (x % 0x1_0000_0000) as u32);
    push_u32(out, (x / 0x1_0000_0000) as u32);
}

pub(crate) fn push_i8(out: &mut Vec<u8>, q: i8)
    ensures
        final(out)@ == old(out)@.push(unsigned(q)),
{
    if q >= 0 {
        out.push(q as u8);
    } else {
        out.push((q as i16 + 256) as u8);
    }
}

} // verus!
