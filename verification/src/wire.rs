//! Little-endian integers on the wire.
//!
//! The spec functions say which bytes stand for which number; the writers
//! are proved against them, and the readers call `byteorder`.

use byteorder::{ByteOrder, LittleEndian};
use vstd::prelude::*;
use vstd::utf8::{decode_utf8, valid_utf8};

verus! {

/// The two bytes of `x`, least significant first.
pub open spec fn le_bytes_u16(x: u16) -> Seq<u8> {
    seq![(x % 256) as u8, (x / 256) as u8]
}

/// The four bytes of `x`, least significant first.
pub open spec fn le_bytes_u32(x: u32) -> Seq<u8> {
    seq![
        (x % 256) as u8,
        ((x / 256) % 256) as u8,
        ((x / 65536) % 256) as u8,
        (x / 16777216) as u8,
    ]
}

/// The number whose least significant byte is `b[0]`, read from the first
/// two bytes of `b`.
pub open spec fn le_u16(b: Seq<u8>) -> u16
    recommends
        b.len() >= 2,
{
    (b[0] as int + 256 * (b[1] as int)) as u16
}

/// The number read from the first four bytes of `b`, least significant
/// first.
pub open spec fn le_u32(b: Seq<u8>) -> u32
    recommends
        b.len() >= 4,
{
    (b[0] as int + 256 * (b[1] as int) + 65536 * (b[2] as int) + 16777216 * (b[3] as int)) as u32
}

/// The number read from the first eight bytes of `b`, least significant
/// first.
pub open spec fn le_u64(b: Seq<u8>) -> u64
    recommends
        b.len() >= 8,
{
    (le_u32(b) as int + 4294967296 * (le_u32(b.skip(4)) as int)) as u64
}

/// Reading back what was written gives the number that was written.
pub proof fn lemma_le_u16_of_le_bytes(x: u16, rest: Seq<u8>)
    ensures
        le_u16(le_bytes_u16(x) + rest) == x,
{
}

/// Reading back what was written gives the number that was written.
pub proof fn lemma_le_u32_of_le_bytes(x: u32, rest: Seq<u8>)
    ensures
        le_u32(le_bytes_u32(x) + rest) == x,
{
}

/// Writing what was read gives back the bytes that were read.
pub proof fn lemma_le_bytes_of_le_u16(b: Seq<u8>)
    requires
        b.len() >= 2,
    ensures
        le_bytes_u16(le_u16(b)) == b.take(2),
{
    assert(le_bytes_u16(le_u16(b)) =~= b.take(2));
}

/// Writing what was read gives back the bytes that were read.
pub proof fn lemma_le_bytes_of_le_u32(b: Seq<u8>)
    requires
        b.len() >= 4,
    ensures
        le_bytes_u32(le_u32(b)) == b.take(4),
{
    let (b0, b1, b2, b3) = (b[0] as int, b[1] as int, b[2] as int, b[3] as int);
    let x = le_u32(b) as int;
    assert(x == b0 + 256 * (b1 + 256 * (b2 + 256 * b3)));
    assert(x % 256 == b0 && x / 256 == b1 + 256 * (b2 + 256 * b3));
    assert((x / 256) % 256 == b1 && x / 65536 == b2 + 256 * b3);
    assert((x / 65536) % 256 == b2 && x / 16777216 == b3);
    assert(le_bytes_u32(le_u32(b)) =~= b.take(4));
}

/// Appends the two bytes of `x` to `out`, least significant first.
pub fn write_u16_le(out: &mut Vec<u8>, x: u16)
    ensures
        final(out)@ == old(out)@ + le_bytes_u16(x),
{
    let b0: u8 = (x & 0xff) as u8;
    let b1: u8 = (x >> 8) as u8;
    assert(x & 0xff == x % 256 && x >> 8 == x / 256) by (bit_vector);
    out.push(b0);
    out.push(b1);
    assert(out@ =~= old(out)@ + le_bytes_u16(x));
}

/// Appends the four bytes of `x` to `out`, least significant first.
pub fn write_u32_le(out: &mut Vec<u8>, x: u32)
    ensures
        final(out)@ == old(out)@ + le_bytes_u32(x),
{
    let b0: u8 = (x & 0xff) as u8;
    let b1: u8 = ((x >> 8) & 0xff) as u8;
    let b2: u8 = ((x >> 16) & 0xff) as u8;
    let b3: u8 = (x >> 24) as u8;
    assert(x & 0xff == x % 256 && (x >> 8) & 0xff == (x / 256) % 256 && (x >> 16) & 0xff == (x
        / 65536) % 256 && x >> 24 == x / 16777216) by (bit_vector);
    out.push(b0);
    out.push(b1);
    out.push(b2);
    out.push(b3);
    assert(out@ =~= old(out)@ + le_bytes_u32(x));
}

/// `byteorder::LittleEndian::read_u16`: the number that the first two
/// bytes of `buf` hold, least significant first. It panics on a shorter
/// slice, which `requires` leaves out.
#[verifier::external_body]
pub(crate) fn read_u16_le(buf: &[u8]) -> (r: u16)
    requires
        buf@.len() >= 2,
    ensures
        r == le_u16(buf@),
{
    LittleEndian::read_u16(buf)
}

/// `byteorder::LittleEndian::read_u32`: the number that the first four
/// bytes of `buf` hold, least significant first. It panics on a shorter
/// slice, which `requires` leaves out.
#[verifier::external_body]
pub(crate) fn read_u32_le(buf: &[u8]) -> (r: u32)
    requires
        buf@.len() >= 4,
    ensures
        r == le_u32(buf@),
{
    LittleEndian::read_u32(buf)
}

/// `byteorder::LittleEndian::read_u64`: the number that the first eight
/// bytes of `buf` hold, least significant first. It panics on a shorter
/// slice, which `requires` leaves out.
#[verifier::external_body]
pub(crate) fn read_u64_le(buf: &[u8]) -> (r: u64)
    requires
        buf@.len() >= 8,
    ensures
        r == le_u64(buf@),
{
    LittleEndian::read_u64(buf)
}

/// `String::from_utf8`: the string that `bytes` encode where they are
/// well-formed UTF-8, and nothing where they are not.
#[verifier::external_body]
pub(crate) fn string_from_utf8(bytes: Vec<u8>) -> (r: Option<String>)
    ensures
        r is Some <==> valid_utf8(bytes@),
        r matches Some(s) ==> s@ == decode_utf8(bytes@),
{
    match String::from_utf8(bytes) {
        Ok(s) => Some(s),
        Err(_) => None,
    }
}

} // verus!
