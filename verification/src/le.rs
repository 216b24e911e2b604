use vstd::prelude::*;

use byteorder::{LittleEndian, WriteBytesExt};

verus! {

/// The two little-endian bytes of a 16-bit value.
pub open spec fn u16_le(x: u16) -> Seq<u8> {
    seq![(x & 0xff) as u8, ((x >> 8) & 0xff) as u8]
}

/// The four little-endian bytes of a 32-bit value.
pub open spec fn u32_le(x: u32) -> Seq<u8> {
    seq![
        (x & 0xff) as u8,
        ((x >> 8) & 0xff) as u8,
        ((x >> 16) & 0xff) as u8,
        ((x >> 24) & 0xff) as u8,
    ]
}

/// The eight little-endian bytes of a 64-bit value.
pub open spec fn u64_le(x: u64) -> Seq<u8> {
    seq![
        (x & 0xff) as u8,
        ((x >> 8) & 0xff) as u8,
        ((x >> 16) & 0xff) as u8,
        ((x >> 24) & 0xff) as u8,
        ((x >> 32) & 0xff) as u8,
        ((x >> 40) & 0xff) as u8,
        ((x >> 48) & 0xff) as u8,
        ((x >> 56) & 0xff) as u8,
    ]
}

/// The two's-complement 32-bit pattern of a signed value.
pub open spec fn i32_pattern(x: i32) -> u32 {
    if x >= 0 {
        x as u32
    } else {
        (x + 0x1_0000_0000) as u32
    }
}

/// The two's-complement 64-bit pattern of a signed value.
pub open spec fn i64_pattern(x: i64) -> u64 {
    if x >= 0 {
        x as u64
    } else {
        (x + 0x1_0000_0000_0000_0000) as u64
    }
}

/// The value that four little-endian bytes denote.
pub open spec fn le4_val(b: Seq<u8>) -> u32
    recommends
        b.len() == 4,
{
    (b[0] + b[1] * 0x100 + b[2] * 0x1_0000 + b[3] * 0x100_0000) as u32
}

/// The value that eight little-endian bytes denote.
pub open spec fn le8_val(b: Seq<u8>) -> u64
    recommends
        b.len() == 8,
{
    (b[0] + b[1] * 0x100 + b[2] * 0x1_0000 + b[3] * 0x100_0000 + b[4] * 0x1_0000_0000
        + b[5] * 0x100_0000_0000 + b[6] * 0x1_0000_0000_0000 + b[7]
        * 0x100_0000_0000_0000) as u64
}

/// Relies on byteorder's `WriteBytesExt::write_u8`: it appends the one byte;
/// `io::Write` on a `Vec<u8>` cannot fail.
#[verifier::external_body]
pub fn put_u8(out: &mut Vec<u8>, x: u8)
    ensures
        final(out)@ == old(out)@ + seq![x],
{
    out.write_u8(x).unwrap();
}

/// Relies on byteorder's `WriteBytesExt::write_u16` with `LittleEndian`: it
/// appends the value's two little-endian bytes; `io::Write` on a `Vec<u8>`
/// cannot fail.
#[verifier::external_body]
pub fn put_u16_le(out: &mut Vec<u8>, x: u16)
    ensures
        final(out)@ == old(out)@ + u16_le(x),
{
    out.write_u16::<LittleEndian>(x).unwrap();
}

/// Relies on byteorder's `WriteBytesExt::write_u32` with `LittleEndian`: it
/// appends the value's four little-endian bytes; `io::Write` on a `Vec<u8>`
/// cannot fail.
#[verifier::external_body]
pub fn put_u32_le(out: &mut Vec<u8>, x: u32)
    ensures
        final(out)@ == old(out)@ + u32_le(x),
{
    out.write_u32::<LittleEndian>(x).unwrap();
}

/// Relies on byteorder's `WriteBytesExt::write_u64` with `LittleEndian`: it
/// appends the value's eight little-endian bytes; `io::Write` on a `Vec<u8>`
/// cannot fail.
#[verifier::external_body]
pub fn put_u64_le(out: &mut Vec<u8>, x: u64)
    ensures
        final(out)@ == old(out)@ + u64_le(x),
{
    out.write_u64::<LittleEndian>(x).unwrap();
}

/// Relies on byteorder's `WriteBytesExt::write_i32` with `LittleEndian`: it
/// appends the four little-endian bytes of the value's two's-complement
/// pattern; `io::Write` on a `Vec<u8>` cannot fail.
#[verifier::external_body]
pub fn put_i32_le(out: &mut Vec<u8>, x: i32)
    ensures
        final(out)@ == old(out)@ + u32_le(i32_pattern(x)),
{
    out.write_i32::<LittleEndian>(x).unwrap();
}

/// Relies on byteorder's `WriteBytesExt::write_i64` with `LittleEndian`: it
/// appends the eight little-endian bytes of the value's two's-complement
/// pattern; `io::Write` on a `Vec<u8>` cannot fail.
#[verifier::external_body]
pub fn put_i64_le(out: &mut Vec<u8>, x: i64)
    ensures
        final(out)@ == old(out)@ + u64_le(i64_pattern(x)),
{
    out.write_i64::<LittleEndian>(x).unwrap();
}

/// Reading back the four little-endian bytes of a 32-bit value recovers it.
pub proof fn lemma_le4_roundtrip(x: u32)
    ensures
        le4_val(u32_le(x)) == x,
{
    assert(x & 0xff < 0x100 && (x >> 8) & 0xff < 0x100 && (x >> 16) & 0xff < 0x100 && (x >> 24)
        & 0xff < 0x100) by (bit_vector);
    assert((x & 0xff) + ((x >> 8) & 0xff) * 0x100 + ((x >> 16) & 0xff) * 0x1_0000 + ((x >> 24)
        & 0xff) * 0x100_0000 == x) by (bit_vector);
}

/// Reading back the eight little-endian bytes of a 64-bit value recovers it.
pub proof fn lemma_le8_roundtrip(x: u64)
    ensures
        le8_val(u64_le(x)) == x,
{
    assert(x & 0xff < 0x100 && (x >> 8) & 0xff < 0x100 && (x >> 16) & 0xff < 0x100 && (x >> 24)
        & 0xff < 0x100 && (x >> 32) & 0xff < 0x100 && (x >> 40) & 0xff < 0x100 && (x >> 48) & 0xff
        < 0x100 && (x >> 56) & 0xff < 0x100) by (bit_vector);
    assert((x & 0xff) + ((x >> 8) & 0xff) * 0x100 + ((x >> 16) & 0xff) * 0x1_0000 + ((x >> 24)
        & 0xff) * 0x100_0000 + ((x >> 32) & 0xff) * 0x1_0000_0000 + ((x >> 40) & 0xff)
        * 0x100_0000_0000 + ((x >> 48) & 0xff) * 0x1_0000_0000_0000 + ((x >> 56) & 0xff)
        * 0x100_0000_0000_0000 == x) by (bit_vector);
}

} // verus!
