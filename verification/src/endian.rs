//! Big-endian integers on the wire.

use byteorder::{BigEndian, ByteOrder};
use vstd::prelude::*;

verus! {

/// The unsigned 16-bit integer whose big-endian representation is the first
/// two bytes of `b`.
pub open spec fn u16_from_be(b: Seq<u8>) -> int {
    b[0] * 0x100 + b[1]
}

/// The unsigned 32-bit integer whose big-endian representation is the first
/// four bytes of `b`.
pub open spec fn u32_from_be(b: Seq<u8>) -> int {
    b[0] * 0x100_0000 + b[1] * 0x1_0000 + b[2] * 0x100 + b[3]
}

/// The two bytes that represent `n`, most significant first.
pub open spec fn u16_to_be(n: u16) -> Seq<u8> {
    seq![(n / 0x100) as u8, (n % 0x100) as u8]
}

/// The four bytes that represent `n`, most significant first.
pub open spec fn u32_to_be(n: u32) -> Seq<u8> {
    seq![
        (n / 0x100_0000) as u8,
        (n / 0x1_0000 % 0x100) as u8,
        (n / 0x100 % 0x100) as u8,
        (n % 0x100) as u8,
    ]
}

/// Reading back what was written gives the number that was written.
pub proof fn lemma_u16_be_round_trip(n: u16)
    ensures
        u16_to_be(n).len() == 2,
        u16_from_be(u16_to_be(n)) == n,
{
}

/// Reading back what was written gives the number that was written.
pub proof fn lemma_u32_be_round_trip(n: u32)
    ensures
        u32_to_be(n).len() == 4,
        u32_from_be(u32_to_be(n)) == n,
{
}

/// Writing down the number that two bytes represent gives the two bytes.
pub proof fn lemma_u16_be_bytes(b: Seq<u8>)
    requires
        b.len() == 2,
    ensures
        0 <= u16_from_be(b) <= u16::MAX,
        u16_to_be(u16_from_be(b) as u16) == b,
{
    assert(u16_to_be(u16_from_be(b) as u16) =~= b);
}

/// Writing down the number that four bytes represent gives the four bytes.
pub proof fn lemma_u32_be_bytes(b: Seq<u8>)
    requires
        b.len() == 4,
    ensures
        0 <= u32_from_be(b) <= u32::MAX,
        u32_to_be(u32_from_be(b) as u32) == b,
{
    let n = u32_from_be(b);
    let low = b[1] * 0x1_0000 + b[2] * 0x100 + b[3];
    assert(n == b[0] * 0x100_0000 + low && 0 <= low < 0x100_0000);
    assert(n / 0x100_0000 == b[0]);
    let mid = n / 0x1_0000;
    assert(mid == b[0] * 0x100 + b[1]);
    assert(mid % 0x100 == b[1]);
    let high = n / 0x100;
    assert(high == b[0] * 0x1_0000 + b[1] * 0x100 + b[2]);
    assert(high % 0x100 == b[2]);
    assert(n % 0x100 == b[3]);
    assert(u32_to_be(n as u32) =~= b);
}

/// Calls `byteorder::BigEndian::read_u16`, which reads the first two bytes
/// of `buf` as a big-endian integer and panics on a shorter buffer.
#[verifier::external_body]
pub(crate) fn read_u16(buf: &[u8]) -> (n: u16)
    requires
        buf@.len() >= 2,
    ensures
        n == u16_from_be(buf@),
{
    BigEndian::read_u16(buf)
}

/// Calls `byteorder::BigEndian::read_u32`, which reads the first four bytes
/// of `buf` as a big-endian integer and panics on a shorter buffer.
#[verifier::external_body]
pub(crate) fn read_u32(buf: &[u8]) -> (n: u32)
    requires
        buf@.len() >= 4,
    ensures
        n == u32_from_be(buf@),
{
    BigEndian::read_u32(buf)
}

/// Calls `byteorder::BigEndian::write_u16` on a two-byte buffer, which it
/// fills with the big-endian representation of `n`.
#[verifier::external_body]
pub(crate) fn write_u16(n: u16) -> (bytes: [u8; 2])
    ensures
        bytes@ == u16_to_be(n),
{
    let mut bytes: [u8; 2] = [0; 2];
    BigEndian::write_u16(&mut bytes, n);
    bytes
}

/// Calls `byteorder::BigEndian::write_u32` on a four-byte buffer, which it
/// fills with the big-endian representation of `n`.
#[verifier::external_body]
pub(crate) fn write_u32(n: u32) -> (bytes: [u8; 4])
    ensures
        bytes@ == u32_to_be(n),
{
    let mut bytes: [u8; 4] = [0; 4];
    BigEndian::write_u32(&mut bytes, n);
    bytes
}

} // verus!
