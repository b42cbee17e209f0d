//! Integers in byte buffers, read and written by the `byteorder` crate.
//!
//! The functions of this file hand their work to `byteorder`; what they
//! promise is taken on trust from its source.

use byteorder::{BigEndian, ByteOrder, LittleEndian};
use vstd::prelude::*;

verus! {

/// The 16-bit value whose little-endian bytes are `b0`, `b1`.
pub open spec fn le_u16(b0: u8, b1: u8) -> u16 {
    (b0 as u16) | ((b1 as u16) << 8)
}

/// The 32-bit value whose little-endian bytes are `b0` to `b3`.
pub open spec fn le_u32(b0: u8, b1: u8, b2: u8, b3: u8) -> u32 {
    (b0 as u32) | ((b1 as u32) << 8) | ((b2 as u32) << 16) | ((b3 as u32) << 24)
}

/// The four little-endian bytes of a 32-bit value.
pub open spec fn le_bytes_u32(n: u32) -> Seq<u8> {
    seq![
        (n & 0xFF) as u8,
        ((n >> 8) & 0xFF) as u8,
        ((n >> 16) & 0xFF) as u8,
        ((n >> 24) & 0xFF) as u8,
    ]
}

/// The two little-endian bytes of a 16-bit value.
pub open spec fn le_bytes_u16(n: u16) -> Seq<u8> {
    seq![(n & 0xFF) as u8, ((n >> 8) & 0xFF) as u8]
}

/// The number that a byte string spells in base 256, first byte highest.
pub open spec fn be_value(bytes: Seq<u8>) -> nat
    decreases bytes.len(),
{
    if bytes.len() == 0 {
        0
    } else {
        be_value(bytes.drop_last()) * 256 + bytes.last() as nat
    }
}

/// `256` to the power of `n`.
pub open spec fn pow256(n: nat) -> nat
    decreases n,
{
    if n == 0 {
        1
    } else {
        256 * pow256((n - 1) as nat)
    }
}

/// `LittleEndian::read_u16`: the value of the first two bytes of `buf`,
/// low byte first.
#[verifier::external_body]
pub(crate) fn read_u16_le(buf: &[u8]) -> (value: u16)
    requires
        buf@.len() >= 2,
    ensures
        value == le_u16(buf@[0], buf@[1]),
{
    LittleEndian::read_u16(buf)
}

/// `LittleEndian::read_u32`: the value of the first four bytes of `buf`,
/// low byte first.
#[verifier::external_body]
pub(crate) fn read_u32_le(buf: &[u8]) -> (value: u32)
    requires
        buf@.len() >= 4,
    ensures
        value == le_u32(buf@[0], buf@[1], buf@[2], buf@[3]),
{
    LittleEndian::read_u32(buf)
}

/// `LittleEndian::write_u16`: puts the two bytes of `n`, low byte first,
/// at the start of `buf` and leaves the rest of it alone.
#[verifier::external_body]
pub(crate) fn write_u16_le(buf: &mut [u8], n: u16)
    requires
        old(buf)@.len() >= 2,
    ensures
        final(buf)@ == le_bytes_u16(n) + old(buf)@.skip(2),
{
    LittleEndian::write_u16(buf, n)
}

/// `LittleEndian::write_u32`: puts the four bytes of `n`, low byte first,
/// at the start of `buf` and leaves the rest of it alone.
#[verifier::external_body]
pub(crate) fn write_u32_le(buf: &mut [u8], n: u32)
    requires
        old(buf)@.len() >= 4,
    ensures
        final(buf)@ == le_bytes_u32(n) + old(buf)@.skip(4),
{
    LittleEndian::write_u32(buf, n)
}

/// `BigEndian::read_uint`: the number that the first `nbytes` bytes of
/// `buf` spell, high byte first.
#[verifier::external_body]
pub(crate) fn read_uint_be(buf: &[u8], nbytes: usize) -> (value: u64)
    requires
        1 <= nbytes <= 8,
        nbytes <= buf@.len(),
    ensures
        value == be_value(buf@.take(nbytes as int)),
{
    BigEndian::read_uint(buf, nbytes)
}

/// `BigEndian::write_uint`: spells `n` in the first `nbytes` bytes of
/// `buf`, high byte first, and leaves the rest of it alone. `n` has to fit
/// in that many bytes.
#[verifier::external_body]
pub(crate) fn write_uint_be(buf: &mut [u8], n: u64, nbytes: usize)
    requires
        1 <= nbytes <= 8,
        nbytes <= old(buf)@.len(),
        n < pow256(nbytes as nat),
    ensures
        final(buf)@.len() == old(buf)@.len(),
        be_value(final(buf)@.take(nbytes as int)) == n,
        final(buf)@.skip(nbytes as int) == old(buf)@.skip(nbytes as int),
{
    BigEndian::write_uint(buf, n, nbytes)
}

} // verus!
