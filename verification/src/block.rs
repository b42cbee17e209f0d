//! The block transform, stated: eight bytes of plain text to eleven bytes
//! of cipher text and back.
//!
//! A key table holds sixteen 32-bit words in four rows of four: row 0 the
//! moduli, row 1 the multipliers for encryption, row 2 the multipliers for
//! decryption, row 3 the masks. All products are taken in 32 bits.

use crate::bits::{bit_at, packed_bits};
use crate::endian::{le_bytes_u16, le_bytes_u32, le_u16, le_u32};
use vstd::prelude::*;
use vstd::wrapping::u32_specs::wrapping_mul;

verus! {

/// A chunk of up to eight bytes, filled up with zeros to eight.
pub open spec fn padded(chunk: Seq<u8>) -> Seq<u8> {
    Seq::new(8, |i: int| if i < chunk.len() { chunk[i] } else { 0u8 })
}

/// The `i`-th 16-bit little-endian value of a byte string, as a word.
pub open spec fn half_word(bytes: Seq<u8>, i: int) -> u32 {
    le_u16(bytes[2 * i], bytes[2 * i + 1]) as u32
}

/// One step of the forward transform: mask, multiply, reduce.
pub open spec fn scramble(keys: Seq<u32>, i: int, half: u32, carry: u32) -> u32 {
    wrapping_mul(half ^ (keys[12 + i] ^ carry), keys[4 + i]) % keys[i]
}

/// The `i`-th word after the first pass over a block, in which each word
/// is also masked with the low half of the one before it.
pub open spec fn scrambled(keys: Seq<u32>, input: Seq<u8>, i: int) -> u32
    decreases i,
{
    if i < 0 {
        0
    } else if i == 0 {
        scramble(keys, 0, half_word(input, 0), 0)
    } else {
        scramble(keys, i, half_word(input, i), scrambled(keys, input, i - 1) & 0xFFFF)
    }
}

/// The `i`-th word after the second pass, in which each word but the last
/// is masked with the low half of the one behind it.
pub open spec fn chained(keys: Seq<u32>, input: Seq<u8>, i: int) -> u32 {
    if i < 3 {
        scrambled(keys, input, i) ^ (keys[12 + i] ^ (scrambled(keys, input, i + 1) & 0xFFFF))
    } else {
        scrambled(keys, input, i)
    }
}

/// The four words that stand for a block of plain text.
pub open spec fn cipher_words(keys: Seq<u32>, input: Seq<u8>) -> Seq<u32> {
    Seq::new(4, |i: int| chained(keys, input, i))
}

/// The check byte of a byte string: `0xF8` and all its bytes, xor-ed.
pub open spec fn checksum(bytes: Seq<u8>) -> u8
    decreases bytes.len(),
{
    if bytes.len() == 0 {
        0xF8
    } else {
        checksum(bytes.drop_last()) ^ bytes.last()
    }
}

/// The two bytes that close a block of cipher text: the length of the
/// plain text, masked, and the check byte of the padded plain text.
pub open spec fn trailer(chunk: Seq<u8>) -> Seq<u8> {
    let sum = checksum(padded(chunk));
    seq![(sum ^ (chunk.len() as u8)) ^ 0x3D, sum]
}

/// Bit `j` of the 18-bit field that carries a word: its low byte, its
/// second byte, then bits 17 and 16.
pub open spec fn field_bit(word: u32, j: int) -> bool {
    if j < 16 {
        bit_at(le_bytes_u32(word), j)
    } else {
        bit_at(le_bytes_u32(word), j + 6)
    }
}

/// Bit `p` of a block of cipher text: four fields of 18 bits, then the
/// two bytes of the trailer.
pub open spec fn block_bit(words: Seq<u32>, tail: Seq<u8>, p: int) -> bool {
    if p < 72 {
        field_bit(words[p / 18], p % 18)
    } else {
        bit_at(tail, p - 72)
    }
}

/// The eleven bytes made of four words and a trailer.
pub open spec fn packed_block(words: Seq<u32>, tail: Seq<u8>) -> Seq<u8> {
    packed_bits(11, |p: int| block_bit(words, tail, p))
}

/// The cipher text of a chunk of up to eight bytes.
pub open spec fn encrypted_block(keys: Seq<u32>, chunk: Seq<u8>) -> Seq<u8> {
    packed_block(cipher_words(keys, padded(chunk)), trailer(chunk))
}

/// Number of blocks that `len` bytes fill when a block holds `width`.
pub open spec fn block_count(len: int, width: int) -> int {
    (len + width - 1) / width
}

/// The `k`-th chunk of eight bytes of a byte string; the last may be
/// shorter.
pub open spec fn chunk(data: Seq<u8>, k: int) -> Seq<u8> {
    data.subrange(8 * k, if 8 * k + 8 <= data.len() { 8 * k + 8 } else { data.len() as int })
}

/// The cipher text of the first `count` chunks of a byte string.
pub open spec fn encrypted_prefix(keys: Seq<u32>, data: Seq<u8>, count: int) -> Seq<u8> {
    Seq::new((11 * count) as nat, |t: int| encrypted_block(keys, chunk(data, t / 11))[t % 11])
}

/// The cipher text of a byte string: that of its chunks, one after the
/// other.
pub open spec fn encrypted(keys: Seq<u32>, data: Seq<u8>) -> Seq<u8> {
    encrypted_prefix(keys, data, block_count(data.len() as int, 8))
}

/// The four bytes that `i`-th field of a block fills: its first 16 bits
/// in front, its last two at the end of the third byte.
pub open spec fn field_bytes(block: Seq<u8>, i: int) -> Seq<u8> {
    packed_bits(
        4,
        |p: int|
            (p < 16 && bit_at(block, 18 * i + p)) || (22 <= p < 24 && bit_at(
                block,
                18 * i + 16 + (p - 22),
            )),
    )
}

/// The word that the `i`-th field of a block carries.
pub open spec fn field_word(block: Seq<u8>, i: int) -> u32 {
    let bytes = field_bytes(block, i);
    le_u32(bytes[0], bytes[1], bytes[2], bytes[3])
}

/// The `i`-th word of a block with the second pass undone.
pub open spec fn unchained(keys: Seq<u32>, block: Seq<u8>, i: int) -> u32
    decreases 3 - i,
{
    if i >= 3 {
        field_word(block, 3)
    } else {
        field_word(block, i) ^ (keys[12 + i] ^ (unchained(keys, block, i + 1) & 0xFFFF))
    }
}

/// One step of the backward transform: multiply, reduce, unmask.
pub open spec fn unscramble(keys: Seq<u32>, i: int, word: u32, carry: u32) -> u32 {
    (wrapping_mul(keys[8 + i], word) % keys[i]) ^ (keys[12 + i] ^ carry)
}

/// The `i`-th 16-bit value of the plain text of a block.
pub open spec fn plain_half(keys: Seq<u32>, block: Seq<u8>, i: int) -> u16 {
    (unscramble(
        keys,
        i,
        unchained(keys, block, i),
        if i == 0 {
            0
        } else {
            unchained(keys, block, i - 1) & 0xFFFF
        },
    ) & 0xFFFF) as u16
}

/// The eight bytes of plain text that a block of cipher text stands for.
pub open spec fn decrypted_block(keys: Seq<u32>, block: Seq<u8>) -> Seq<u8> {
    Seq::new(8, |t: int| le_bytes_u16(plain_half(keys, block, t / 2))[t % 2])
}

/// The length that a block states for its plain text.
pub open spec fn block_length(block: Seq<u8>) -> u8 {
    block[9] ^ block[10] ^ 0x3D
}

/// Whether a block carries the check byte of its plain text.
pub open spec fn block_intact(keys: Seq<u32>, block: Seq<u8>) -> bool {
    checksum(decrypted_block(keys, block)) == block[10]
}

/// The `k`-th block of eleven bytes of a byte string.
pub open spec fn block(data: Seq<u8>, k: int) -> Seq<u8> {
    data.subrange(11 * k, 11 * k + 11)
}

/// Whether the first `count` blocks of a byte string are all intact.
pub open spec fn blocks_intact(keys: Seq<u32>, data: Seq<u8>, count: int) -> bool {
    forall|k: int| 0 <= k < count ==> block_intact(keys, #[trigger] block(data, k))
}

/// The plain text of the first `count` blocks, eight bytes for each.
pub open spec fn decrypted_prefix(keys: Seq<u32>, data: Seq<u8>, count: int) -> Seq<u8> {
    Seq::new((8 * count) as nat, |t: int| decrypted_block(keys, block(data, t / 8))[t % 8])
}

/// The lengths that the first `count` blocks state, added up.
pub open spec fn stated_length(data: Seq<u8>, count: int) -> nat
    decreases count,
{
    if count <= 0 {
        0
    } else {
        stated_length(data, count - 1) + block_length(block(data, count - 1)) as nat
    }
}

/// The plain text of a whole number of blocks: eight bytes for each, cut
/// to the sum of the lengths that the blocks state (and kept whole where
/// that sum is larger).
pub open spec fn decrypted(keys: Seq<u32>, data: Seq<u8>) -> Seq<u8> {
    let count = data.len() as int / 11;
    let whole = decrypted_prefix(keys, data, count);
    let stated = stated_length(data, count);
    if stated <= whole.len() {
        whole.take(stated as int)
    } else {
        whole
    }
}

/// A key table that the transform can work with: sixteen words, none of
/// the four moduli zero.
pub open spec fn usable_table(keys: Seq<u32>) -> bool {
    &&& keys.len() == 16
    &&& keys[0] != 0
    &&& keys[1] != 0
    &&& keys[2] != 0
    &&& keys[3] != 0
}

} // verus!
