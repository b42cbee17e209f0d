//! What holds of the block transform under a pair of key tables that
//! belong together.

use crate::bits::{bit_at, byte_bit, lemma_bits_fix_bytes, lemma_packed_bits};
use crate::block::{
    block, block_bit, block_count, block_intact, block_length, blocks_intact, checksum, chunk,
    cipher_words, decrypted, decrypted_block, decrypted_prefix, encrypted, encrypted_block,
    field_bit, field_bytes, field_word, half_word, packed_block, padded, plain_half, scramble,
    scrambled, stated_length, trailer, unchained, unscramble, usable_table,
};
use crate::endian::{le_bytes_u16, le_bytes_u32, le_u16, le_u32};
use vstd::arithmetic::div_mod::{lemma_mul_mod_noop_general, lemma_small_mod};
use vstd::prelude::*;
use vstd::wrapping::u32_specs::wrapping_mul;

verus! {

/// Column `i` of an encrypting and a decrypting table that undo each
/// other: one modulus of 17 or 18 bits, one mask of 16 bits, multipliers
/// that are inverse to each other under the modulus and small enough for
/// no product to leave 32 bits.
pub open spec fn matched_column(enc: Seq<u32>, dec: Seq<u32>, i: int) -> bool {
    &&& enc[i] == dec[i]
    &&& 0x1_0000 <= enc[i] <= 0x4_0000
    &&& enc[12 + i] == dec[12 + i]
    &&& enc[12 + i] < 0x1_0000
    &&& enc[4 + i] < 0x1_0000
    &&& dec[8 + i] * (enc[i] - 1) < 0x1_0000_0000
    &&& (enc[4 + i] * dec[8 + i]) % (enc[i] as int) == 1
}

/// An encrypting and a decrypting table that undo each other.
pub open spec fn matched_tables(enc: Seq<u32>, dec: Seq<u32>) -> bool {
    &&& enc.len() == 16
    &&& dec.len() == 16
    &&& matched_column(enc, dec, 0)
    &&& matched_column(enc, dec, 1)
    &&& matched_column(enc, dec, 2)
    &&& matched_column(enc, dec, 3)
}

/// Three values of 16 bits stay within 16 bits when they are xor-ed, and
/// xor-ing the same two again gives the first back.
proof fn lemma_masks(half: u32, key: u32, carry: u32)
    by (bit_vector)
    requires
        half < 0x1_0000,
        key < 0x1_0000,
        carry < 0x1_0000,
    ensures
        half ^ (key ^ carry) < 0x1_0000,
        (half ^ (key ^ carry)) ^ (key ^ carry) == half,
        half & 0xFFFF == half,
{
}

/// A word of 18 bits stays within 18 bits when a key of 16 bits and the
/// low half of another word are xor-ed onto it, and doing so twice gives
/// the word back.
proof fn lemma_links(word: u32, key: u32, next: u32)
    by (bit_vector)
    requires
        key < 0x1_0000,
    ensures
        next & 0xFFFF < 0x1_0000,
        word < 0x4_0000 ==> word ^ (key ^ (next & 0xFFFF)) < 0x4_0000,
        (word ^ (key ^ (next & 0xFFFF))) ^ (key ^ (next & 0xFFFF)) == word,
        word < 0x4_0000 ==> word & 0x3FFFF == word,
{
}

/// Under matched tables a step of the backward transform undoes a step
/// of the forward one, and what the forward step yields is below the
/// modulus.
proof fn lemma_scramble_undone(enc: Seq<u32>, dec: Seq<u32>, i: int, half: u32, carry: u32)
    requires
        matched_tables(enc, dec),
        0 <= i < 4,
        half < 0x1_0000,
        carry < 0x1_0000,
    ensures
        scramble(enc, i, half, carry) < enc[i],
        scramble(enc, i, half, carry) < 0x4_0000,
        unscramble(dec, i, scramble(enc, i, half, carry), carry) == half,
{
    let modulus = enc[i] as int;
    let key = enc[12 + i];
    let up = enc[4 + i] as int;
    let down = dec[8 + i] as int;
    let masked = half ^ (key ^ carry);
    lemma_masks(half, key, carry);
    let product = masked as int * up;
    assert(0 <= product < 0x1_0000_0000) by (nonlinear_arith)
        requires
            product == masked as int * up,
            0 <= masked < 0x1_0000,
            0 <= up < 0x1_0000,
    ;
    assert(wrapping_mul(masked, enc[4 + i]) == product) by {
        assert(masked as nat * enc[4 + i] as nat == product) by (nonlinear_arith)
            requires
                product == masked as int * up,
                up == enc[4 + i] as int,
        ;
        lemma_small_mod(product as nat, 0x1_0000_0000);
    }
    let word = scramble(enc, i, half, carry);
    assert(word == product % modulus);
    assert(0 <= word < modulus);
    let back = down * (word as int);
    assert(0 <= back < 0x1_0000_0000) by (nonlinear_arith)
        requires
            back == down * (word as int),
            0 <= word < modulus,
            0 <= down,
            down * (modulus - 1) < 0x1_0000_0000,
    ;
    assert(wrapping_mul(dec[8 + i], word) == back) by {
        assert(dec[8 + i] as nat * word as nat == back) by (nonlinear_arith)
            requires
                back == down * (word as int),
                down == dec[8 + i] as int,
        ;
        lemma_small_mod(back as nat, 0x1_0000_0000);
    }
    assert(back % modulus == masked) by {
        lemma_mul_mod_noop_general(down, product, modulus);
        assert((down * (product % modulus)) % modulus == (down * product) % modulus);
        assert(down * product == masked as int * (up * down)) by (nonlinear_arith)
            requires
                product == masked as int * up,
        ;
        lemma_mul_mod_noop_general(masked as int, up * down, modulus);
        assert((masked as int * ((up * down) % modulus)) % modulus == (masked as int * (up
            * down)) % modulus);
        assert(masked as int * 1 == masked as int);
        lemma_small_mod(masked as nat, modulus as nat);
    }
}

/// Under matched tables every word of the first pass is below its
/// modulus, and so fits in 18 bits.
proof fn lemma_scrambled_bound(enc: Seq<u32>, dec: Seq<u32>, input: Seq<u8>, i: int)
    requires
        matched_tables(enc, dec),
        0 <= i < 4,
    ensures
        scrambled(enc, input, i) < enc[i],
        scrambled(enc, input, i) < 0x4_0000,
    decreases i,
{
    let half = half_word(input, i);
    if i == 0 {
        lemma_scramble_undone(enc, dec, 0, half, 0);
    } else {
        lemma_links(0, 0, scrambled(enc, input, i - 1));
        lemma_scramble_undone(enc, dec, i, half, scrambled(enc, input, i - 1) & 0xFFFF);
    }
}

/// How the bytes of the low 18 bits of a word relate to the bytes of the
/// word, bit by bit.
proof fn lemma_word_bytes(word: u32, j: u8)
    by (bit_vector)
    requires
        j < 8,
    ensures
        byte_bit(((word & 0x3FFFF) & 0xFF) as u8, j) == byte_bit((word & 0xFF) as u8, j),
        byte_bit((((word & 0x3FFFF) >> 8) & 0xFF) as u8, j) == byte_bit(
            ((word >> 8) & 0xFF) as u8,
            j,
        ),
        byte_bit((((word & 0x3FFFF) >> 16) & 0xFF) as u8, j) == (j >= 6 && byte_bit(
            ((word >> 16) & 0xFF) as u8,
            j,
        )),
        !byte_bit((((word & 0x3FFFF) >> 24) & 0xFF) as u8, j),
{
}

/// A word is the value of its four bytes.
proof fn lemma_word_of_bytes(word: u32)
    by (bit_vector)
    ensures
        le_u32(
            (word & 0xFF) as u8,
            ((word >> 8) & 0xFF) as u8,
            ((word >> 16) & 0xFF) as u8,
            ((word >> 24) & 0xFF) as u8,
        ) == word,
{
}

/// A value of 16 bits has the two bytes it was read from.
proof fn lemma_half_of_bytes(b0: u8, b1: u8)
    by (bit_vector)
    ensures
        (((le_u16(b0, b1) as u32) & 0xFFFF) as u16) == le_u16(b0, b1),
        (le_u16(b0, b1) & 0xFF) as u8 == b0,
        ((le_u16(b0, b1) >> 8) & 0xFF) as u8 == b1,
{
}

/// The two bytes of a trailer give the length back.
proof fn lemma_trailer_bytes(sum: u8, len: u8)
    by (bit_vector)
    ensures
        ((sum ^ len) ^ 0x3D) ^ sum ^ 0x3D == len,
{
}

/// The bits of a packed block are those it was packed from.
proof fn lemma_block_bits(words: Seq<u32>, tail: Seq<u8>, q: int)
    requires
        0 <= q < 88,
    ensures
        bit_at(packed_block(words, tail), q) == block_bit(words, tail, q),
{
    lemma_packed_bits(11, |p: int| block_bit(words, tail, p), q);
}

/// The bits of the four bytes of a field are those of the field.
proof fn lemma_field_bits(cipher: Seq<u8>, i: int, p: int)
    requires
        0 <= p < 32,
    ensures
        bit_at(field_bytes(cipher, i), p) == ((p < 16 && bit_at(cipher, 18 * i + p)) || (22 <= p
            < 24 && bit_at(cipher, 18 * i + 16 + (p - 22)))),
{
    lemma_packed_bits(
        4,
        |p: int|
            (p < 16 && bit_at(cipher, 18 * i + p)) || (22 <= p < 24 && bit_at(
                cipher,
                18 * i + 16 + (p - 22),
            )),
        p,
    );
}

/// The bytes of the low 18 bits of a word have the first 16 bits of the
/// word's bytes and bits 22 and 23, and no more.
proof fn lemma_low_bits(word: u32, p: int)
    requires
        0 <= p < 32,
    ensures
        bit_at(le_bytes_u32(word & 0x3FFFF), p) == ((p < 16 || 22 <= p < 24) && bit_at(
            le_bytes_u32(word),
            p,
        )),
{
    let j = (p % 8) as u8;
    lemma_word_bytes(word, j);
    let low = le_bytes_u32(word & 0x3FFFF);
    let all = le_bytes_u32(word);
    if p < 8 {
        assert(p / 8 == 0);
        assert(low[0] == ((word & 0x3FFFF) & 0xFF) as u8);
        assert(all[0] == (word & 0xFF) as u8);
    } else if p < 16 {
        assert(p / 8 == 1);
        assert(low[1] == (((word & 0x3FFFF) >> 8) & 0xFF) as u8);
        assert(all[1] == ((word >> 8) & 0xFF) as u8);
    } else if p < 24 {
        assert(p / 8 == 2);
        assert(low[2] == (((word & 0x3FFFF) >> 16) & 0xFF) as u8);
        assert(all[2] == ((word >> 16) & 0xFF) as u8);
    } else {
        assert(p / 8 == 3);
        assert(low[3] == (((word & 0x3FFFF) >> 24) & 0xFF) as u8);
    }
}

/// A field of a packed block carries the low 18 bits of its word.
pub proof fn lemma_field_of_packed(words: Seq<u32>, tail: Seq<u8>, i: int)
    requires
        words.len() == 4,
        0 <= i < 4,
    ensures
        field_word(packed_block(words, tail), i) == words[i] & 0x3FFFF,
{
    let packed = packed_block(words, tail);
    let word = words[i];
    let bytes = field_bytes(packed, i);
    let low = le_bytes_u32(word & 0x3FFFF);
    assert forall|p: int| 0 <= p < 8 * bytes.len() implies bit_at(bytes, p) == bit_at(low, p) by {
        lemma_field_bits(packed, i, p);
        lemma_low_bits(word, p);
        if p < 16 {
            let q = 18 * i + p;
            assert(q / 18 == i && q % 18 == p);
            lemma_block_bits(words, tail, q);
            assert(block_bit(words, tail, q) == field_bit(word, p));
        } else if 22 <= p < 24 {
            let q = 18 * i + 16 + (p - 22);
            assert(q / 18 == i && q % 18 == p - 6);
            lemma_block_bits(words, tail, q);
            assert(block_bit(words, tail, q) == field_bit(word, p - 6));
        }
    }
    lemma_bits_fix_bytes(bytes, low);
    lemma_word_of_bytes(word & 0x3FFFF);
    assert(low[0] == ((word & 0x3FFFF) & 0xFF) as u8);
    assert(low[1] == (((word & 0x3FFFF) >> 8) & 0xFF) as u8);
    assert(low[2] == (((word & 0x3FFFF) >> 16) & 0xFF) as u8);
    assert(low[3] == (((word & 0x3FFFF) >> 24) & 0xFF) as u8);
}

/// The last two bytes of a packed block are its trailer.
pub proof fn lemma_tail_of_packed(words: Seq<u32>, tail: Seq<u8>)
    requires
        tail.len() == 2,
    ensures
        packed_block(words, tail).len() == 11,
        packed_block(words, tail)[9] == tail[0],
        packed_block(words, tail)[10] == tail[1],
{
    let packed = packed_block(words, tail);
    assert forall|p: int| 0 <= p < 16 implies bit_at(packed.subrange(9, 11), p) == bit_at(
        tail,
        p,
    ) by {
        lemma_packed_bits(11, |q: int| block_bit(words, tail, q), 72 + p);
        assert((72 + p) / 8 == 9 + p / 8 && (72 + p) % 8 == p % 8);
    }
    lemma_bits_fix_bytes(packed.subrange(9, 11), tail);
    assert(packed.subrange(9, 11)[0] == packed[9]);
    assert(packed.subrange(9, 11)[1] == packed[10]);
}

/// Under matched tables the second pass is undone word by word.
proof fn lemma_unchained(enc: Seq<u32>, dec: Seq<u32>, piece: Seq<u8>, i: int)
    requires
        matched_tables(enc, dec),
        0 <= i < 4,
    ensures
        unchained(dec, encrypted_block(enc, piece), i) == scrambled(enc, padded(piece), i),
    decreases 3 - i,
{
    let input = padded(piece);
    let words = cipher_words(enc, input);
    let cipher = encrypted_block(enc, piece);
    assert(cipher == packed_block(words, trailer(piece)));
    lemma_field_of_packed(words, trailer(piece), i);
    lemma_scrambled_bound(enc, dec, input, i);
    let own = scrambled(enc, input, i);
    let key = enc[12 + i];
    assert(key == dec[12 + i] && key < 0x1_0000);
    if i < 3 {
        lemma_unchained(enc, dec, piece, i + 1);
        let next = scrambled(enc, input, i + 1);
        assert(unchained(dec, cipher, i + 1) == next);
        lemma_links(own, key, next);
        let link = own ^ (key ^ (next & 0xFFFF));
        assert(words[i] == link);
        lemma_links(link, key, next);
        assert(field_word(cipher, i) == link);
        assert(unchained(dec, cipher, i) == field_word(cipher, i) ^ (dec[12 + i] ^ (unchained(
            dec,
            cipher,
            i + 1,
        ) & 0xFFFF)));
    } else {
        lemma_links(own, 0, 0);
        assert(words[3] == own);
        assert(unchained(dec, cipher, 3) == field_word(cipher, 3));
    }
}

/// Under matched tables the backward transform gives back each 16-bit
/// value of the padded plain text.
proof fn lemma_plain_half(enc: Seq<u32>, dec: Seq<u32>, piece: Seq<u8>, i: int)
    requires
        matched_tables(enc, dec),
        0 <= i < 4,
    ensures
        plain_half(dec, encrypted_block(enc, piece), i) == le_u16(
            padded(piece)[2 * i],
            padded(piece)[2 * i + 1],
        ),
{
    let input = padded(piece);
    let cipher = encrypted_block(enc, piece);
    let half = half_word(input, i);
    lemma_unchained(enc, dec, piece, i);
    lemma_half_of_bytes(input[2 * i], input[2 * i + 1]);
    if i == 0 {
        lemma_scramble_undone(enc, dec, 0, half, 0);
        assert(scrambled(enc, input, 0) == scramble(enc, 0, half, 0));
    } else {
        lemma_unchained(enc, dec, piece, i - 1);
        let carry = scrambled(enc, input, i - 1) & 0xFFFF;
        lemma_links(0, 0, scrambled(enc, input, i - 1));
        lemma_scramble_undone(enc, dec, i, half, carry);
        assert(scrambled(enc, input, i) == scramble(enc, i, half, carry));
    }
}

/// Under matched tables a block of cipher text gives back the plain text
/// it was made from, padded to eight bytes, passes its check and states
/// the length of the plain text.
pub proof fn lemma_block_round_trip(enc: Seq<u32>, dec: Seq<u32>, piece: Seq<u8>)
    requires
        matched_tables(enc, dec),
        piece.len() <= 8,
    ensures
        encrypted_block(enc, piece).len() == 11,
        decrypted_block(dec, encrypted_block(enc, piece)) == padded(piece),
        block_intact(dec, encrypted_block(enc, piece)),
        block_length(encrypted_block(enc, piece)) == piece.len(),
{
    let input = padded(piece);
    let cipher = encrypted_block(enc, piece);
    let plain = decrypted_block(dec, cipher);
    assert forall|t: int| 0 <= t < 8 implies plain[t] == input[t] by {
        let i = t / 2;
        lemma_plain_half(enc, dec, piece, i);
        lemma_half_of_bytes(input[2 * i], input[2 * i + 1]);
        let bytes = le_bytes_u16(le_u16(input[2 * i], input[2 * i + 1]));
        assert(bytes[0] == input[2 * i] && bytes[1] == input[2 * i + 1]);
    }
    assert(plain =~= input);
    let tail = trailer(piece);
    lemma_tail_of_packed(cipher_words(enc, input), tail);
    lemma_trailer_bytes(checksum(input), piece.len() as u8);
}

/// What the first `count` blocks of a cipher text state adds up to the
/// length of the plain text that they cover.
proof fn lemma_stated_length(enc: Seq<u32>, dec: Seq<u32>, data: Seq<u8>, count: int)
    requires
        matched_tables(enc, dec),
        0 <= count <= block_count(data.len() as int, 8),
    ensures
        stated_length(encrypted(enc, data), count) == if 8 * count <= data.len() {
            8 * count
        } else {
            data.len() as int
        },
    decreases count,
{
    if count > 0 {
        lemma_stated_length(enc, dec, data, count - 1);
        lemma_block_of_encrypted(enc, data, count - 1);
        lemma_block_round_trip(enc, dec, chunk(data, count - 1));
    }
}

/// The `k`-th block of a cipher text is the cipher text of the `k`-th
/// chunk of the plain text.
proof fn lemma_block_of_encrypted(enc: Seq<u32>, data: Seq<u8>, k: int)
    requires
        0 <= k < block_count(data.len() as int, 8),
    ensures
        block(encrypted(enc, data), k) == encrypted_block(enc, chunk(data, k)),
        chunk(data, k).len() <= 8,
        chunk(data, k).len() == if 8 * k + 8 <= data.len() {
            8int
        } else {
            data.len() - 8 * k
        },
{
    let cipher = encrypted(enc, data);
    let piece = block(cipher, k);
    let made = encrypted_block(enc, chunk(data, k));
    assert forall|t: int| 0 <= t < 11 implies piece[t] == made[t] by {
        assert((11 * k + t) / 11 == k && (11 * k + t) % 11 == t);
    }
    assert(piece =~= made);
}

/// **Round trip of the block cipher.** Under matched tables, decrypting
/// what was encrypted gives back the plain text: the cipher text is a
/// whole number of blocks, each block passes its check, and the plain
/// text that comes out is the one that went in.
pub proof fn lemma_round_trip(enc: Seq<u32>, dec: Seq<u32>, data: Seq<u8>)
    requires
        matched_tables(enc, dec),
    ensures
        encrypted(enc, data).len() == 11 * block_count(data.len() as int, 8),
        blocks_intact(dec, encrypted(enc, data), block_count(data.len() as int, 8)),
        decrypted(dec, encrypted(enc, data)) == data,
{
    let count = block_count(data.len() as int, 8);
    let cipher = encrypted(enc, data);
    assert(cipher.len() as int / 11 == count);
    assert forall|k: int| 0 <= k < count implies block_intact(dec, #[trigger] block(cipher, k)) by {
        lemma_block_of_encrypted(enc, data, k);
        lemma_block_round_trip(enc, dec, chunk(data, k));
    }
    lemma_stated_length(enc, dec, data, count);
    let whole = decrypted_prefix(dec, cipher, count);
    let plain = decrypted(dec, cipher);
    assert(plain.len() == data.len());
    assert forall|t: int| 0 <= t < data.len() implies plain[t] == data[t] by {
        let k = t / 8;
        lemma_block_of_encrypted(enc, data, k);
        lemma_block_round_trip(enc, dec, chunk(data, k));
        assert(padded(chunk(data, k))[t % 8] == data[t]);
    }
    assert(plain =~= data);
}

/// Matched tables are usable: none of their moduli is zero.
pub proof fn lemma_matched_usable(enc: Seq<u32>, dec: Seq<u32>)
    requires
        matched_tables(enc, dec),
    ensures
        usable_table(enc),
        usable_table(dec),
{
}

/// The plain text of a block is made of its first nine bytes alone.
proof fn lemma_plain_from_fields(keys: Seq<u32>, first: Seq<u8>, second: Seq<u8>)
    requires
        first.len() == 11,
        second.len() == 11,
        first.take(9) == second.take(9),
    ensures
        decrypted_block(keys, first) == decrypted_block(keys, second),
{
    assert forall|i: int| 0 <= i < 4 implies field_word(first, i) == field_word(second, i) by {
        let left = field_bytes(first, i);
        let right = field_bytes(second, i);
        assert forall|p: int| 0 <= p < 8 * left.len() implies bit_at(left, p) == bit_at(
            right,
            p,
        ) by {
            lemma_field_bits(first, i, p);
            lemma_field_bits(second, i, p);
            if p < 16 {
                let q = 18 * i + p;
                assert(first[q / 8] == first.take(9)[q / 8]);
                assert(second[q / 8] == second.take(9)[q / 8]);
            } else if 22 <= p < 24 {
                let q = 18 * i + 16 + (p - 22);
                assert(first[q / 8] == first.take(9)[q / 8]);
                assert(second[q / 8] == second.take(9)[q / 8]);
            }
        }
        lemma_bits_fix_bytes(left, right);
    }
    assert forall|i: int| 0 <= i < 4 implies unchained(keys, first, i) == unchained(
        keys,
        second,
        i,
    ) by {
        lemma_unchained_from_fields(keys, first, second, i);
    }
    assert(decrypted_block(keys, first) =~= decrypted_block(keys, second));
}

/// Blocks with the same four fields have the same words once the second
/// pass is undone.
proof fn lemma_unchained_from_fields(keys: Seq<u32>, first: Seq<u8>, second: Seq<u8>, i: int)
    requires
        0 <= i < 4,
        forall|j: int| 0 <= j < 4 ==> field_word(first, j) == field_word(second, j),
    ensures
        unchained(keys, first, i) == unchained(keys, second, i),
    decreases 3 - i,
{
    if i < 3 {
        lemma_unchained_from_fields(keys, first, second, i + 1);
    }
}

/// **What the check byte guards.** The check byte of a block covers the
/// eight bytes of plain text and nothing else. Of two blocks that agree
/// in their first nine bytes, in which the plain text lies, at most one
/// value of the last byte passes the check; the tenth byte, which states
/// the length, passes or fails with any value.
pub proof fn lemma_check_covers(keys: Seq<u32>, first: Seq<u8>, second: Seq<u8>)
    requires
        first.len() == 11,
        second.len() == 11,
        first.take(9) == second.take(9),
    ensures
        decrypted_block(keys, first) == decrypted_block(keys, second),
        first[10] == second[10] ==> block_intact(keys, first) == block_intact(keys, second),
        first[10] != second[10] ==> !(block_intact(keys, first) && block_intact(keys, second)),
{
    lemma_plain_from_fields(keys, first, second);
}

} // verus!
