//! Mu Online's block cipher: key schedules and the transform of buffers.

use crate::bits::{
    bit_at, hash_buffer, lemma_bits_fix_byte, lemma_bits_fix_bytes, lemma_clear_bits,
    lemma_packed_bits,
};
use crate::block::{
    block, block_bit, block_count, block_intact, block_length, blocks_intact, chained, checksum,
    chunk, cipher_words, decrypted, decrypted_block, decrypted_prefix, encrypted, encrypted_block,
    encrypted_prefix, field_bytes, field_word, padded, plain_half, scrambled, stated_length,
    trailer, unchained, usable_table,
};
use crate::endian::{le_bytes_u32, le_u32, read_u16_le, read_u32_le, write_u16_le, write_u32_le};
use crate::error::PacketError;
use crate::scratch::{bytes_mut, words_mut, zeroed_bytes, zeroed_words};
use vstd::arithmetic::div_mod::{
    lemma_fundamental_div_mod, lemma_fundamental_div_mod_converse, lemma_mod_bound,
};
use vstd::prelude::*;
use vstd::slice::slice_subrange;

verus! {

/// Size of the blob that holds one key table.
pub const ENCRYPTION_SIZE: usize = 54;

/// Chunk size of plain text.
pub const DECRYPT_MOD: usize = 8;

/// Chunk size of cipher text.
pub const ENCRYPT_MOD: usize = 11;

/// The words that mask the columns of a key table inside its blob.
pub const KEY_CIPHER: [u32; 4] = [0x3F08A79B, 0xE25CC287, 0x93D27AB9, 0x20DEA7BF];

/// Number of rows before `row` that a blob holds.
pub open spec fn rows_held(flags: Seq<bool>, row: int) -> int
    decreases row,
{
    if row <= 0 {
        0
    } else {
        rows_held(flags, row - 1) + if flags[row - 1] {
            1int
        } else {
            0int
        }
    }
}

/// The word at position `at` of a blob, low byte first.
pub open spec fn blob_word(blob: Seq<u8>, at: int) -> u32 {
    le_u32(blob[at], blob[at + 1], blob[at + 2], blob[at + 3])
}

/// The key table that a blob holds: behind six bytes that are passed over,
/// the blob has four words for each row whose flag is set, each masked
/// with the word of its column; a row whose flag is clear is all zero.
pub open spec fn key_table(blob: Seq<u8>, xor: Seq<u32>, flags: Seq<bool>) -> Seq<u32> {
    Seq::new(
        16,
        |k: int|
            if flags[k / 4] {
                blob_word(blob, 6 + 16 * rows_held(flags, k / 4) + 4 * (k % 4)) ^ xor[k % 4]
            } else {
                0u32
            },
    )
}

/// The rows that the blob of an encrypting table holds.
pub open spec fn encrypt_rows() -> Seq<bool> {
    seq![true, true, false, true]
}

/// The rows that the blob of a decrypting table holds.
pub open spec fn decrypt_rows() -> Seq<bool> {
    seq![true, false, true, true]
}

/// An implementation of Mu Online's symmetric-key algorithm.
#[derive(Debug, Clone)]
pub struct Crypto {
    encrypt: Vec<u32>,
    decrypt: Vec<u32>,
}

impl Crypto {
    /// The key table used to encrypt.
    pub closed spec fn encrypt_table(&self) -> Seq<u32> {
        self.encrypt@
    }

    /// The key table used to decrypt.
    pub closed spec fn decrypt_table(&self) -> Seq<u32> {
        self.decrypt@
    }

    /// Creates a new encryption scheme.
    pub fn new(
        enc: &[u8; ENCRYPTION_SIZE],
        dec: &[u8; ENCRYPTION_SIZE],
        xor: &[u32; 4],
    ) -> (scheme: Crypto)
        ensures
            scheme.encrypt_table() == key_table(enc@, xor@, encrypt_rows()),
            scheme.decrypt_table() == key_table(dec@, xor@, decrypt_rows()),
    {
        proof {
            lemma_rows_held(encrypt_rows());
            lemma_rows_held(decrypt_rows());
        }
        let encrypt = Crypto::load_keys(enc.as_slice(), xor.as_slice(), [true, true, false, true]);
        let decrypt = Crypto::load_keys(dec.as_slice(), xor.as_slice(), [true, false, true, true]);
        assert([true, true, false, true]@ =~= encrypt_rows());
        assert([true, false, true, true]@ =~= decrypt_rows());
        Crypto { encrypt, decrypt }
    }

    /// Tells whether the scheme can encrypt: all four moduli differ from zero.
    pub fn can_encrypt(&self) -> (usable: bool)
        ensures
            usable == usable_table(self.encrypt_table()),
    {
        self.encrypt.len() == 16 && self.encrypt[0] != 0 && self.encrypt[1] != 0
            && self.encrypt[2] != 0 && self.encrypt[3] != 0
    }

    /// Tells whether the scheme can decrypt: all four moduli differ from zero.
    pub fn can_decrypt(&self) -> (usable: bool)
        ensures
            usable == usable_table(self.decrypt_table()),
    {
        self.decrypt.len() == 16 && self.decrypt[0] != 0 && self.decrypt[1] != 0
            && self.decrypt[2] != 0 && self.decrypt[3] != 0
    }

    /// Decrypts an encrypted byte buffer.
    ///
    /// The buffer has to hold whole blocks of eleven bytes. One block that
    /// does not carry the check byte of its content fails the whole call.
    pub fn decrypt(&self, data: &[u8]) -> (result: Result<Vec<u8>, PacketError>)
        requires
            usable_table(self.decrypt_table()),
            data@.len() % 11 == 0,
            255 * (data@.len() / 11) <= usize::MAX,
        ensures
            blocks_intact(self.decrypt_table(), data@, data@.len() as int / 11) ==> (
            result matches Ok(plain) && plain@ == decrypted(self.decrypt_table(), data@)),
            !blocks_intact(self.decrypt_table(), data@, data@.len() as int / 11) ==> result
                == Err::<Vec<u8>, PacketError>(PacketError::BlockChecksumFail),
    {
        let ghost keys = self.decrypt@;
        let blocks: usize = data.len() / ENCRYPT_MOD;
        let mut output: Vec<u8> = Vec::new();
        let mut size: usize = 0;
        let mut k: usize = 0;
        while k < blocks
            invariant
                k <= blocks,
                blocks == data@.len() / 11,
                data@.len() % 11 == 0,
                255 * blocks <= usize::MAX,
                self.decrypt@ == keys,
                usable_table(keys),
                blocks_intact(keys, data@, k as int),
                output@ == decrypted_prefix(keys, data@, k as int),
                size == stated_length(data@, k as int),
                size <= 255 * k,
            decreases blocks - k,
        {
            let mut plain: Vec<u8> = vec![0u8; DECRYPT_MOD];
            let input = slice_subrange(data, ENCRYPT_MOD * k, ENCRYPT_MOD * k + ENCRYPT_MOD);
            assert(input@ == block(data@, k as int));
            match self.convert_11to8_bytes(plain.as_mut_slice(), input) {
                Ok(length) => {
                    size = size + length;
                },
                Err(error) => {
                    assert(!block_intact(keys, block(data@, k as int)));
                    return Err(error);
                },
            }
            assert(block_intact(keys, block(data@, k as int)));
            assert(plain@ == decrypted_block(keys, block(data@, k as int)));
            let ghost before = output@;
            let mut index: usize = 0;
            while index < DECRYPT_MOD
                invariant
                    index <= 8,
                    plain@.len() == 8,
                    output@ == before + plain@.take(index as int),
                decreases 8 - index,
            {
                output.push(plain[index]);
                index = index + 1;
            }
            proof {
                assert(plain@.take(8) =~= plain@);
                lemma_decrypted_prefix_grows(keys, data@, k as int);
            }
            k = k + 1;
        }
        output.truncate(size);
        assert(output@ =~= decrypted(keys, data@));
        Ok(output)
    }

    /// Encrypts a raw byte buffer.
    ///
    /// Every eight bytes, and what is left of fewer at the end, become a
    /// block of eleven.
    pub fn encrypt(&self, data: &[u8]) -> (output: Vec<u8>)
        requires
            usable_table(self.encrypt_table()),
        ensures
            output@ == encrypted(self.encrypt_table(), data@),
            output@.len() == 11 * block_count(data@.len() as int, 8),
    {
        let ghost keys = self.encrypt@;
        let total: usize = data.len();
        let blocks: usize = Crypto::align(total, DECRYPT_MOD);
        let mut output: Vec<u8> = Vec::new();
        let mut k: usize = 0;
        while k < blocks
            invariant
                k <= blocks,
                total == data@.len(),
                blocks == block_count(total as int, 8),
                self.encrypt@ == keys,
                usable_table(keys),
                output@ == encrypted_prefix(keys, data@, k as int),
            decreases blocks - k,
        {
            let start: usize = DECRYPT_MOD * k;
            let end: usize = if total - start >= DECRYPT_MOD {
                start + DECRYPT_MOD
            } else {
                total
            };
            let input = slice_subrange(data, start, end);
            assert(input@ == chunk(data@, k as int));
            let mut cipher: Vec<u8> = vec![0u8; ENCRYPT_MOD];
            assert(cipher@ =~= Seq::new(11, |i: int| 0u8));
            self.convert_8to11_bytes(cipher.as_mut_slice(), input);
            let ghost before = output@;
            let mut index: usize = 0;
            while index < ENCRYPT_MOD
                invariant
                    index <= 11,
                    cipher@.len() == 11,
                    output@ == before + cipher@.take(index as int),
                decreases 11 - index,
            {
                output.push(cipher[index]);
                index = index + 1;
            }
            proof {
                assert(cipher@.take(11) =~= cipher@);
                lemma_encrypted_prefix_grows(keys, data@, k as int);
            }
            k = k + 1;
        }
        output
    }

    /// Converts 11 bytes to 8, using the associated keys.
    ///
    /// The eight bytes of plain text are written whether or not the block
    /// passes its check. It passes where its last byte is the check byte
    /// of those eight bytes; the length that its tenth byte states is then
    /// handed out.
    pub fn convert_11to8_bytes(&self, out: &mut [u8], slice: &[u8]) -> (result: Result<
        usize,
        PacketError,
    >)
        requires
            usable_table(self.decrypt_table()),
            old(out)@.len() == 8,
            slice@.len() == 11,
        ensures
            final(out)@ == decrypted_block(self.decrypt_table(), slice@),
            block_intact(self.decrypt_table(), slice@) ==> result == Ok::<usize, PacketError>(
                block_length(slice@) as usize,
            ),
            !block_intact(self.decrypt_table(), slice@) ==> result == Err::<usize, PacketError>(
                PacketError::BlockChecksumFail,
            ),
    {
        let ghost keys = self.decrypt@;
        let mut offset: usize = 0;
        let mut dec = zeroed_words(4);
        let words = words_mut(&mut dec);
        let mut index: usize = 0;
        while index < 4
            invariant
                index <= 4,
                offset == 18 * index,
                words@.len() == 4,
                slice@.len() == 11,
                forall|j: int| 0 <= j < index ==> words@[j] == field_word(slice@, j),
            decreases 4 - index,
        {
            let mut data_buffer = zeroed_bytes(4);
            let data = bytes_mut(&mut data_buffer);
            let ghost empty = data@;
            assert(offset / 8 == 2 * index && offset % 8 == 2 * index);
            hash_buffer(data, 0, slice, offset, 16);
            offset = offset + 16;
            let ghost between = data@;
            assert(offset / 8 == 2 * index + 2 && offset % 8 == 2 * index);
            hash_buffer(data, 22, slice, offset, 2);
            offset = offset + 2;
            proof {
                lemma_field_gathered(slice@, index as int, empty, between, data@);
            }
            words[index] = read_u32_le(data);
            index = index + 1;
        }

        index = 3;
        while index > 0
            invariant
                index <= 3,
                words@.len() == 4,
                self.decrypt@ == keys,
                usable_table(keys),
                forall|j: int| 0 <= j < index ==> words@[j] == field_word(slice@, j),
                forall|j: int| index <= j < 4 ==> words@[j] == unchained(keys, slice@, j),
            decreases index,
        {
            index = index - 1;
            words[index] = words[index] ^ (self.decrypt[12 + index] ^ (words[index + 1] & 0xFFFF));
        }

        let mut crypt: u32 = 0;
        index = 0;
        while index < 4
            invariant
                index <= 4,
                words@.len() == 4,
                out@.len() == 8,
                self.decrypt@ == keys,
                usable_table(keys),
                forall|j: int| 0 <= j < 4 ==> words@[j] == unchained(keys, slice@, j),
                crypt == if index == 0 {
                    0u32
                } else {
                    unchained(keys, slice@, index - 1) & 0xFFFF
                },
                forall|t: int| 0 <= t < 2 * index ==> out@[t] == decrypted_block(keys, slice@)[t],
            decreases 4 - index,
        {
            let mut plain: u32 = self.decrypt[8 + index].wrapping_mul(words[index]);
            plain = plain % self.decrypt[index];
            plain = plain ^ (self.decrypt[index + 12] ^ crypt);
            crypt = words[index] & 0xFFFF;
            let low: u32 = plain & 0xFFFF;
            proof {
                lemma_low_half(plain);
            }
            let half: u16 = low as u16;
            assert(half == plain_half(keys, slice@, index as int));
            let ghost before = out@;
            let (_, rest) = out.split_at_mut(2 * index);
            write_u16_le(rest, half);
            assert forall|t: int| 0 <= t < 2 * (index + 1) implies out@[t] == decrypted_block(
                keys,
                slice@,
            )[t] by {
                if t >= 2 * index {
                    assert(t / 2 == index && t % 2 == t - 2 * index);
                } else {
                    assert(out@[t] == before[t]);
                }
            }
            index = index + 1;
        }
        assert(out@ =~= decrypted_block(keys, slice@));

        // The first byte holds the length of the plain text, the second the check byte
        let mut finale_buffer = zeroed_bytes(4);
        let finale = bytes_mut(&mut finale_buffer);
        proof {
            lemma_clear_bits(finale@);
        }
        hash_buffer(finale, 0, slice, offset, 16);
        proof {
            lemma_bits_fix_byte(finale@, 0, slice@, 9);
            lemma_bits_fix_byte(finale@, 1, slice@, 10);
        }
        finale[0] = finale[0] ^ finale[1] ^ 0x3D;

        let mut xor: u8 = 0xF8;
        index = 0;
        while index < 8
            invariant
                index <= 8,
                out@.len() == 8,
                xor == checksum(out@.take(index as int)),
            decreases 8 - index,
        {
            assert(out@.take(index as int + 1).drop_last() =~= out@.take(index as int));
            xor = xor ^ out[index];
            index = index + 1;
        }
        assert(out@.take(8) =~= out@);
        if finale[1] == xor {
            Ok(finale[0] as usize)
        } else {
            Err(PacketError::BlockChecksumFail)
        }
    }

    /// Converts 8 bytes to 11, using the associated keys.
    ///
    /// The block is merged into `out` bit by bit, so `out` has to come
    /// as eleven zero bytes.
    pub fn convert_8to11_bytes(&self, out: &mut [u8], slice: &[u8])
        requires
            usable_table(self.encrypt_table()),
            old(out)@ == Seq::new(11, |i: int| 0u8),
            slice@.len() <= 8,
        ensures
            final(out)@ == encrypted_block(self.encrypt_table(), slice@),
    {
        // Pad the input with zeroes if not 8-bit aligned
        let input = Crypto::slice_with_padding(slice);
        let ghost keys = self.encrypt@;
        let ghost tail = trailer(slice@);
        let ghost text = cipher_words(keys, input@);

        let mut enc = zeroed_words(4);
        let words = words_mut(&mut enc);
        let mut crypt: u32 = 0;
        let mut index: usize = 0;
        while index < 4
            invariant
                index <= 4,
                words@.len() == 4,
                input@.len() == 8,
                self.encrypt@ == keys,
                usable_table(keys),
                forall|j: int| 0 <= j < index ==> words@[j] == scrambled(keys, input@, j),
                crypt == if index == 0 {
                    0u32
                } else {
                    scrambled(keys, input@, index - 1) & 0xFFFF
                },
            decreases 4 - index,
        {
            let half: u16 = read_u16_le(slice_subrange(input.as_slice(), 2 * index, 8));
            let mut data: u32 = half as u32;
            data = data ^ (self.encrypt[12 + index] ^ crypt);
            data = data.wrapping_mul(self.encrypt[4 + index]);
            data = data % self.encrypt[index];
            assert(data == scrambled(keys, input@, index as int));
            crypt = data & 0xFFFF;
            words[index] = data;
            index = index + 1;
        }

        index = 0;
        while index < 3
            invariant
                index <= 3,
                words@.len() == 4,
                self.encrypt@ == keys,
                usable_table(keys),
                forall|j: int| 0 <= j < index ==> words@[j] == chained(keys, input@, j),
                forall|j: int| index <= j < 4 ==> words@[j] == scrambled(keys, input@, j),
            decreases 3 - index,
        {
            words[index] = words[index] ^ (self.encrypt[12 + index] ^ (words[index + 1] & 0xFFFF));
            index = index + 1;
        }
        assert(words@ =~= text);

        let mut pos: usize = 0;
        index = 0;
        proof {
            lemma_clear_bits(out@);
        }
        while index < 4
            invariant
                index <= 4,
                pos == 18 * index,
                words@ == text,
                text.len() == 4,
                out@.len() == 11,
                forall|p: int|
                    0 <= p < 88 ==> #[trigger] bit_at(out@, p) == (p < pos && block_bit(
                        text,
                        tail,
                        p,
                    )),
            decreases 4 - index,
        {
            let mut value_as_bytes = zeroed_bytes(4);
            let bytes = bytes_mut(&mut value_as_bytes);
            write_u32_le(bytes, words[index]);
            assert(bytes@ =~= le_bytes_u32(text[index as int]));
            let ghost before = out@;
            let ghost start = pos as int;
            pos = hash_buffer(out, pos, bytes, 0, 16);
            let ghost between = out@;
            pos = hash_buffer(out, pos, bytes, 22, 2);
            assert forall|p: int| 0 <= p < 88 implies #[trigger] bit_at(out@, p) == (p < pos
                && block_bit(text, tail, p)) by {
                assert(bit_at(between, p) == (bit_at(before, p) || (start <= p < start + 16
                    && bit_at(bytes@, p - start))));
                if start <= p < start + 18 {
                    assert(p / 18 == index && p % 18 == p - start);
                }
            }
            index = index + 1;
        }

        let mut xor: u8 = 0xF8;
        index = 0;
        while index < 8
            invariant
                index <= 8,
                input@.len() == 8,
                xor == checksum(input@.take(index as int)),
            decreases 8 - index,
        {
            assert(input@.take(index as int + 1).drop_last() =~= input@.take(index as int));
            xor = xor ^ input[index];
            index = index + 1;
        }
        assert(input@.take(8) =~= input@);

        let mut finale_buffer = zeroed_bytes(4);
        let finale = bytes_mut(&mut finale_buffer);
        finale[0] = (xor ^ (slice.len() as u8)) ^ 0x3D;
        finale[1] = xor;
        let ghost before = out@;
        hash_buffer(out, pos, finale, 0x00, 0x10);

        proof {
            let whole = encrypted_block(keys, slice@);
            assert forall|p: int| 0 <= p < 8 * out@.len() implies bit_at(out@, p) == bit_at(
                whole,
                p,
            ) by {
                lemma_packed_bits(11, |p: int| block_bit(text, tail, p), p);
                assert(bit_at(out@, p) == (bit_at(before, p) || (72 <= p < 88 && bit_at(
                    finale@,
                    p - 72,
                ))));
            }
            lemma_bits_fix_bytes(out@, whole);
        }
    }

    /// Creates a slice with 8 elements, padding with zeroes.
    fn slice_with_padding(slice: &[u8]) -> (input: [u8; 8])
        requires
            slice@.len() <= 8,
        ensures
            input@ == padded(slice@),
    {
        let mut input: [u8; 8] = [0; 8];
        let mut index: usize = 0;
        while index < slice.len()
            invariant
                index <= slice@.len() <= 8,
                forall|i: int| 0 <= i < index ==> input@[i] == slice@[i],
                forall|i: int| index <= i < 8 ==> input@[i] == 0,
            decreases slice@.len() - index,
        {
            input[index] = slice[index];
            index = index + 1;
        }
        assert(input@ =~= padded(slice@));
        input
    }

    /// Rounds a value up to a specific alignment.
    fn align(value: usize, alignment: usize) -> (count: usize)
        requires
            0 < alignment,
        ensures
            count == block_count(value as int, alignment as int),
    {
        let whole: usize = value / alignment;
        let rest: usize = value % alignment;
        proof {
            lemma_block_count(value as int, alignment as int);
        }
        if rest == 0 {
            whole
        } else {
            whole + 1
        }
    }

    /// Decrypts and loads encryption keys from a byte buffer.
    fn load_keys(keys: &[u8], xor: &[u32], flags: [bool; 4]) -> (result: Vec<u32>)
        requires
            6 + 16 * rows_held(flags@, 4) <= keys@.len(),
            4 <= xor@.len(),
        ensures
            result@ == key_table(keys@, xor@, flags@),
    {
        let mut result: Vec<u32> = Vec::new();
        let mut position: usize = 6;
        let total: usize = keys.len();
        let mut row: usize = 0;
        proof {
            lemma_rows_held_grows(flags@, 0, 4);
        }
        while row < 4
            invariant
                row <= 4,
                total == keys@.len(),
                4 <= xor@.len(),
                6 + 16 * rows_held(flags@, 4) <= keys@.len(),
                position == 6 + 16 * rows_held(flags@, row as int),
                rows_held(flags@, row as int) <= rows_held(flags@, 4),
                result@.len() == 4 * row,
                forall|k: int| 0 <= k < 4 * row ==> result@[k] == key_table(keys@, xor@, flags@)[k],
            decreases 4 - row,
        {
            proof {
                lemma_rows_held_grows(flags@, row as int + 1, 4);
            }
            let mut i: usize = 0;
            while i < 4
                invariant
                    row < 4,
                    i <= 4,
                    total == keys@.len(),
                    4 <= xor@.len(),
                    rows_held(flags@, row as int + 1) <= rows_held(flags@, 4),
                    6 + 16 * rows_held(flags@, 4) <= keys@.len(),
                    position == 6 + 16 * rows_held(flags@, row as int) + if flags@[row as int] {
                        4 * i
                    } else {
                        0
                    },
                    result@.len() == 4 * row + i,
                    forall|k: int|
                        0 <= k < 4 * row + i ==> result@[k] == key_table(keys@, xor@, flags@)[k],
                decreases 4 - i,
            {
                if flags[row] {
                    let word: u32 = read_u32_le(slice_subrange(keys, position, total));
                    result.push(word ^ xor[i]);
                    position = position + 4;
                } else {
                    result.push(0);
                }
                i = i + 1;
            }
            row = row + 1;
        }
        assert(result@ =~= key_table(keys@, xor@, flags@));
        result
    }
}

/// The plain text of one more block is that of the blocks before it and
/// the eight bytes of the block.
proof fn lemma_decrypted_prefix_grows(keys: Seq<u32>, data: Seq<u8>, k: int)
    requires
        0 <= k,
    ensures
        decrypted_prefix(keys, data, k + 1) == decrypted_prefix(keys, data, k) + decrypted_block(
            keys,
            block(data, k),
        ),
{
    let whole = decrypted_prefix(keys, data, k + 1);
    let parts = decrypted_prefix(keys, data, k) + decrypted_block(keys, block(data, k));
    assert forall|t: int| 0 <= t < whole.len() implies whole[t] == parts[t] by {
        if t >= 8 * k {
            assert(t / 8 == k && t % 8 == t - 8 * k);
        }
    }
    assert(whole =~= parts);
}

/// The cipher text of one more chunk is that of the chunks before it and
/// the eleven bytes of the chunk.
proof fn lemma_encrypted_prefix_grows(keys: Seq<u32>, data: Seq<u8>, k: int)
    requires
        0 <= k,
    ensures
        encrypted_prefix(keys, data, k + 1) == encrypted_prefix(keys, data, k) + encrypted_block(
            keys,
            chunk(data, k),
        ),
{
    let whole = encrypted_prefix(keys, data, k + 1);
    let parts = encrypted_prefix(keys, data, k) + encrypted_block(keys, chunk(data, k));
    assert forall|t: int| 0 <= t < whole.len() implies whole[t] == parts[t] by {
        if t >= 11 * k {
            assert(t / 11 == k && t % 11 == t - 11 * k);
        }
    }
    assert(whole =~= parts);
}

/// Rounding up adds one block where the last one is not full.
proof fn lemma_block_count(value: int, width: int)
    requires
        0 <= value,
        0 < width,
    ensures
        block_count(value, width) == value / width + if value % width == 0 {
            0int
        } else {
            1int
        },
        value % width != 0 ==> value / width < value,
        width * block_count(value, width) < value + width,
{
    let q = value / width;
    let r = value % width;
    lemma_fundamental_div_mod(value, width);
    lemma_mod_bound(value, width);
    assert(width * (q + 1) == width * q + width) by (nonlinear_arith);
    assert(0 <= q) by (nonlinear_arith)
        requires
            0 <= value,
            0 < width,
            q == value / width,
    ;
    assert(q <= width * q) by (nonlinear_arith)
        requires
            0 <= q,
            0 < width,
    ;
    if r == 0 {
        lemma_fundamental_div_mod_converse(value + width - 1, width, q, width - 1);
    } else {
        lemma_fundamental_div_mod_converse(value + width - 1, width, q + 1, r - 1);
    }
}

/// Two runs of bits copied into four clear bytes make the bytes of a field.
proof fn lemma_field_gathered(
    slice: Seq<u8>,
    index: int,
    empty: Seq<u8>,
    between: Seq<u8>,
    data: Seq<u8>,
)
    requires
        0 <= index < 4,
        slice.len() == 11,
        empty == Seq::new(4, |i: int| 0u8),
        between.len() == 4,
        data.len() == 4,
        forall|p: int|
            0 <= p < 32 ==> #[trigger] bit_at(between, p) == (bit_at(empty, p) || (0 <= p < 0 + 16
                && bit_at(slice, 18 * index + (p - 0)))),
        forall|p: int|
            0 <= p < 32 ==> #[trigger] bit_at(data, p) == (bit_at(between, p) || (22 <= p < 22 + 2
                && bit_at(slice, 18 * index + 16 + (p - 22)))),
    ensures
        data == field_bytes(slice, index),
{
    let field = field_bytes(slice, index);
    lemma_clear_bits(empty);
    assert forall|p: int| 0 <= p < 8 * data.len() implies bit_at(data, p) == bit_at(field, p) by {
        lemma_packed_bits(
            4,
            |p: int|
                (p < 16 && bit_at(slice, 18 * index + p)) || (22 <= p < 24 && bit_at(
                    slice,
                    18 * index + 16 + (p - 22),
                )),
            p,
        );
        assert(bit_at(between, p) == (bit_at(empty, p) || (0 <= p < 0 + 16 && bit_at(
            slice,
            18 * index + (p - 0),
        ))));
        assert(!bit_at(empty, p));
    }
    lemma_bits_fix_bytes(data, field);
}

/// The low half of a word fits in 16 bits.
proof fn lemma_low_half(word: u32)
    by (bit_vector)
    ensures
        word & 0xFFFF <= 0xFFFF,
{
}

/// A blob with three rows set holds 54 bytes.
proof fn lemma_rows_held(flags: Seq<bool>)
    requires
        flags == encrypt_rows() || flags == decrypt_rows(),
    ensures
        rows_held(flags, 4) == 3,
{
    reveal_with_fuel(rows_held, 5);
}

/// Later rows lie behind earlier ones.
proof fn lemma_rows_held_grows(flags: Seq<bool>, low: int, high: int)
    requires
        low <= high,
    ensures
        rows_held(flags, low) <= rows_held(flags, high),
    decreases high - low,
{
    if low < high {
        lemma_rows_held_grows(flags, low, high - 1);
    }
}

} // verus!
