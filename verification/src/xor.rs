//! The stream XOR layer: every payload byte is masked with a byte of a
//! shared table and with the masked byte before it.

use crate::kind::PacketKind;
use vstd::prelude::*;

verus! {

/// Packets with this code never use an XOR cipher.
pub const XOR_SKIP_CODE: u8 = 0xF4;

/// The table byte that masks payload byte `i` of a frame whose payload
/// starts at `offset`: the table is walked round and round.
pub open spec fn xor_key(cipher: Seq<u8>, offset: int, i: int) -> u8 {
    cipher[(offset + i) % (cipher.len() as int)]
}

/// Byte `i` of a masked payload: the plain byte, the table byte and the
/// masked byte before it (the opcode before the first), xor-ed.
pub open spec fn xor_encrypted_byte(
    cipher: Seq<u8>,
    offset: int,
    code: u8,
    data: Seq<u8>,
    i: int,
) -> u8
    decreases i,
{
    if i <= 0 {
        data[0] ^ (xor_key(cipher, offset, 0) ^ code)
    } else {
        data[i] ^ (xor_key(cipher, offset, i) ^ xor_encrypted_byte(cipher, offset, code, data, i - 1))
    }
}

/// A payload with the mask put on.
pub open spec fn xor_encrypted(cipher: Seq<u8>, offset: int, code: u8, data: Seq<u8>) -> Seq<u8> {
    Seq::new(data.len(), |i: int| xor_encrypted_byte(cipher, offset, code, data, i))
}

/// A payload with the mask taken off: each byte is xor-ed with the table
/// byte and with the byte that stood before it on the wire.
pub open spec fn xor_decrypted(cipher: Seq<u8>, offset: int, code: u8, data: Seq<u8>) -> Seq<u8> {
    Seq::new(
        data.len(),
        |i: int|
            data[i] ^ (xor_key(cipher, offset, i) ^ if i == 0 {
                code
            } else {
                data[i - 1]
            }),
    )
}

/// The place in a table of `width` bytes of the byte that masks payload
/// byte `index` behind a header of `offset` bytes. The sum is taken in
/// 128 bits, so that no payload is too long for it.
fn table_index(offset: usize, index: usize, width: usize) -> (place: usize)
    requires
        width > 0,
    ensures
        place == (offset + index) % (width as int),
{
    ((offset as u128 + index as u128) % (width as u128)) as usize
}

/// Toggles the encryption of a payload in place: with `reverse` the bytes
/// are visited from the last to the first, which takes the mask off;
/// without it from the first to the last, which puts it on.
pub fn xorcrypt(cipher: &[u8], kind: PacketKind, code: u8, data: &mut [u8], reverse: bool)
    requires
        old(data)@.len() > 0 ==> cipher@.len() > 0,
    ensures
        final(data)@ == if reverse {
            xor_decrypted(cipher@, kind.spec_offset() as int, code, old(data)@)
        } else {
            xor_encrypted(cipher@, kind.spec_offset() as int, code, old(data)@)
        },
{
    let offset: usize = kind.offset();
    let count: usize = data.len();
    let width: usize = cipher.len();
    if reverse {
        let mut index: usize = count;
        while index > 0
            invariant
                index <= count == data@.len() == old(data)@.len(),
                width == cipher@.len(),
                count > 0 ==> width > 0,
                offset == kind.spec_offset(),
                forall|i: int| 0 <= i < index ==> data@[i] == old(data)@[i],
                forall|i: int|
                    index <= i < count ==> data@[i] == xor_decrypted(
                        cipher@,
                        offset as int,
                        code,
                        old(data)@,
                    )[i],
            decreases index,
        {
            index = index - 1;
            let other: u8 = if index == 0 {
                code
            } else {
                data[index - 1]
            };
            let xori: usize = table_index(offset, index, width);
            data[index] = data[index] ^ (cipher[xori] ^ other);
        }
        assert(data@ =~= xor_decrypted(cipher@, offset as int, code, old(data)@));
    } else {
        let mut index: usize = 0;
        while index < count
            invariant
                index <= count == data@.len() == old(data)@.len(),
                width == cipher@.len(),
                count > 0 ==> width > 0,
                offset == kind.spec_offset(),
                forall|i: int| index <= i < count ==> data@[i] == old(data)@[i],
                forall|i: int|
                    0 <= i < index ==> data@[i] == xor_encrypted_byte(
                        cipher@,
                        offset as int,
                        code,
                        old(data)@,
                        i,
                    ),
            decreases count - index,
        {
            let other: u8 = if index == 0 {
                code
            } else {
                data[index - 1]
            };
            let xori: usize = table_index(offset, index, width);
            data[index] = data[index] ^ (cipher[xori] ^ other);
            index = index + 1;
        }
        assert(data@ =~= xor_encrypted(cipher@, offset as int, code, old(data)@));
    }
}

/// Xor-ing the same two bytes onto a byte twice gives the byte back.
proof fn lemma_xor_twice(byte: u8, key: u8, other: u8)
    by (bit_vector)
    ensures
        (byte ^ (key ^ other)) ^ (key ^ other) == byte,
{
}

/// **The XOR layer undoes itself.** Taking the mask off a payload that
/// it was put on gives the payload back, and so does putting the mask on
/// a payload that it was taken off, whatever the table, the offset and
/// the opcode.
pub proof fn lemma_xor_self_inverse(cipher: Seq<u8>, offset: int, code: u8, data: Seq<u8>)
    ensures
        xor_decrypted(cipher, offset, code, xor_encrypted(cipher, offset, code, data)) == data,
        xor_encrypted(cipher, offset, code, xor_decrypted(cipher, offset, code, data)) == data,
{
    let masked = xor_encrypted(cipher, offset, code, data);
    let back = xor_decrypted(cipher, offset, code, masked);
    assert forall|i: int| 0 <= i < data.len() implies back[i] == data[i] by {
        let key = xor_key(cipher, offset, i);
        if i == 0 {
            lemma_xor_twice(data[0], key, code);
        } else {
            lemma_xor_twice(data[i], key, masked[i - 1]);
        }
    }
    assert(back =~= data);

    let bare = xor_decrypted(cipher, offset, code, data);
    let again = xor_encrypted(cipher, offset, code, bare);
    assert forall|i: int| 0 <= i < data.len() implies again[i] == data[i] by {
        lemma_remasked(cipher, offset, code, data, i);
    }
    assert(again =~= data);
}

/// Putting the mask on a payload that it was taken off restores byte `i`.
proof fn lemma_remasked(cipher: Seq<u8>, offset: int, code: u8, data: Seq<u8>, i: int)
    requires
        0 <= i < data.len(),
    ensures
        xor_encrypted_byte(cipher, offset, code, xor_decrypted(cipher, offset, code, data), i)
            == data[i],
    decreases i,
{
    let key = xor_key(cipher, offset, i);
    if i == 0 {
        lemma_xor_twice(data[0], key, code);
    } else {
        lemma_remasked(cipher, offset, code, data, i - 1);
        lemma_xor_twice(data[i], key, data[i - 1]);
    }
}

} // verus!
