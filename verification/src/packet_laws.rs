//! What holds of frames: reading a frame that was written gives the
//! packet back.

use crate::block::{block_count, blocks_intact, decrypted, encrypted};
use crate::block_laws::{lemma_round_trip, matched_tables};
use crate::endian::be_value;
use crate::error::PacketError;
use crate::keys::{
    client_decrypt_table, client_encrypt_table, lemma_client_matched, lemma_server_matched,
    server_decrypt_table, server_encrypt_table,
};
use crate::kind::PacketKind;
use crate::packet::{
    frame, frame_len, parsed, plain_frame, sealed_content, sealed_frame, sealed_len, size_field,
    stated_size, unwhitened, well_framed, whitened, PacketView, Parsed,
};
use crate::xor::{lemma_xor_self_inverse, XOR_SKIP_CODE};
use vstd::prelude::*;

verus! {

/// The counter that a frame carries: the one it was encrypted with, none
/// in plain text.
pub open spec fn carried(sealing: Option<(Seq<u32>, u8)>) -> Option<u8> {
    match sealing {
        Some((_, counter)) => Some(counter),
        None => None,
    }
}

/// The outcome of a read that went well.
pub open spec fn read_as(packet: PacketView, consumed: nat, counter: Option<u8>) -> Result<
    Parsed,
    PacketError,
> {
    Ok(Parsed { packet, consumed, counter })
}

/// Whether a frame written with `sealing` can be read with `opening`: a
/// plain-text frame always, an encrypted one with the key table that
/// undoes the one it was written with.
pub open spec fn opens(sealing: Option<(Seq<u32>, u8)>, opening: Option<Seq<u32>>) -> bool {
    match sealing {
        Some((enc, _)) => opening matches Some(dec) && matched_tables(enc, dec),
        None => true,
    }
}

/// Whether a packet has a frame: a plaintext kind, and a length that the
/// kind allows, in plain text and, where it is encrypted, in its
/// encrypted form.
pub open spec fn framable(packet: PacketView, sealing: Option<(Seq<u32>, u8)>) -> bool {
    &&& !packet.kind.spec_is_encrypted()
    &&& frame_len(packet) <= packet.kind.spec_max_size()
    &&& sealing is Some ==> sealed_len(packet) <= packet.kind.spec_encrypted().spec_max_size()
}

/// A size field spells its size.
pub proof fn lemma_size_field(width: nat, size: nat)
    requires
        width == 1 && size <= 255 || width == 2 && size <= 65535,
    ensures
        size_field(width, size).len() == width,
        be_value(size_field(width, size)) == size,
{
    reveal_with_fuel(be_value, 3);
    let field = size_field(width, size);
    if width == 2 {
        assert(field.drop_last() =~= seq![(size / 256) as u8]);
        assert(field.drop_last().drop_last() =~= Seq::<u8>::empty());
    } else {
        assert(field.drop_last() =~= Seq::<u8>::empty());
    }
}

/// Taking the mask off a payload that it was put on gives the payload.
proof fn lemma_whitening_undone(packet: PacketView, cipher: Option<Seq<u8>>)
    ensures
        whitened(packet, cipher).len() == packet.data.len(),
        unwhitened(packet.kind, packet.code, whitened(packet, cipher), cipher) == packet.data,
{
    match cipher {
        Some(table) => {
            lemma_xor_self_inverse(
                table,
                packet.kind.spec_offset() as int,
                packet.code,
                packet.data,
            );
        },
        None => {},
    }
}

/// **The exempt opcode.** A packet whose opcode is `0xF4` goes on the
/// wire unmasked and comes off it unmasked, whatever the table.
pub proof fn lemma_skip_code(
    packet: PacketView,
    cipher: Option<Seq<u8>>,
    sealing: Option<(Seq<u32>, u8)>,
)
    requires
        packet.code == XOR_SKIP_CODE,
    ensures
        whitened(packet, cipher) == packet.data,
        unwhitened(packet.kind, packet.code, packet.data, cipher) == packet.data,
        frame(packet, cipher, sealing) == frame(packet, None, sealing),
{
}

/// **The exempt opcode, read.** A frame that reads as a packet with
/// opcode `0xF4` reads the same with every table of the XOR layer, the
/// empty one included: no mask is taken off its payload.
pub proof fn lemma_skip_code_read(
    bytes: Seq<u8>,
    cipher: Option<Seq<u8>>,
    keys: Option<Seq<u32>>,
)
    requires
        parsed(bytes, None, keys) matches Ok(read) && read.packet.code == XOR_SKIP_CODE,
    ensures
        parsed(bytes, cipher, keys) == parsed(bytes, None, keys),
{
}

/// **Not a packet.** Reading fails for the kind exactly where there is a
/// first byte and it is none of `0xC1` to `0xC4`; a string that opens
/// with one of the four kinds never fails for its kind.
pub proof fn lemma_bad_kind(bytes: Seq<u8>, cipher: Option<Seq<u8>>, keys: Option<Seq<u32>>)
    ensures
        parsed(bytes, cipher, keys) == Err::<Parsed, PacketError>(PacketError::BadKind) <==> (
        bytes.len() > 0 && !(0xC1 <= bytes[0] <= 0xC4)),
{
}

/// Reading a plain-text frame that was written gives the packet back.
proof fn lemma_plain_round_trip(
    packet: PacketView,
    cipher: Option<Seq<u8>>,
    opening: Option<Seq<u32>>,
    rest: Seq<u8>,
)
    requires
        framable(packet, None),
    ensures
        plain_frame(packet, cipher).len() == frame_len(packet),
        parsed(plain_frame(packet, cipher) + rest, cipher, opening) == read_as(
            packet,
            frame_len(packet),
            None,
        ),
        well_framed(plain_frame(packet, cipher) + rest, opening is Some),
{
    let kind = packet.kind;
    let width = kind.spec_bytes();
    let size = frame_len(packet);
    let offset = kind.spec_offset() as int;
    let wire = plain_frame(packet, cipher) + rest;
    lemma_size_field(width, size);
    lemma_whitening_undone(packet, cipher);
    assert(wire[0] == kind.spec_to_byte());
    assert(PacketKind::spec_from_byte(wire[0]) == Some(kind));
    assert(wire.subrange(1, 1 + width as int) =~= size_field(width, size));
    assert(stated_size(kind, wire) == size);
    assert(wire[offset - 1] == packet.code);
    assert(wire.subrange(offset, size as int) =~= whitened(packet, cipher));
}

/// How an encrypted frame lies on the wire: kind, size, then the cipher
/// text of counter, opcode and payload, in whole blocks.
proof fn lemma_sealed_wire(
    packet: PacketView,
    cipher: Option<Seq<u8>>,
    enc: Seq<u32>,
    counter: u8,
    rest: Seq<u8>,
)
    requires
        framable(packet, Some((enc, counter))),
    ensures
        ({
            let kind = packet.kind.spec_encrypted();
            let wire = sealed_frame(packet, cipher, enc, counter) + rest;
            let body = encrypted(enc, sealed_content(packet, cipher, counter));
            &&& sealed_frame(packet, cipher, enc, counter).len() == sealed_len(packet)
            &&& wire.len() >= sealed_len(packet)
            &&& PacketKind::spec_from_byte(wire[0]) == Some(kind)
            &&& stated_size(kind, wire) == sealed_len(packet)
            &&& wire.subrange(kind.spec_offset() as int, sealed_len(packet) as int) == body
            &&& body.len() == 11 * block_count(2 + packet.data.len() as int, 8)
            &&& body.len() as int / 11 == block_count(2 + packet.data.len() as int, 8)
            &&& kind.spec_decrypted() == packet.kind
        }),
{
    let kind = packet.kind.spec_encrypted();
    let width = kind.spec_bytes();
    let size = sealed_len(packet);
    let offset = kind.spec_offset() as int;
    let content = sealed_content(packet, cipher, counter);
    let body = encrypted(enc, content);
    let wire = sealed_frame(packet, cipher, enc, counter) + rest;
    lemma_whitening_undone(packet, cipher);
    lemma_size_field(width, size);
    assert(content.len() == 2 + packet.data.len());
    assert(body.len() == 11 * block_count(2 + packet.data.len() as int, 8));
    assert(wire[0] == kind.spec_to_byte());
    assert(wire.subrange(1, 1 + width as int) =~= size_field(width, size));
    assert(wire.subrange(offset, size as int) =~= body);
}

/// What reading an encrypted frame yields where its cipher text gives
/// back the content it was made of.
proof fn lemma_sealed_read(
    kind: PacketKind,
    wire: Seq<u8>,
    cipher: Option<Seq<u8>>,
    dec: Seq<u32>,
    packet: PacketView,
    counter: u8,
)
    requires
        kind.spec_is_encrypted(),
        kind.spec_decrypted() == packet.kind,
        wire.len() >= 1 + kind.spec_bytes(),
        PacketKind::spec_from_byte(wire[0]) == Some(kind),
        wire.len() >= stated_size(kind, wire),
        ({
            let body = wire.subrange(kind.spec_offset() as int, stated_size(kind, wire) as int);
            &&& blocks_intact(dec, body, body.len() as int / 11)
            &&& decrypted(dec, body) == sealed_content(packet, cipher, counter)
        }),
    ensures
        parsed(wire, cipher, Some(dec)) == read_as(
            packet,
            stated_size(kind, wire),
            Some(counter),
        ),
{
    let content = sealed_content(packet, cipher, counter);
    lemma_whitening_undone(packet, cipher);
    assert(content.len() >= 2);
    assert(content[0] == counter && content[1] == packet.code);
    assert(content.skip(2) =~= whitened(packet, cipher));
}

/// Reading an encrypted frame that was written gives the packet and the
/// counter back.
proof fn lemma_sealed_round_trip(
    packet: PacketView,
    cipher: Option<Seq<u8>>,
    enc: Seq<u32>,
    counter: u8,
    dec: Seq<u32>,
    rest: Seq<u8>,
)
    requires
        framable(packet, Some((enc, counter))),
        matched_tables(enc, dec),
    ensures
        sealed_frame(packet, cipher, enc, counter).len() == sealed_len(packet),
        parsed(sealed_frame(packet, cipher, enc, counter) + rest, cipher, Some(dec)) == read_as(
            packet,
            sealed_len(packet),
            Some(counter),
        ),
        well_framed(sealed_frame(packet, cipher, enc, counter) + rest, true),
{
    let kind = packet.kind.spec_encrypted();
    let wire = sealed_frame(packet, cipher, enc, counter) + rest;
    lemma_sealed_wire(packet, cipher, enc, counter, rest);
    lemma_round_trip(enc, dec, sealed_content(packet, cipher, counter));
    lemma_sealed_read(kind, wire, cipher, dec, packet, counter);
}

/// **Round trip of frames.** Reading the frame of a packet gives the
/// packet back, takes exactly the bytes of the frame, whatever follows
/// them, and reports the counter that the frame was encrypted with. This
/// holds in plain text and under the block cipher, with and without the
/// XOR layer, for every table of that layer.
pub proof fn lemma_frame_round_trip(
    packet: PacketView,
    cipher: Option<Seq<u8>>,
    sealing: Option<(Seq<u32>, u8)>,
    opening: Option<Seq<u32>>,
    rest: Seq<u8>,
)
    requires
        framable(packet, sealing),
        opens(sealing, opening),
    ensures
        parsed(frame(packet, cipher, sealing) + rest, cipher, opening) == read_as(
            packet,
            frame(packet, cipher, sealing).len(),
            carried(sealing),
        ),
        well_framed(frame(packet, cipher, sealing) + rest, opening is Some),
{
    match sealing {
        Some((enc, counter)) => {
            lemma_sealed_round_trip(packet, cipher, enc, counter, opening->0, rest);
        },
        None => {
            lemma_plain_round_trip(packet, cipher, opening, rest);
        },
    }
}

/// **Round trip under the built-in schedules.** A frame encrypted with
/// the schedule of the client, or with that of the server, is read back
/// with the same schedule, for every counter.
pub proof fn lemma_builtin_frame_round_trip(
    packet: PacketView,
    cipher: Option<Seq<u8>>,
    counter: u8,
    rest: Seq<u8>,
)
    requires
        framable(packet, Some((client_encrypt_table(), counter))),
    ensures
        parsed(
            frame(packet, cipher, Some((client_encrypt_table(), counter))) + rest,
            cipher,
            Some(client_decrypt_table()),
        ) == read_as(packet, sealed_len(packet), Some(counter)),
        parsed(
            frame(packet, cipher, Some((server_encrypt_table(), counter))) + rest,
            cipher,
            Some(server_decrypt_table()),
        ) == read_as(packet, sealed_len(packet), Some(counter)),
{
    lemma_client_matched();
    lemma_server_matched();
    lemma_sealed_round_trip(
        packet,
        cipher,
        client_encrypt_table(),
        counter,
        client_decrypt_table(),
        rest,
    );
    lemma_sealed_round_trip(
        packet,
        cipher,
        server_encrypt_table(),
        counter,
        server_decrypt_table(),
        rest,
    );
}

} // verus!
