//! Frames in memory and on the wire.

use crate::block::{block_count, blocks_intact, decrypted, encrypted, usable_table};
use crate::crypto::Crypto;
use crate::endian::{be_value, pow256, read_uint_be, write_uint_be};
use crate::error::PacketError;
use crate::kind::PacketKind;
use crate::xor::{xor_decrypted, xor_encrypted, xorcrypt, XOR_SKIP_CODE};
use vstd::prelude::*;
use vstd::slice::slice_subrange;

verus! {

/// What a packet is: a plaintext kind, an opcode and a payload.
pub struct PacketView {
    pub kind: PacketKind,
    pub code: u8,
    pub data: Seq<u8>,
}

/// What reading a frame yields: the packet, the number of bytes that the
/// frame took on the wire, and the counter that an encrypted frame
/// carried.
pub struct Parsed {
    pub packet: PacketView,
    pub consumed: nat,
    pub counter: Option<u8>,
}

/// An interface for a network packet.
#[derive(Clone, Debug)]
pub struct Packet {
    kind: PacketKind,
    code: u8,
    data: Vec<u8>,
}

impl View for Packet {
    type V = PacketView;

    closed spec fn view(&self) -> PacketView {
        PacketView { kind: self.kind, code: self.code, data: self.data@ }
    }
}

/// The length of a packet's frame in plain text: header and payload.
pub open spec fn frame_len(packet: PacketView) -> nat {
    packet.kind.spec_offset() + packet.data.len()
}

/// The size field of a frame: `size` in `width` bytes, high byte first.
pub open spec fn size_field(width: nat, size: nat) -> Seq<u8> {
    if width == 1 {
        seq![size as u8]
    } else {
        seq![(size / 256) as u8, (size % 256) as u8]
    }
}

/// The payload as it goes on the wire: masked where a table is given and
/// the opcode is not the one that is exempt.
pub open spec fn whitened(packet: PacketView, cipher: Option<Seq<u8>>) -> Seq<u8> {
    match cipher {
        Some(table) if packet.code != XOR_SKIP_CODE => xor_encrypted(
            table,
            packet.kind.spec_offset() as int,
            packet.code,
            packet.data,
        ),
        _ => packet.data,
    }
}

/// The payload as it comes off the wire, the counterpart of `whitened`.
pub open spec fn unwhitened(
    kind: PacketKind,
    code: u8,
    data: Seq<u8>,
    cipher: Option<Seq<u8>>,
) -> Seq<u8> {
    match cipher {
        Some(table) if code != XOR_SKIP_CODE => xor_decrypted(
            table,
            kind.spec_offset() as int,
            code,
            data,
        ),
        _ => data,
    }
}

/// A frame in plain text: kind, size, opcode, payload.
pub open spec fn plain_frame(packet: PacketView, cipher: Option<Seq<u8>>) -> Seq<u8> {
    seq![packet.kind.spec_to_byte()] + size_field(packet.kind.spec_bytes(), frame_len(packet))
        + seq![packet.code] + whitened(packet, cipher)
}

/// What is block-encrypted in an encrypted frame: counter, opcode,
/// payload.
pub open spec fn sealed_content(
    packet: PacketView,
    cipher: Option<Seq<u8>>,
    counter: u8,
) -> Seq<u8> {
    seq![counter, packet.code] + whitened(packet, cipher)
}

/// The length of a packet's encrypted frame.
pub open spec fn sealed_len(packet: PacketView) -> nat {
    (11 * block_count(2 + packet.data.len() as int, 8)
        + packet.kind.spec_encrypted().spec_offset()) as nat
}

/// An encrypted frame: encrypted kind, size, cipher text.
pub open spec fn sealed_frame(
    packet: PacketView,
    cipher: Option<Seq<u8>>,
    keys: Seq<u32>,
    counter: u8,
) -> Seq<u8> {
    let kind = packet.kind.spec_encrypted();
    seq![kind.spec_to_byte()] + size_field(kind.spec_bytes(), sealed_len(packet)) + encrypted(
        keys,
        sealed_content(packet, cipher, counter),
    )
}

/// The frame of a packet: encrypted under the given key table and counter
/// if there are any, in plain text if not.
pub open spec fn frame(
    packet: PacketView,
    cipher: Option<Seq<u8>>,
    encryption: Option<(Seq<u32>, u8)>,
) -> Seq<u8> {
    match encryption {
        Some((keys, counter)) => sealed_frame(packet, cipher, keys, counter),
        None => plain_frame(packet, cipher),
    }
}

/// The total size that the header of a frame states.
pub open spec fn stated_size(kind: PacketKind, bytes: Seq<u8>) -> nat {
    be_value(bytes.subrange(1, 1 + kind.spec_bytes() as int))
}

/// What reading a plain-text frame of the given kind and size yields. A
/// frame that states a size below its own header is no frame.
pub open spec fn parsed_plain(
    kind: PacketKind,
    size: nat,
    bytes: Seq<u8>,
    cipher: Option<Seq<u8>>,
) -> Result<Parsed, PacketError> {
    let offset = kind.spec_offset() as int;
    if bytes.len() < offset {
        Err(PacketError::ShortRead)
    } else if size < offset {
        Err(PacketError::BadSize)
    } else {
        let code = bytes[offset - 1];
        Ok(
            Parsed {
                packet: PacketView {
                    kind,
                    code,
                    data: unwhitened(kind, code, bytes.subrange(offset, size as int), cipher),
                },
                consumed: size,
                counter: None,
            },
        )
    }
}

/// What reading an encrypted frame of the given kind and size yields.
pub open spec fn parsed_sealed(
    kind: PacketKind,
    size: nat,
    bytes: Seq<u8>,
    cipher: Option<Seq<u8>>,
    keys: Seq<u32>,
) -> Result<Parsed, PacketError> {
    let body = bytes.subrange(kind.spec_offset() as int, size as int);
    if !blocks_intact(keys, body, body.len() as int / 11) {
        Err(PacketError::BlockChecksumFail)
    } else {
        let content = decrypted(keys, body);
        if content.len() < 2 {
            Err(PacketError::ShortRead)
        } else {
            let plain = kind.spec_decrypted();
            Ok(
                Parsed {
                    packet: PacketView {
                        kind: plain,
                        code: content[1],
                        data: unwhitened(plain, content[1], content.skip(2), cipher),
                    },
                    consumed: size,
                    counter: Some(content[0]),
                },
            )
        }
    }
}

/// What reading the frame at the start of a byte string yields.
///
/// The string may go on behind the frame. It is too short (`ShortRead`)
/// where it ends before the header, before the size that the header
/// states, or before the opcode. It is no frame (`BadKind`) where its
/// first byte is none of the four kinds, and only there. A plain-text
/// frame that states a size below its own header is refused for its size
/// (`BadSize`). An encrypted frame needs a key table.
pub open spec fn parsed(
    bytes: Seq<u8>,
    cipher: Option<Seq<u8>>,
    keys: Option<Seq<u32>>,
) -> Result<Parsed, PacketError> {
    if bytes.len() == 0 {
        Err(PacketError::ShortRead)
    } else {
        match PacketKind::spec_from_byte(bytes[0]) {
            None => Err(PacketError::BadKind),
            Some(kind) => {
                if bytes.len() < 1 + kind.spec_bytes() {
                    Err(PacketError::ShortRead)
                } else if bytes.len() < stated_size(kind, bytes) {
                    Err(PacketError::ShortRead)
                } else if kind.spec_is_encrypted() {
                    match keys {
                        None => Err(PacketError::MissingDecryption),
                        Some(keys) => parsed_sealed(
                            kind,
                            stated_size(kind, bytes),
                            bytes,
                            cipher,
                            keys,
                        ),
                    }
                } else {
                    parsed_plain(kind, stated_size(kind, bytes), bytes, cipher)
                }
            },
        }
    }
}

/// Whether the frame at the start of a byte string is encrypted and has
/// arrived in full, so that its body is cipher text to be decrypted.
pub open spec fn sealed_whole(bytes: Seq<u8>) -> bool {
    bytes.len() > 0 && (PacketKind::spec_from_byte(bytes[0]) matches Some(kind)
        && kind.spec_is_encrypted() && bytes.len() >= 1 + kind.spec_bytes() && bytes.len()
        >= stated_size(kind, bytes))
}

/// Whether the cipher text of the frame at the start of a byte string can
/// be handed to the block cipher: where the frame is encrypted, has
/// arrived in full and can be decrypted, it states a size that leaves a
/// whole number of blocks behind its header. Every other string is well
/// framed.
pub open spec fn well_framed(bytes: Seq<u8>, decryptable: bool) -> bool {
    if bytes.len() == 0 {
        true
    } else {
        match PacketKind::spec_from_byte(bytes[0]) {
            None => true,
            Some(kind) => {
                let size = stated_size(kind, bytes);
                let offset = kind.spec_offset();
                if bytes.len() < 1 + kind.spec_bytes() || bytes.len() < size {
                    true
                } else if kind.spec_is_encrypted() {
                    decryptable ==> offset <= size && (size - offset) % 11 == 0
                } else {
                    true
                }
            },
        }
    }
}

/// Whether the XOR layer has anything to do on a packet: its opcode is
/// not the exempt one and its payload is not empty.
pub open spec fn masked(packet: PacketView) -> bool {
    packet.code != XOR_SKIP_CODE && packet.data.len() > 0
}

/// Whether reading the frame at the start of a byte string takes a mask
/// off its payload: the frame can be read, and the XOR layer has
/// something to do on what it holds.
pub open spec fn unmasks(bytes: Seq<u8>, keys: Option<Seq<u32>>) -> bool {
    parsed(bytes, None, keys) matches Ok(read) && masked(read.packet)
}

/// Whether the frame at the start of a byte string can be read with the
/// given table and key table: the string is well framed, the key table
/// has no zero modulus where there is cipher text to decrypt, and the
/// table of the XOR layer is not empty where a mask has to come off.
pub open spec fn parsable(
    bytes: Seq<u8>,
    cipher: Option<Seq<u8>>,
    keys: Option<Seq<u32>>,
) -> bool {
    &&& well_framed(bytes, keys is Some)
    &&& keys matches Some(table) ==> usable_table(table) || !sealed_whole(bytes)
    &&& cipher matches Some(table) ==> table.len() > 0 || !unmasks(bytes, keys)
}

/// Whether a packet has a frame under the given table and key table: the
/// frame is no longer than its kind allows, in plain text and, where it
/// is encrypted, in its encrypted form; the table of the XOR layer is not
/// empty where a mask has to go on; a key table has no zero modulus.
pub open spec fn serializable(
    packet: PacketView,
    cipher: Option<Seq<u8>>,
    sealing: Option<(Seq<u32>, u8)>,
) -> bool {
    &&& frame_len(packet) <= packet.kind.spec_max_size()
    &&& cipher matches Some(table) ==> table.len() > 0 || !masked(packet)
    &&& sealing matches Some((keys, _)) ==> usable_table(keys) && sealed_len(packet)
        <= packet.kind.spec_encrypted().spec_max_size()
}

/// The table behind an optional reference to it.
pub open spec fn table_of(cipher: Option<&[u8]>) -> Option<Seq<u8>> {
    match cipher {
        Some(table) => Some(table@),
        None => None,
    }
}

/// The table that an optional key schedule decrypts with.
pub open spec fn opening_of(decryption: Option<&Crypto>) -> Option<Seq<u32>> {
    match decryption {
        Some(scheme) => Some(scheme.decrypt_table()),
        None => None,
    }
}

/// The table that an optional key schedule encrypts with, and the
/// counter that goes with it.
pub open spec fn sealing_of(encryption: Option<(&Crypto, u8)>) -> Option<(Seq<u32>, u8)> {
    match encryption {
        Some((scheme, counter)) => Some((scheme.encrypt_table(), counter)),
        None => None,
    }
}

impl Packet {
    /// What every packet made by this library holds: a plaintext kind.
    pub open spec fn wf(&self) -> bool {
        !self@.kind.spec_is_encrypted()
    }

    /// Creates a new packet with a specified `kind` & `code`.
    pub fn new(kind: PacketKind, code: u8) -> (packet: Packet)
        ensures
            packet@ == (PacketView { kind: kind.spec_decrypted(), code, data: Seq::empty() }),
            packet.wf(),
    {
        Packet { kind: kind.decrypted(), code, data: Vec::new() }
    }

    /// Constructs a packet from an array of bytes.
    pub fn from_bytes(bytes: &[u8]) -> (result: Result<Packet, PacketError>)
        ensures
            match parsed(bytes@, None, None) {
                Ok(frame) => result matches Ok(packet) && packet@ == frame.packet && packet.wf(),
                Err(error) => result matches Err(found) && found == error,
            },
    {
        match Packet::from_bytes_ex(bytes, None, None) {
            Ok((packet, _, _)) => Ok(packet),
            Err(error) => Err(error),
        }
    }

    /// Constructs a packet from an array of potentially encrypted bytes.
    ///
    /// Beside the packet come the number of bytes that its frame took and,
    /// for an encrypted frame, the counter it carried.
    pub fn from_bytes_ex(bytes: &[u8], cipher: Option<&[u8]>, decryption: Option<&Crypto>) -> (result:
        Result<(Packet, usize, Option<u8>), PacketError>)
        requires
            parsable(bytes@, table_of(cipher), opening_of(decryption)),
        ensures
            match parsed(bytes@, table_of(cipher), opening_of(decryption)) {
                Ok(frame) => result matches Ok((packet, consumed, counter)) && packet@
                    == frame.packet && packet.wf() && consumed == frame.consumed && counter
                    == frame.counter,
                Err(error) => result matches Err(found) && found == error,
            },
    {
        let total: usize = bytes.len();
        if total == 0 {
            return Err(PacketError::ShortRead);
        }
        // The first byte is always the type of packet
        let kind = match PacketKind::from_byte(bytes[0]) {
            Some(kind) => kind,
            None => {
                return Err(PacketError::BadKind);
            },
        };

        // ... followed by the the total package size
        let width: usize = kind.bytes();
        if total < 1 + width {
            return Err(PacketError::ShortRead);
        }
        let tail = slice_subrange(bytes, 1, total);
        assert(tail@.take(width as int) =~= bytes@.subrange(1, 1 + width));
        let stated: u64 = read_uint_be(tail, width);
        proof {
            lemma_be_value_bound(bytes@.subrange(1, 1 + width));
            reveal_with_fuel(pow256, 3);
        }
        let size: usize = stated as usize;
        if total < size {
            return Err(PacketError::ShortRead);
        }
        let offset: usize = kind.offset();
        let mut packet: Packet;
        let crypto_count: Option<u8>;
        if kind.is_encrypted() {
            match decryption {
                Some(decryption) => {
                    let body = slice_subrange(bytes, offset, size);
                    let buffer = match decryption.decrypt(body) {
                        Ok(buffer) => buffer,
                        Err(error) => {
                            return Err(error);
                        },
                    };
                    // This must be extracted before the packet is parsed
                    if buffer.len() < 2 {
                        return Err(PacketError::ShortRead);
                    }
                    crypto_count = Some(buffer[0]);
                    packet = Packet::new(kind.decrypted(), buffer[1]);
                    packet.append(slice_subrange(buffer.as_slice(), 2, buffer.len()));
                    assert(packet@.data =~= decrypted(decryption.decrypt_table(), body@).skip(2));
                },
                None => {
                    return Err(PacketError::MissingDecryption);
                },
            }
        } else {
            if total < offset {
                return Err(PacketError::ShortRead);
            }
            if size < offset {
                return Err(PacketError::BadSize);
            }
            crypto_count = None;
            packet = Packet::new(kind.decrypted(), bytes[offset - 1]);
            packet.append(slice_subrange(bytes, offset, size));
            assert(packet@.data =~= bytes@.subrange(offset as int, size as int));
        }

        assert(parsed(bytes@, None, opening_of(decryption)) matches Ok(read) && read.packet
            == packet@);
        if packet.code() != XOR_SKIP_CODE {
            if let Some(cipher) = cipher {
                // Decrypts the data using an XOR cipher.
                let kind = packet.kind();
                let code = packet.code();
                xorcrypt(cipher, kind, code, packet.data.as_mut_slice(), true);
            }
        }

        // Return the total amount of bytes read
        Ok((packet, size, crypto_count))
    }

    /// Tells whether the frame at the start of `bytes` is encrypted and has
    /// arrived in full, and if so the number of bytes behind its header;
    /// where the size it states is below its header there are none to
    /// tell.
    fn sealed_body(bytes: &[u8]) -> (body: Option<Option<usize>>)
        ensures
            body is Some == sealed_whole(bytes@),
            body matches Some(length) ==> ({
                let kind = PacketKind::spec_from_byte(bytes@[0])->0;
                let size = stated_size(kind, bytes@);
                &&& length is Some == (kind.spec_offset() <= size)
                &&& length matches Some(count) ==> count == size - kind.spec_offset()
            }),
    {
        let total: usize = bytes.len();
        if total == 0 {
            return None;
        }
        let kind = match PacketKind::from_byte(bytes[0]) {
            Some(kind) => kind,
            None => {
                return None;
            },
        };
        let width: usize = kind.bytes();
        if !kind.is_encrypted() || total < 1 + width {
            return None;
        }
        let tail = slice_subrange(bytes, 1, total);
        assert(tail@.take(width as int) =~= bytes@.subrange(1, 1 + width));
        let stated: u64 = read_uint_be(tail, width);
        proof {
            lemma_be_value_bound(bytes@.subrange(1, 1 + width));
            reveal_with_fuel(pow256, 3);
        }
        let size: usize = stated as usize;
        let offset: usize = kind.offset();
        if total < size {
            None
        } else if size < offset {
            Some(None)
        } else {
            Some(Some(size - offset))
        }
    }

    /// Tells whether the cipher text of the frame at the start of `bytes`
    /// can be handed to the block cipher; `decryptable` says whether a key
    /// schedule will be at hand.
    pub fn is_well_framed(bytes: &[u8], decryptable: bool) -> (ok: bool)
        ensures
            ok == well_framed(bytes@, decryptable),
    {
        match Packet::sealed_body(bytes) {
            Some(Some(length)) => !decryptable || length % 11 == 0,
            Some(None) => !decryptable,
            None => true,
        }
    }

    /// Tells whether `from_bytes_ex` can read the frame at the start of
    /// `bytes` with the given table and key schedule.
    pub fn can_parse(bytes: &[u8], cipher: Option<&[u8]>, decryption: Option<&Crypto>) -> (ok:
        bool)
        ensures
            ok == parsable(bytes@, table_of(cipher), opening_of(decryption)),
    {
        if let Some(scheme) = decryption {
            match Packet::sealed_body(bytes) {
                Some(Some(length)) => {
                    if length % 11 != 0 || !scheme.can_decrypt() {
                        return false;
                    }
                },
                Some(None) => {
                    return false;
                },
                None => {},
            }
        }
        match cipher {
            Some(table) => {
                if table.len() > 0 {
                    true
                } else {
                    // An empty table will do where no mask has to come off
                    match Packet::from_bytes_ex(bytes, None, decryption) {
                        Ok((packet, _, _)) => packet.code() == XOR_SKIP_CODE || packet.data.len()
                            == 0,
                        Err(_) => true,
                    }
                }
            },
            None => true,
        }
    }

    /// Tells whether `to_bytes_ex` can write the frame of the packet with
    /// the given table and key schedule.
    pub fn can_serialize(&self, cipher: Option<&[u8]>, encryption: Option<(&Crypto, u8)>) -> (ok:
        bool)
        ensures
            ok == serializable(self@, table_of(cipher), sealing_of(encryption)),
    {
        let count: usize = self.data.len();
        let kind = self.kind;
        if count > kind.max_size() - kind.offset() {
            return false;
        }
        if let Some(table) = cipher {
            if table.len() == 0 && self.code != XOR_SKIP_CODE && count > 0 {
                return false;
            }
        }
        match encryption {
            Some((scheme, _)) => {
                let sealed = kind.encrypted();
                let blocks: usize = (count + 2 + 7) / 8;
                scheme.can_encrypt() && 11 * blocks + sealed.offset() <= sealed.max_size()
            },
            None => true,
        }
    }

    /// Converts a packet to raw bytes.
    pub fn to_bytes(&self) -> (bytes: Vec<u8>)
        requires
            frame_len(self@) <= self@.kind.spec_max_size(),
        ensures
            bytes@ == plain_frame(self@, None),
    {
        self.to_bytes_ex(None, None)
    }

    /// Converts a packet to raw bytes with a specific encryption.
    ///
    /// The frame must not be longer than its kind allows, in plain text
    /// and, where it is encrypted, in its encrypted form.
    pub fn to_bytes_ex(&self, cipher: Option<&[u8]>, encryption: Option<(&Crypto, u8)>) -> (bytes:
        Vec<u8>)
        requires
            serializable(self@, table_of(cipher), sealing_of(encryption)),
        ensures
            bytes@ == frame(self@, table_of(cipher), sealing_of(encryption)),
    {
        let mut bytes: Vec<u8> = Vec::with_capacity(self.len());

        if let Some((_, crypto_counter)) = encryption {
            // The encryption counter, validated by the client
            bytes.push(crypto_counter);
        } else {
            // The packet kind and its size
            bytes.push(self.kind().to_byte());
            write_size(&mut bytes, self.len(), self.kind().bytes());
        }

        bytes.push(self.code());
        let offset: usize = bytes.len();
        let ghost head = bytes@;
        bytes.extend_from_slice(self.data());
        assert(bytes@ =~= head + self@.data);

        if self.code() != XOR_SKIP_CODE {
            if let Some(cipher) = cipher {
                // Encrypts the data using an XOR cipher.
                let (_, payload) = bytes.as_mut_slice().split_at_mut(offset);
                assert(payload@ =~= self@.data);
                xorcrypt(cipher, self.kind(), self.code(), payload, false);
            }
        }
        assert(bytes@ =~= head + whitened(self@, table_of(cipher)));
        proof {
            match encryption {
                Some((_, counter)) => {
                    assert(bytes@ =~= sealed_content(self@, table_of(cipher), counter));
                },
                None => {
                    assert(bytes@ =~= plain_frame(self@, table_of(cipher)));
                },
            }
        }

        if let Some((crypto, counter)) = encryption {
            let encrypted = crypto.encrypt(bytes.as_slice());
            assert(whitened(self@, table_of(cipher)).len() == self@.data.len());
            let kind = self.kind().encrypted();
            let size: usize = encrypted.len() + kind.offset();

            bytes.clear();
            bytes.push(kind.to_byte());
            write_size(&mut bytes, size, kind.bytes());
            let ghost head = bytes@;
            bytes.extend_from_slice(encrypted.as_slice());
            assert(bytes@ =~= head + encrypted@);
            assert(bytes@ =~= sealed_frame(
                self@,
                table_of(cipher),
                crypto.encrypt_table(),
                counter,
            ));
        }

        bytes
    }

    /// Appends a slice to the internal data.
    pub fn append(&mut self, slice: &[u8])
        ensures
            final(self)@ == (PacketView { data: old(self)@.data + slice@, ..old(self)@ }),
            old(self).wf() ==> final(self).wf(),
    {
        let ghost before = self.data@;
        self.data.extend_from_slice(slice);
        assert(self.data@ =~= before + slice@);
    }

    /// Returns the packet's kind (C1 or C2 only).
    pub fn kind(&self) -> (kind: PacketKind)
        ensures
            kind == self@.kind,
            self.wf() ==> !kind.spec_is_encrypted(),
    {
        self.kind
    }

    /// Returns the packet's code designation.
    pub fn code(&self) -> (code: u8)
        ensures
            code == self@.code,
    {
        self.code
    }

    /// Returns the length of the entire packet.
    pub fn len(&self) -> (len: usize)
        requires
            frame_len(self@) <= usize::MAX,
        ensures
            len == frame_len(self@),
    {
        self.kind.offset() + self.data.len()
    }

    /// Returns whether the packet is empty or not. With its header no
    /// packet is.
    pub fn is_empty(&self) -> (empty: bool)
        ensures
            empty == (frame_len(self@) == 0),
            !empty,
    {
        self.kind.offset() == 0 && self.data.len() == 0
    }

    /// Returns the content of the package.
    pub fn data(&self) -> (data: &[u8])
        ensures
            data@ == self@.data,
    {
        self.data.as_slice()
    }
}

/// Appends the size field of a frame to a buffer: `size` in `width`
/// bytes, high byte first.
fn write_size(bytes: &mut Vec<u8>, size: usize, width: usize)
    requires
        width == 1 && size <= 255 || width == 2 && size <= 65535,
    ensures
        final(bytes)@ == old(bytes)@ + size_field(width as nat, size as nat),
{
    let mut field: Vec<u8> = vec![0u8; width];
    proof {
        reveal_with_fuel(pow256, 3);
    }
    write_uint_be(field.as_mut_slice(), size as u64, width);
    proof {
        reveal_with_fuel(be_value, 3);
        assert(field@.take(width as int) =~= field@);
        if width == 2 {
            assert(field@.drop_last().drop_last() =~= Seq::<u8>::empty());
            assert(field@.drop_last().last() == field@[0]);
        } else {
            assert(field@.drop_last() =~= Seq::<u8>::empty());
        }
    }
    let ghost before = bytes@;
    let mut index: usize = 0;
    while index < width
        invariant
            index <= width == field@.len(),
            bytes@ == before + field@.take(index as int),
        decreases width - index,
    {
        bytes.push(field[index]);
        index = index + 1;
    }
    assert(bytes@ =~= before + size_field(width as nat, size as nat));
}

/// The length of a frame: header and payload in plain text, header and
/// whole blocks where it is encrypted.
pub proof fn lemma_frame_len(
    packet: PacketView,
    cipher: Option<Seq<u8>>,
    sealing: Option<(Seq<u32>, u8)>,
)
    ensures
        frame(packet, cipher, sealing).len() == if sealing is Some {
            sealed_len(packet)
        } else {
            2 + packet.kind.spec_bytes() + packet.data.len()
        },
        sealing is None && !packet.kind.spec_is_encrypted() ==> frame(
            packet,
            cipher,
            sealing,
        ).len() == frame_len(packet),
{
    assert(whitened(packet, cipher).len() == packet.data.len());
    assert(size_field(1, 0).len() == 1);
    assert(size_field(2, 0).len() == 2);
    match sealing {
        Some((keys, counter)) => {
            assert(sealed_content(packet, cipher, counter).len() == 2 + packet.data.len());
        },
        None => {},
    }
}

/// A number spelled in `n` bytes is below `256` to the `n`.
proof fn lemma_be_value_bound(bytes: Seq<u8>)
    ensures
        be_value(bytes) < pow256(bytes.len()),
    decreases bytes.len(),
{
    if bytes.len() > 0 {
        lemma_be_value_bound(bytes.drop_last());
    }
}

} // verus!
