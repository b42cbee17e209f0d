//! The stream codec: frames in and out of a byte buffer, with a counter
//! for each direction.

use crate::buffer::{buffer_bytes, buffered};
use crate::crypto::Crypto;
use crate::error::PacketError;
use crate::packet::{frame, lemma_frame_len, parsable, parsed, serializable, Packet, PacketView};
use bytes::BytesMut;
use vstd::prelude::*;

verus! {

/// What a codec state is: the table of the XOR layer, the key tables of
/// the block cipher, and the counter that is due.
pub struct StateView {
    pub cipher: Option<Seq<u8>>,
    pub sealing: Option<Seq<u32>>,
    pub opening: Option<Seq<u32>>,
    pub counter: u8,
}

/// What a codec is: a state for each direction and a limit on what may
/// wait to be decoded.
pub struct CodecView {
    pub encrypt: StateView,
    pub decrypt: StateView,
    pub max_size: Option<usize>,
}

/// A packet codec encryption state builder.
pub struct PacketCodecStateBuilder {
    cipher: Option<&'static [u8]>,
    crypto: Option<Crypto>,
}

/// A packet codec encryption state.
#[derive(Debug)]
pub struct PacketCodecState {
    cipher: Option<&'static [u8]>,
    crypto: Option<Crypto>,
    counter: u8,
}

/// A Mu Online packet codec.
#[derive(Debug)]
pub struct PacketCodec {
    encrypt: PacketCodecState,
    decrypt: PacketCodecState,
    max_size: Option<usize>,
}

/// The content of an optional table.
pub open spec fn table_view(cipher: Option<&'static [u8]>) -> Option<Seq<u8>> {
    match cipher {
        Some(table) => Some(table@),
        None => None,
    }
}

/// The encrypting table of an optional key schedule.
pub open spec fn sealing_view(crypto: Option<Crypto>) -> Option<Seq<u32>> {
    match crypto {
        Some(scheme) => Some(scheme.encrypt_table()),
        None => None,
    }
}

/// The decrypting table of an optional key schedule.
pub open spec fn opening_view(crypto: Option<Crypto>) -> Option<Seq<u32>> {
    match crypto {
        Some(scheme) => Some(scheme.decrypt_table()),
        None => None,
    }
}

impl View for PacketCodecStateBuilder {
    type V = StateView;

    closed spec fn view(&self) -> StateView {
        StateView {
            cipher: table_view(self.cipher),
            sealing: sealing_view(self.crypto),
            opening: opening_view(self.crypto),
            counter: 0,
        }
    }
}

impl View for PacketCodecState {
    type V = StateView;

    closed spec fn view(&self) -> StateView {
        StateView {
            cipher: table_view(self.cipher),
            sealing: sealing_view(self.crypto),
            opening: opening_view(self.crypto),
            counter: self.counter,
        }
    }
}

impl View for PacketCodec {
    type V = CodecView;

    closed spec fn view(&self) -> CodecView {
        CodecView { encrypt: self.encrypt@, decrypt: self.decrypt@, max_size: self.max_size }
    }
}

/// A state without table or key schedule, its counter at zero.
pub open spec fn blank_state() -> StateView {
    StateView { cipher: None, sealing: None, opening: None, counter: 0 }
}

impl PacketCodecStateBuilder {
    /// Constructs a packet codec state.
    pub fn build(self) -> (state: PacketCodecState)
        ensures
            state@ == self@,
            state@.counter == 0,
    {
        PacketCodecState { cipher: self.cipher, crypto: self.crypto, counter: 0 }
    }

    /// Sets the packet codec cipher.
    pub fn cipher(self, cipher: &'static [u8]) -> (builder: PacketCodecStateBuilder)
        ensures
            builder@ == (StateView { cipher: Some(cipher@), ..self@ }),
    {
        let mut builder = self;
        builder.cipher = Some(cipher);
        builder
    }

    /// Sets the packet codec encryption.
    pub fn crypto(self, crypto: Crypto) -> (builder: PacketCodecStateBuilder)
        ensures
            builder@ == (StateView {
                sealing: Some(crypto.encrypt_table()),
                opening: Some(crypto.decrypt_table()),
                ..self@
            }),
    {
        let mut builder = self;
        builder.crypto = Some(crypto);
        builder
    }
}

impl PacketCodecState {
    /// Creates a default packet codec state.
    pub fn new() -> (state: PacketCodecState)
        ensures
            state@ == blank_state(),
    {
        PacketCodecState::builder().build()
    }

    /// Returns a packet codec state builder.
    pub fn builder() -> (builder: PacketCodecStateBuilder)
        ensures
            builder@ == blank_state(),
    {
        PacketCodecStateBuilder { cipher: None, crypto: None }
    }
}

impl Default for PacketCodecState {
    /// Creates a state without table or key schedule, its counter at zero.
    fn default() -> (state: PacketCodecState)
        ensures
            state@ == blank_state(),
    {
        PacketCodecState { cipher: None, crypto: None, counter: 0 }
    }
}

/// The frame that a state puts on the wire for a packet: masked with its
/// table, and encrypted under its key table with the counter that is due.
pub open spec fn encoded(state: StateView, packet: PacketView) -> Seq<u8> {
    frame(packet, state.cipher, sealing_now(state))
}

/// A state with its counter moved on by one, from 255 back to 0.
pub open spec fn advanced(state: StateView) -> StateView {
    StateView {
        counter: if state.counter == 255 {
            0u8
        } else {
            (state.counter + 1) as u8
        },
        ..state
    }
}

/// The key table and counter that a state encrypts with.
pub open spec fn sealing_now(state: StateView) -> Option<(Seq<u32>, u8)> {
    match state.sealing {
        Some(keys) => Some((keys, state.counter)),
        None => None,
    }
}

/// Whether a state can put the frame of a packet on the wire.
pub open spec fn encodable(state: StateView, packet: PacketView) -> bool {
    serializable(packet, state.cipher, sealing_now(state))
}

/// What one step of decoding yields.
pub struct Decoded {
    /// The packet, nothing where more bytes have to arrive, or the error.
    pub result: Result<Option<PacketView>, PacketError>,
    /// The receiving state after the step.
    pub state: StateView,
    /// The bytes that stay in the buffer.
    pub rest: Seq<u8>,
}

/// One step of decoding, stated.
///
/// An empty buffer and a frame that has not arrived in full leave
/// everything as it is and yield nothing. A buffer above the limit and a
/// frame that cannot be read fail and leave everything as it is. A frame
/// that was read leaves the buffer. If it carried a counter, the counter
/// has to be the one that is due, which then moves on; if it is another,
/// the step fails.
pub open spec fn decoded(state: StateView, max_size: Option<usize>, input: Seq<u8>) -> Decoded {
    if input.len() == 0 {
        Decoded { result: Ok(None), state, rest: input }
    } else if max_size matches Some(limit) && input.len() > limit {
        Decoded { result: Err(PacketError::OverSize), state, rest: input }
    } else {
        match parsed(input, state.cipher, state.opening) {
            Err(PacketError::ShortRead) => Decoded { result: Ok(None), state, rest: input },
            Err(error) => Decoded { result: Err(error), state, rest: input },
            Ok(read) => {
                let rest = input.skip(read.consumed as int);
                match read.counter {
                    Some(found) if found != state.counter => Decoded {
                        result: Err(
                            PacketError::CounterMismatch { found, expected: state.counter },
                        ),
                        state,
                        rest,
                    },
                    Some(_) => Decoded { result: Ok(Some(read.packet)), state: advanced(state), rest },
                    None => Decoded { result: Ok(Some(read.packet)), state, rest },
                }
            },
        }
    }
}

/// Whether a step of decoding can be made on what a buffer holds. An
/// empty buffer and one above the limit are never read, so the step can
/// always be made on them. Any other buffer has to be one whose first
/// frame can be read with the table and the key table of the state.
pub open spec fn decodable(state: StateView, max_size: Option<usize>, input: Seq<u8>) -> bool {
    ||| input.len() == 0
    ||| max_size matches Some(limit) && input.len() > limit
    ||| parsable(input, state.cipher, state.opening)
}

impl PacketCodec {
    /// Creates a new packet codec.
    pub fn new(encrypt: PacketCodecState, decrypt: PacketCodecState) -> (codec: PacketCodec)
        ensures
            codec@ == (CodecView { encrypt: encrypt@, decrypt: decrypt@, max_size: None }),
    {
        PacketCodec { encrypt, decrypt, max_size: None }
    }

    /// Creates a new packet codec with a size limit.
    pub fn with_max_size(
        encrypt: PacketCodecState,
        decrypt: PacketCodecState,
        max_size: usize,
    ) -> (codec: PacketCodec)
        ensures
            codec@ == (CodecView {
                encrypt: encrypt@,
                decrypt: decrypt@,
                max_size: Some(max_size),
            }),
    {
        PacketCodec { encrypt, decrypt, max_size: Some(max_size) }
    }

    /// Tells whether `encode` can put the frame of `packet` behind what
    /// `output` holds.
    pub fn can_encode(&self, packet: &Packet, output: &BytesMut) -> (ok: bool)
        ensures
            ok == (encodable(self@.encrypt, packet@) && buffered(*output).len() + encoded(
                self@.encrypt,
                packet@,
            ).len() <= usize::MAX),
    {
        let fits = match &self.encrypt.crypto {
            Some(crypto) => packet.can_serialize(
                self.encrypt.cipher,
                Some((crypto, self.encrypt.counter)),
            ),
            None => packet.can_serialize(self.encrypt.cipher, None),
        };
        if !fits {
            return false;
        }
        proof {
            lemma_frame_len(packet@, self@.encrypt.cipher, sealing_now(self@.encrypt));
        }
        let length: usize = match &self.encrypt.crypto {
            Some(_) => 11 * ((packet.data().len() + 2 + 7) / 8) + packet.kind().encrypted().offset(),
            None => 2 + packet.kind().bytes() + packet.data().len(),
        };
        output.len() <= usize::MAX - length
    }

    /// Tells whether `decode` can work on what `input` holds.
    pub fn can_decode(&self, input: &BytesMut) -> (ok: bool)
        ensures
            ok == decodable(self@.decrypt, self@.max_size, buffered(*input)),
    {
        if input.is_empty() {
            return true;
        }
        if let Some(max_size) = self.max_size {
            if input.len() > max_size {
                return true;
            }
        }
        match &self.decrypt.crypto {
            Some(crypto) => Packet::can_parse(
                buffer_bytes(input),
                self.decrypt.cipher,
                Some(crypto),
            ),
            None => Packet::can_parse(buffer_bytes(input), self.decrypt.cipher, None),
        }
    }

    /// Encodes a packet into a byte buffer.
    ///
    /// The frame of the packet is put behind what the buffer holds, and
    /// the counter of the sending state moves on, whether or not the
    /// frame is encrypted.
    pub fn encode(&mut self, packet: Packet, output: &mut BytesMut) -> (result: Result<
        (),
        PacketError,
    >)
        requires
            encodable(old(self)@.encrypt, packet@),
            buffered(*old(output)).len() + encoded(old(self)@.encrypt, packet@).len() <= usize::MAX,
        ensures
            result is Ok,
            buffered(*final(output)) == buffered(*old(output)) + encoded(
                old(self)@.encrypt,
                packet@,
            ),
            final(self)@ == (CodecView { encrypt: advanced(old(self)@.encrypt), ..old(self)@ }),
    {
        let bytes = match &self.encrypt.crypto {
            Some(crypto) => packet.to_bytes_ex(
                self.encrypt.cipher,
                Some((crypto, self.encrypt.counter)),
            ),
            None => packet.to_bytes_ex(self.encrypt.cipher, None),
        };
        output.extend_from_slice(bytes.as_slice());
        self.encrypt.counter = self.encrypt.counter.wrapping_add(1);
        Ok(())
    }

    /// Decodes a packet from an input of bytes.
    pub fn decode(&mut self, input: &mut BytesMut) -> (result: Result<Option<Packet>, PacketError>)
        requires
            decodable(old(self)@.decrypt, old(self)@.max_size, buffered(*old(input))),
        ensures
            ({
                let step = decoded(
                    old(self)@.decrypt,
                    old(self)@.max_size,
                    buffered(*old(input)),
                );
                &&& final(self)@ == (CodecView { decrypt: step.state, ..old(self)@ })
                &&& buffered(*final(input)) == step.rest
                &&& match step.result {
                    Ok(Some(view)) => result matches Ok(Some(packet)) && packet@ == view
                        && packet.wf(),
                    Ok(None) => result matches Ok(None),
                    Err(error) => result matches Err(found) && found == error,
                }
            }),
    {
        if input.is_empty() {
            return Ok(None);
        }
        if let Some(max_size) = self.max_size {
            if input.len() > max_size {
                return Err(PacketError::OverSize);
            }
        }
        let read = match &self.decrypt.crypto {
            Some(crypto) => Packet::from_bytes_ex(
                buffer_bytes(input),
                self.decrypt.cipher,
                Some(crypto),
            ),
            None => Packet::from_bytes_ex(buffer_bytes(input), self.decrypt.cipher, None),
        };
        match read {
            Ok((packet, bytes_read, decrypt_counter)) => {
                // Consume the used bytes from the input
                let _ = input.split_to(bytes_read);

                // Encrypted packets contain an encryption counter
                if let Some(counter) = decrypt_counter {
                    // Some tampering has been done if they do not match
                    if self.decrypt.counter != counter {
                        return Err(
                            PacketError::CounterMismatch {
                                found: counter,
                                expected: self.decrypt.counter,
                            },
                        );
                    }
                    self.decrypt.counter = self.decrypt.counter.wrapping_add(1);
                }
                Ok(Some(packet))
            },
            Err(error) => {
                // In case data is missing, wait for more
                match error {
                    PacketError::ShortRead => Ok(None),
                    _ => Err(error),
                }
            },
        }
    }
}

} // verus!
