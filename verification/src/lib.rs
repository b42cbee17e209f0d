//! Framing, stream whitening and block encryption of Mu Online packets.

use vstd::prelude::*;

pub mod bits;
pub mod block;
pub mod block_laws;
pub mod buffer;
pub mod codec;
pub mod codec_laws;
pub mod crypto;
pub mod endian;
pub mod error;
pub mod header;
pub mod keys;
pub mod kind;
pub mod packet;
pub mod packet_laws;
pub mod scratch;
pub mod serialize;
pub mod string;
pub mod xor;

pub use crate::codec::{PacketCodec, PacketCodecState, PacketCodecStateBuilder};
pub use crate::crypto::Crypto;
pub use crate::error::PacketError;
pub use crate::kind::PacketKind;
pub use crate::packet::Packet;
pub use crate::serialize::PacketType;

verus! {

/// Default XOR cipher shared by client and server.
pub const XOR_CIPHER: [u8; 32] = [
    0xE7, 0x6D, 0x3A, 0x89, 0xBC, 0xB2, 0x9F, 0x73, 0x23, 0xA8, 0xFE, 0xB6, 0x49, 0x5D, 0x39, 0x5D,
    0x8A, 0xCB, 0x63, 0x8D, 0xEA, 0x7D, 0x2B, 0x5F, 0xC3, 0xB1, 0xE9, 0x83, 0x29, 0x51, 0xE8, 0x56,
];

} // verus!
