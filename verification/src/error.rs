//! What can go wrong while a frame is read or written.

use vstd::prelude::*;

verus! {

/// The ways in which reading or writing a frame fails.
#[derive(Copy, Clone, Debug, PartialEq, Eq, Structural)]
pub enum PacketError {
    /// The buffer ends before the frame does. More bytes may still arrive.
    ShortRead,
    /// The first byte is none of the four frame kinds.
    BadKind,
    /// A plain-text frame states a size below that of its own header.
    BadSize,
    /// The frame is block-encrypted and no key schedule was given.
    MissingDecryption,
    /// A block of cipher text does not carry the check byte of its content.
    BlockChecksumFail,
    /// The counter inside an encrypted frame is not the one that was due.
    CounterMismatch { found: u8, expected: u8 },
    /// More bytes are buffered than the configured limit allows.
    OverSize,
    /// The packet is not one of the message type it was taken for.
    CodesDiffer,
}

} // verus!
