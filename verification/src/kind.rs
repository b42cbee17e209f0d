//! The four frame kinds and their header arithmetic.

use vstd::prelude::*;

verus! {

/// The one-byte discriminator that opens every frame.
///
/// `C1` and `C2` are plaintext frames, `C3` and `C4` their block-encrypted
/// counterparts. `C1`/`C3` carry a one-byte size field, `C2`/`C4` a two-byte
/// big-endian one.
#[derive(Copy, Clone, Debug, PartialEq, Eq, Structural)]
pub enum PacketKind {
    C1,
    C2,
    C3,
    C4,
}

impl PacketKind {
    /// The wire byte of the kind.
    pub open spec fn spec_to_byte(self) -> u8 {
        match self {
            PacketKind::C1 => 0xC1,
            PacketKind::C2 => 0xC2,
            PacketKind::C3 => 0xC3,
            PacketKind::C4 => 0xC4,
        }
    }

    /// The kind that a wire byte stands for, if any.
    pub open spec fn spec_from_byte(byte: u8) -> Option<PacketKind> {
        if byte == 0xC1 {
            Some(PacketKind::C1)
        } else if byte == 0xC2 {
            Some(PacketKind::C2)
        } else if byte == 0xC3 {
            Some(PacketKind::C3)
        } else if byte == 0xC4 {
            Some(PacketKind::C4)
        } else {
            None
        }
    }

    /// Largest total length of a frame of this kind.
    pub open spec fn spec_max_size(self) -> nat {
        match self {
            PacketKind::C1 | PacketKind::C3 => 255,
            PacketKind::C2 | PacketKind::C4 => 65535,
        }
    }

    /// Width of the size field in bytes.
    pub open spec fn spec_bytes(self) -> nat {
        match self {
            PacketKind::C1 | PacketKind::C3 => 1,
            PacketKind::C2 | PacketKind::C4 => 2,
        }
    }

    /// Whether the frame body is block-encrypted.
    pub open spec fn spec_is_encrypted(self) -> bool {
        self == PacketKind::C3 || self == PacketKind::C4
    }

    /// The encrypted counterpart of a plaintext kind; encrypted kinds map to themselves.
    pub open spec fn spec_encrypted(self) -> PacketKind {
        match self {
            PacketKind::C1 => PacketKind::C3,
            PacketKind::C2 => PacketKind::C4,
            _ => self,
        }
    }

    /// The plaintext counterpart of an encrypted kind; plaintext kinds map to themselves.
    pub open spec fn spec_decrypted(self) -> PacketKind {
        match self {
            PacketKind::C3 => PacketKind::C1,
            PacketKind::C4 => PacketKind::C2,
            _ => self,
        }
    }

    /// Number of bytes that precede the payload: the kind byte, the size
    /// field and, in plaintext frames, the opcode.
    pub open spec fn spec_offset(self) -> nat {
        self.spec_bytes() + if self.spec_is_encrypted() {
            1nat
        } else {
            2nat
        }
    }

    /// The kind chosen for a payload of `size` bytes: the one-byte-size kind
    /// where the payload and its header fit in 255 bytes, else the
    /// two-byte-size kind where the payload and its header fit in 65535,
    /// none beyond that.
    pub open spec fn spec_from_size(size: nat, encrypted: bool) -> Option<PacketKind> {
        let (lower, upper) = if encrypted {
            (PacketKind::C3, PacketKind::C4)
        } else {
            (PacketKind::C1, PacketKind::C2)
        };
        if size + lower.spec_offset() <= lower.spec_max_size() {
            Some(lower)
        } else if size + upper.spec_offset() <= upper.spec_max_size() {
            Some(upper)
        } else {
            None
        }
    }

    /// Creates a `PacketKind` from a byte value.
    pub fn from_byte(byte: u8) -> (kind: Option<PacketKind>)
        ensures
            kind == PacketKind::spec_from_byte(byte),
            kind matches Some(k) ==> k.spec_to_byte() == byte,
            kind is None <==> !(0xC1 <= byte <= 0xC4),
    {
        match byte {
            0xC1 => Some(PacketKind::C1),
            0xC2 => Some(PacketKind::C2),
            0xC3 => Some(PacketKind::C3),
            0xC4 => Some(PacketKind::C4),
            _ => None,
        }
    }

    /// Returns the byte that stands for the kind on the wire.
    pub fn to_byte(&self) -> (byte: u8)
        ensures
            byte == self.spec_to_byte(),
            PacketKind::spec_from_byte(byte) == Some(*self),
    {
        match *self {
            PacketKind::C1 => 0xC1,
            PacketKind::C2 => 0xC2,
            PacketKind::C3 => 0xC3,
            PacketKind::C4 => 0xC4,
        }
    }

    /// Returns a `PacketKind` for the specified size: the first kind of the
    /// asked form that holds a payload of that size behind its own header.
    pub fn from_size(size: usize, encrypted: bool) -> (kind: Option<PacketKind>)
        ensures
            kind == PacketKind::spec_from_size(size as nat, encrypted),
            kind matches Some(k) ==> k.spec_is_encrypted() == encrypted && size + k.spec_offset()
                <= k.spec_max_size(),
            kind is None <==> forall|k: PacketKind|
                k.spec_is_encrypted() == encrypted ==> size + k.spec_offset() > k.spec_max_size(),
    {
        let (lower, upper) = if encrypted {
            (PacketKind::C3, PacketKind::C4)
        } else {
            (PacketKind::C1, PacketKind::C2)
        };
        if size <= lower.max_size() - lower.offset() {
            Some(lower)
        } else if size <= upper.max_size() - upper.offset() {
            Some(upper)
        } else {
            assert forall|k: PacketKind| k.spec_is_encrypted() == encrypted implies size
                + k.spec_offset() > k.spec_max_size() by {
                assert(k == lower || k == upper);
            }
            None
        }
    }

    /// Returns the maximum size for the kind.
    pub fn max_size(&self) -> (size: usize)
        ensures
            size == self.spec_max_size(),
    {
        match *self {
            PacketKind::C1 | PacketKind::C3 => 255,
            PacketKind::C2 | PacketKind::C4 => 65535,
        }
    }

    /// Returns the number of bytes used for representing the size.
    pub fn bytes(&self) -> (width: usize)
        ensures
            width == self.spec_bytes(),
    {
        match *self {
            PacketKind::C1 | PacketKind::C3 => 1,
            PacketKind::C2 | PacketKind::C4 => 2,
        }
    }

    /// Returns the encrypted variant of the type.
    pub fn encrypted(&self) -> (kind: PacketKind)
        ensures
            kind == self.spec_encrypted(),
            kind.spec_is_encrypted(),
            kind.spec_bytes() == self.spec_bytes(),
    {
        match *self {
            PacketKind::C1 => PacketKind::C3,
            PacketKind::C2 => PacketKind::C4,
            _ => *self,
        }
    }

    /// Returns the decrypted variant of the type.
    pub fn decrypted(&self) -> (kind: PacketKind)
        ensures
            kind == self.spec_decrypted(),
            !kind.spec_is_encrypted(),
            kind.spec_bytes() == self.spec_bytes(),
    {
        match *self {
            PacketKind::C3 => PacketKind::C1,
            PacketKind::C4 => PacketKind::C2,
            _ => *self,
        }
    }

    /// Returns the kind's header data offset.
    pub fn offset(&self) -> (offset: usize)
        ensures
            offset == self.spec_offset(),
    {
        // The encrypted version carries its opcode inside the cipher text
        let offset: usize = if self.is_encrypted() {
            1
        } else {
            2
        };
        self.bytes() + offset
    }

    /// Returns whether this is an encrypted kind or not.
    pub fn is_encrypted(&self) -> (encrypted: bool)
        ensures
            encrypted == self.spec_is_encrypted(),
    {
        *self == PacketKind::C3 || *self == PacketKind::C4
    }
}

/// Switching a kind to its encrypted form and back, or the other way round,
/// ends on the kind of the same size-field width in the requested form:
/// `C1` and `C3` are one pair, `C2` and `C4` the other.
pub proof fn lemma_kind_pairing(kind: PacketKind)
    ensures
        kind.spec_encrypted().spec_decrypted() == kind.spec_decrypted(),
        kind.spec_decrypted().spec_encrypted() == kind.spec_encrypted(),
        !kind.spec_is_encrypted() ==> kind.spec_encrypted().spec_decrypted() == kind,
        kind.spec_is_encrypted() ==> kind.spec_decrypted().spec_encrypted() == kind,
        kind.spec_encrypted().spec_offset() + 1 == kind.spec_decrypted().spec_offset(),
{
}

} // verus!
