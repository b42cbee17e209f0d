//! The identity of message types, and the part of a payload that carries
//! it.
//!
//! A message type has a frame kind, an opcode and a run of subcodes that
//! open the payload. What follows the subcodes is the content of the
//! message, which a serializer writes and reads.

use crate::error::PacketError;
use crate::kind::PacketKind;
use crate::packet::{frame_len, Packet, PacketView};
use vstd::prelude::*;
use vstd::slice::slice_subrange;

verus! {

/// An interface for describing packet types.
pub trait PacketType {
    /// The message's code.
    const CODE: u8;

    /// Returns the message's kind.
    fn kind() -> PacketKind;

    /// Returns any potential subcodes of the message.
    fn subcodes() -> &'static [u8];

    /// Returns the unique identifier of the message: its code, then its
    /// subcodes, which are what `subcodes` hands out.
    fn identifier() -> (id: Vec<u8>)
        ensures
            exists|codes: &'static [u8]|
                #![trigger call_ensures(Self::subcodes, (), codes)]
                call_ensures(Self::subcodes, (), codes) && id@ == seq![Self::CODE] + codes@,
            id@.len() >= 1,
            id@[0] == Self::CODE,
    {
        identifier_of(Self::CODE, Self::subcodes())
    }
}

/// The identifier of a message with the given code and subcodes: the
/// code, then the subcodes.
pub fn identifier_of(code: u8, subcodes: &[u8]) -> (id: Vec<u8>)
    ensures
        id@ == seq![code] + subcodes@,
{
    let mut id: Vec<u8> = Vec::new();
    id.push(code);
    let ghost head = id@;
    id.extend_from_slice(subcodes);
    assert(id@ =~= head + subcodes@);
    id
}

/// Starts the packet of a message: kind and code as given, the subcodes
/// as the first bytes of the payload.
pub fn open_packet(kind: PacketKind, code: u8, subcodes: &[u8]) -> (packet: Packet)
    ensures
        packet@ == (PacketView { kind: kind.spec_decrypted(), code, data: subcodes@ }),
        packet.wf(),
{
    let mut packet = Packet::new(kind, code);
    packet.append(subcodes);
    assert(packet@.data =~= subcodes@);
    packet
}

/// The number of bytes that a packet can still take before its frame is
/// as long as its kind allows.
pub fn content_limit(packet: &Packet) -> (limit: usize)
    requires
        frame_len(packet@) <= packet@.kind.spec_max_size(),
    ensures
        limit == packet@.kind.spec_max_size() - frame_len(packet@),
{
    packet.kind().max_size() - packet.len()
}

/// Whether a packet is one of a message type: it has the kind and the
/// code of the type, and its payload opens with the subcodes of the type.
pub open spec fn identifies(
    packet: PacketView,
    kind: PacketKind,
    code: u8,
    subcodes: Seq<u8>,
) -> bool {
    &&& packet.kind == kind
    &&& packet.code == code
    &&& subcodes.len() <= packet.data.len()
    &&& packet.data.take(subcodes.len() as int) == subcodes
}

/// Hands out the content of a packet of a message type: the payload
/// behind the subcodes. A packet of another kind or code, or one whose
/// payload does not open with the subcodes, is refused.
pub fn content_of<'a>(packet: &'a Packet, kind: PacketKind, code: u8, subcodes: &[u8]) -> (result:
    Result<&'a [u8], PacketError>)
    ensures
        identifies(packet@, kind, code, subcodes@) ==> (result matches Ok(content) && content@
            == packet@.data.skip(subcodes@.len() as int)),
        !identifies(packet@, kind, code, subcodes@) ==> (result matches Err(error) && error
            == PacketError::CodesDiffer),
{
    if packet.kind() == kind && packet.code() == code {
        let data = packet.data();
        let count: usize = subcodes.len();
        if count <= data.len() {
            let mut index: usize = 0;
            while index < count
                invariant
                    index <= count == subcodes@.len() <= data@.len(),
                    data@ == packet@.data,
                    packet@.kind == kind,
                    packet@.code == code,
                    forall|i: int| 0 <= i < index ==> data@[i] == subcodes@[i],
                decreases count - index,
            {
                if subcodes[index] != data[index] {
                    assert(data@.take(count as int)[index as int] != subcodes@[index as int]);
                    return Err(PacketError::CodesDiffer);
                }
                index = index + 1;
            }
            assert(data@.take(count as int) =~= subcodes@);
            return Ok(slice_subrange(data, count, data.len()));
        }
    }
    Err(PacketError::CodesDiffer)
}

} // verus!
