//! What holds of two codecs that talk to each other.

use crate::codec::{advanced, decoded, encoded, sealing_now, Decoded, StateView};
use crate::error::PacketError;
use crate::kind::PacketKind;
use crate::packet::{lemma_frame_len, parsed, size_field, stated_size, well_framed, PacketView};
use crate::packet_laws::{
    carried, framable, lemma_frame_round_trip, lemma_size_field, opens, read_as,
};
use vstd::prelude::*;

verus! {

/// Whether a receiving state can read what a sending state writes: both
/// use the same table of the XOR layer, and the receiver decrypts with
/// the key table that undoes the one the sender encrypts with.
pub open spec fn paired(sender: StateView, receiver: StateView) -> bool {
    &&& sender.cipher == receiver.cipher
    &&& opens(sealing_now(sender), receiver.opening)
}

/// A state after `count` frames: its counter moved on that often.
pub open spec fn advanced_by(state: StateView, count: nat) -> StateView
    decreases count,
{
    if count == 0 {
        state
    } else {
        advanced(advanced_by(state, (count - 1) as nat))
    }
}

/// What a sending state puts on the wire for a run of packets: their
/// frames one after the other, the counter moving on from each to the
/// next.
pub open spec fn sent(sender: StateView, packets: Seq<PacketView>) -> Seq<u8>
    decreases packets.len(),
{
    if packets.len() == 0 {
        Seq::empty()
    } else {
        encoded(sender, packets[0]) + sent(advanced(sender), packets.skip(1))
    }
}

/// The packets that `count` steps of decoding take from a buffer, up to
/// the first step that yields none, with the state and the buffer that
/// are left.
pub open spec fn received(receiver: StateView, input: Seq<u8>, count: nat) -> (
    Seq<PacketView>,
    StateView,
    Seq<u8>,
)
    decreases count,
{
    if count == 0 {
        (Seq::empty(), receiver, input)
    } else {
        let step = decoded(receiver, None, input);
        match step.result {
            Ok(Some(packet)) => {
                let (more, state, rest) = received(step.state, step.rest, (count - 1) as nat);
                (seq![packet] + more, state, rest)
            },
            _ => (Seq::empty(), step.state, step.rest),
        }
    }
}

/// The outcome of a step that hands out a packet.
pub open spec fn hands_out(packet: PacketView, state: StateView, rest: Seq<u8>) -> Decoded {
    Decoded { result: Ok(Some(packet)), state, rest }
}

/// The outcome of a step that fails.
pub open spec fn fails_with(error: PacketError, state: StateView, rest: Seq<u8>) -> Decoded {
    Decoded { result: Err(error), state, rest }
}

/// **One frame from codec to codec.** Let a receiver be paired with a
/// sender and decode what the sender encoded for a packet, whatever
/// follows it in the buffer. A plain-text frame is handed out and leaves
/// the receiver as it is. An encrypted frame is handed out if the
/// counters of the two agree, and the receiver's counter moves on; if
/// they differ, the step fails with the counter that came and the one
/// that was due. Either way the frame leaves the buffer and what
/// followed it stays.
pub proof fn lemma_decode_of_encode(
    sender: StateView,
    receiver: StateView,
    max_size: Option<usize>,
    packet: PacketView,
    rest: Seq<u8>,
)
    requires
        paired(sender, receiver),
        framable(packet, sealing_now(sender)),
        max_size matches Some(limit) ==> encoded(sender, packet).len() + rest.len() <= limit,
    ensures
        decoded(receiver, max_size, encoded(sender, packet) + rest) == if sender.sealing is None {
            hands_out(packet, receiver, rest)
        } else if sender.counter == receiver.counter {
            hands_out(packet, advanced(receiver), rest)
        } else {
            fails_with(
                PacketError::CounterMismatch {
                    found: sender.counter,
                    expected: receiver.counter,
                },
                receiver,
                rest,
            )
        },
{
    let wire = encoded(sender, packet);
    let input = wire + rest;
    lemma_frame_round_trip(packet, sender.cipher, sealing_now(sender), receiver.opening, rest);
    lemma_frame_len(packet, sender.cipher, sealing_now(sender));
    let read = parsed(input, receiver.cipher, receiver.opening);
    assert(read == read_as(packet, wire.len(), carried(sealing_now(sender))));
    assert(wire.len() >= 3);
    assert(input.len() > 0);
    assert(input.skip(wire.len() as int) =~= rest);
    lemma_decoded_of_read(receiver, max_size, input, packet, wire.len(), carried(sealing_now(sender)));
}

/// A step of decoding on a buffer within the limit whose first frame
/// reads well: the frame leaves the buffer, and the counter it carried
/// decides the rest.
proof fn lemma_decoded_of_read(
    receiver: StateView,
    max_size: Option<usize>,
    input: Seq<u8>,
    packet: PacketView,
    consumed: nat,
    counter: Option<u8>,
)
    requires
        input.len() > 0,
        max_size matches Some(limit) ==> input.len() <= limit,
        parsed(input, receiver.cipher, receiver.opening) == read_as(packet, consumed, counter),
    ensures
        decoded(receiver, max_size, input) == match counter {
            None => hands_out(packet, receiver, input.skip(consumed as int)),
            Some(found) => if found == receiver.counter {
                hands_out(packet, advanced(receiver), input.skip(consumed as int))
            } else {
                fails_with(
                    PacketError::CounterMismatch { found, expected: receiver.counter },
                    receiver,
                    input.skip(consumed as int),
                )
            },
        },
{
}

/// The counter of a state after `count` frames.
pub proof fn lemma_advanced_by(state: StateView, count: nat)
    ensures
        advanced_by(state, count).counter == (state.counter + count) % 256,
        advanced_by(state, count).cipher == state.cipher,
        advanced_by(state, count).sealing == state.sealing,
        advanced_by(state, count).opening == state.opening,
        advanced_by(advanced(state), count) == advanced(advanced_by(state, count)),
    decreases count,
{
    if count > 0 {
        lemma_advanced_by(state, (count - 1) as nat);
    }
}

/// **Counter walk.** Let a sender encrypt and a receiver be paired with
/// it, their counters equal. Whatever run of packets the sender encodes,
/// the receiver decodes them all, in order, and nothing is left in the
/// buffer; both counters have then moved on by the number of packets,
/// modulo 256. The frame of each packet carries the counter that the
/// sender started with, moved on by the packet's place in the run.
pub proof fn lemma_counter_walk(sender: StateView, receiver: StateView, packets: Seq<PacketView>)
    requires
        sender.sealing is Some,
        paired(sender, receiver),
        sender.counter == receiver.counter,
        forall|i: int| 0 <= i < packets.len() ==> framable(#[trigger] packets[i], sealing_now(sender)),
    ensures
        received(receiver, sent(sender, packets), packets.len()) == (
            packets,
            advanced_by(receiver, packets.len()),
            Seq::<u8>::empty(),
        ),
        advanced_by(receiver, packets.len()).counter == (receiver.counter + packets.len()) % 256,
        advanced_by(sender, packets.len()).counter == advanced_by(
            receiver,
            packets.len(),
        ).counter,
    decreases packets.len(),
{
    lemma_advanced_by(sender, packets.len());
    lemma_advanced_by(receiver, packets.len());
    if packets.len() > 0 {
        let first = packets[0];
        let later = packets.skip(1);
        let tail = sent(advanced(sender), later);
        assert(framable(first, sealing_now(sender)));
        lemma_decode_of_encode(sender, receiver, None, first, tail);
        assert forall|i: int| 0 <= i < later.len() implies framable(
            #[trigger] later[i],
            sealing_now(advanced(sender)),
        ) by {
            assert(framable(packets[i + 1], sealing_now(sender)));
        }
        lemma_counter_walk(advanced(sender), advanced(receiver), later);
        lemma_advanced_by(receiver, later.len());
        assert(seq![first] + later =~= packets);
    }
}

/// **The counters on the wire.** What a sender puts on the wire for a
/// run of packets is what it puts there for the first `count` of them,
/// followed by what it puts there for the rest with its counter moved on
/// `count` times: the frame of the packet at place `count` is written
/// with the counter that the sender started with plus `count`, modulo
/// 256.
pub proof fn lemma_sent_split(sender: StateView, packets: Seq<PacketView>, count: int)
    requires
        0 <= count <= packets.len(),
    ensures
        sent(sender, packets) == sent(sender, packets.take(count)) + sent(
            advanced_by(sender, count as nat),
            packets.skip(count),
        ),
        advanced_by(sender, count as nat).counter == (sender.counter + count) % 256,
        count < packets.len() ==> sent(advanced_by(sender, count as nat), packets.skip(count))
            == encoded(advanced_by(sender, count as nat), packets[count]) + sent(
            advanced_by(sender, (count + 1) as nat),
            packets.skip(count + 1),
        ),
    decreases count,
{
    lemma_advanced_by(sender, count as nat);
    if count == 0 {
        assert(packets.take(0) =~= Seq::<PacketView>::empty());
        assert(packets.skip(0) =~= packets);
        assert(sent(sender, packets.take(0)) =~= Seq::<u8>::empty());
        assert(sent(sender, packets) =~= Seq::<u8>::empty() + sent(sender, packets));
    } else {
        let later = packets.skip(1);
        lemma_sent_split(advanced(sender), later, count - 1);
        lemma_advanced_by(sender, (count - 1) as nat);
        assert(packets.take(count).skip(1) =~= later.take(count - 1));
        assert(later.skip(count - 1) =~= packets.skip(count));
        assert(packets.take(count)[0] == packets[0]);
        assert(sent(sender, packets) =~= sent(sender, packets.take(count)) + sent(
            advanced_by(sender, count as nat),
            packets.skip(count),
        ));
    }
    if count < packets.len() {
        let rest = packets.skip(count);
        assert(rest[0] == packets[count]);
        assert(rest.skip(1) =~= packets.skip(count + 1));
        lemma_advanced_by(sender, (count + 1) as nat);
    }
}

/// The outcome of a step that waits for more bytes.
pub open spec fn waits(state: StateView, input: Seq<u8>) -> Decoded {
    Decoded { result: Ok(None), state, rest: input }
}

/// **Partial input.** A buffer that holds less than the whole frame of a
/// packet yields nothing, and the step changes neither the buffer nor
/// the receiver: the step can be made again when more bytes have come.
pub proof fn lemma_partial_frame_waits(
    sender: StateView,
    receiver: StateView,
    packet: PacketView,
    count: int,
)
    requires
        framable(packet, sealing_now(sender)),
        0 <= count < encoded(sender, packet).len(),
    ensures
        well_framed(encoded(sender, packet).take(count), receiver.opening is Some),
        decoded(receiver, None, encoded(sender, packet).take(count)) == waits(
            receiver,
            encoded(sender, packet).take(count),
        ),
{
    let wire = encoded(sender, packet);
    let part = wire.take(count);
    if count > 0 {
        let kind = if sender.sealing is Some {
            packet.kind.spec_encrypted()
        } else {
            packet.kind
        };
        let width = kind.spec_bytes() as int;
        lemma_frame_len(packet, sender.cipher, sealing_now(sender));
        assert(part[0] == kind.spec_to_byte());
        assert(PacketKind::spec_from_byte(part[0]) == Some(kind));
        if count >= 1 + width {
            assert(part.subrange(1, 1 + width) =~= size_field(width as nat, wire.len()));
            lemma_size_field(width as nat, wire.len());
            assert(stated_size(kind, part) == wire.len());
        }
    }
}

} // verus!
