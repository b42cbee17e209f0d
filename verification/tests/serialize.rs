use muonline_packet::serialize::{content_limit, content_of, identifier_of, open_packet};
use muonline_packet::{Packet, PacketError, PacketKind};

#[test]
fn identifier_is_code_then_subcodes() {
    assert_eq!(identifier_of(0x00, &[0x06, 0x07]), vec![0x00, 0x06, 0x07]);
    assert_eq!(identifier_of(0xF4, &[]), vec![0xF4]);
}

#[test]
fn packet_opens_with_subcodes() {
    let packet = open_packet(PacketKind::C1, 0x0E, &[0x01, 0x02]);
    assert_eq!(packet.kind(), PacketKind::C1);
    assert_eq!(packet.code(), 0x0E);
    assert_eq!(packet.data(), &[0x01, 0x02]);
    assert_eq!(content_limit(&packet), 255 - 5);

    let packet = open_packet(PacketKind::C4, 0x0E, &[]);
    assert_eq!(packet.kind(), PacketKind::C2);
    assert_eq!(content_limit(&packet), 65535 - 4);
}

#[test]
fn content_behind_the_subcodes() {
    let mut packet = open_packet(PacketKind::C1, 0x0E, &[0x01, 0x02]);
    packet.append(&[0xAA, 0xBB]);
    assert_eq!(content_of(&packet, PacketKind::C1, 0x0E, &[0x01, 0x02]), Ok(&[0xAA, 0xBB][..]));
    assert_eq!(content_of(&packet, PacketKind::C1, 0x0E, &[]), Ok(&[0x01, 0x02, 0xAA, 0xBB][..]));
    assert_eq!(
        content_of(&packet, PacketKind::C1, 0x0E, &[0x01, 0x02, 0xAA, 0xBB]),
        Ok(&[][..])
    );
}

#[test]
fn content_of_another_type() {
    let mut packet = Packet::new(PacketKind::C1, 0x0E);
    packet.append(&[0x01, 0x02, 0xAA]);
    let refused = Err(PacketError::CodesDiffer);
    assert_eq!(content_of(&packet, PacketKind::C2, 0x0E, &[0x01]), refused);
    assert_eq!(content_of(&packet, PacketKind::C3, 0x0E, &[0x01]), refused);
    assert_eq!(content_of(&packet, PacketKind::C1, 0x0F, &[0x01]), refused);
    assert_eq!(content_of(&packet, PacketKind::C1, 0x0E, &[0x02]), refused);
    assert_eq!(content_of(&packet, PacketKind::C1, 0x0E, &[0x01, 0x03]), refused);
    assert_eq!(content_of(&packet, PacketKind::C1, 0x0E, &[0x01, 0x02, 0xAA, 0x00]), refused);
}
