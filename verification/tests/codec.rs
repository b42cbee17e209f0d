use bytes::BytesMut;
use muonline_packet::keys::{client, server};
use muonline_packet::{
    Packet, PacketCodec, PacketCodecState, PacketError, PacketKind, XOR_CIPHER,
};

fn packet(code: u8, data: &[u8]) -> Packet {
    let mut packet = Packet::new(PacketKind::C1, code);
    packet.append(data);
    packet
}

fn sealed_pair() -> (PacketCodec, PacketCodec) {
    let sender = PacketCodec::new(
        PacketCodecState::builder().cipher(&XOR_CIPHER).crypto(client()).build(),
        PacketCodecState::new(),
    );
    let receiver = PacketCodec::new(
        PacketCodecState::new(),
        PacketCodecState::builder().cipher(&XOR_CIPHER).crypto(client()).build(),
    );
    (sender, receiver)
}

#[test]
fn codec_plain_frames() {
    let mut codec = PacketCodec::new(PacketCodecState::new(), PacketCodecState::new());
    let mut buffer = BytesMut::new();
    assert!(codec.can_encode(&packet(0x10, &[1, 2, 3]), &buffer));
    codec.encode(packet(0x10, &[1, 2, 3]), &mut buffer).unwrap();
    codec.encode(packet(0x11, &[]), &mut buffer).unwrap();
    assert_eq!(&buffer[..], &[0xC1, 0x06, 0x10, 1, 2, 3, 0xC1, 0x03, 0x11]);

    assert!(codec.can_decode(&buffer));
    let first = codec.decode(&mut buffer).unwrap().unwrap();
    assert_eq!(first.code(), 0x10);
    assert_eq!(first.data(), &[1, 2, 3]);
    assert_eq!(&buffer[..], &[0xC1, 0x03, 0x11]);
    let second = codec.decode(&mut buffer).unwrap().unwrap();
    assert_eq!(second.code(), 0x11);
    assert_eq!(second.data(), &[] as &[u8]);
    assert!(buffer.is_empty());
    assert!(codec.decode(&mut buffer).unwrap().is_none());
}

#[test]
fn codec_waits_for_more() {
    let mut codec = PacketCodec::new(PacketCodecState::new(), PacketCodecState::new());
    let whole = [0xC1, 0x06, 0x10, 1, 2, 3];
    for cut in 1..whole.len() {
        let mut buffer = BytesMut::from(&whole[..cut]);
        assert!(codec.decode(&mut buffer).unwrap().is_none());
        assert_eq!(&buffer[..], &whole[..cut]);
    }
    let mut buffer = BytesMut::from(&whole[..]);
    assert!(codec.decode(&mut buffer).unwrap().is_some());
    assert!(buffer.is_empty());
}

#[test]
fn codec_counter_walk() {
    let (mut sender, mut receiver) = sealed_pair();
    let mut wire = BytesMut::new();
    for round in 0..600u32 {
        let data = [round as u8, (round >> 8) as u8, 0x55];
        let before = wire.len();
        sender.encode(packet(0x20, &data), &mut wire).unwrap();

        // the frame carries the counter of its place in the run
        let expected = packet(0x20, &data)
            .to_bytes_ex(Some(&XOR_CIPHER), Some((&client(), (round % 256) as u8)));
        assert_eq!(&wire[before..], &expected[..]);
    }
    for round in 0..600u32 {
        let read = receiver.decode(&mut wire).unwrap().unwrap();
        assert_eq!(read.code(), 0x20);
        assert_eq!(read.data(), &[round as u8, (round >> 8) as u8, 0x55]);
    }
    assert!(wire.is_empty());
}

#[test]
fn codec_counter_mismatch_on_skip() {
    let (mut sender, mut receiver) = sealed_pair();
    let mut first = BytesMut::new();
    sender.encode(packet(0x20, &[1]), &mut first).unwrap();
    let mut second = BytesMut::new();
    sender.encode(packet(0x20, &[2]), &mut second).unwrap();

    // the second frame arrives where the first was due
    let waiting = second.len();
    assert_eq!(
        receiver.decode(&mut second).err(),
        Some(PacketError::CounterMismatch { found: 1, expected: 0 })
    );
    // the frame was taken from the buffer all the same
    assert_eq!(second.len(), 0);
    assert!(waiting > 0);

    // the counter that is due has not moved
    assert_eq!(receiver.decode(&mut first).unwrap().unwrap().data(), &[1]);
}

#[test]
fn codec_counter_mismatch_on_replay() {
    let (mut sender, mut receiver) = sealed_pair();
    let mut wire = BytesMut::new();
    sender.encode(packet(0x20, &[1]), &mut wire).unwrap();
    let mut replay = wire.clone();
    assert!(receiver.decode(&mut wire).unwrap().is_some());
    assert_eq!(
        receiver.decode(&mut replay).err(),
        Some(PacketError::CounterMismatch { found: 0, expected: 1 })
    );
}

#[test]
fn codec_plain_frames_move_the_sending_counter_only() {
    let mut sender = PacketCodec::new(
        PacketCodecState::builder().crypto(server()).build(),
        PacketCodecState::new(),
    );
    let mut receiver = PacketCodec::new(
        PacketCodecState::new(),
        PacketCodecState::builder().crypto(server()).build(),
    );
    let mut wire = BytesMut::new();
    // a plain frame does not move the counter of the receiver
    wire.extend_from_slice(&[0xC1, 0x04, 0x01, 0xFF]);
    assert_eq!(receiver.decode(&mut wire).unwrap().unwrap().data(), &[0xFF]);
    sender.encode(packet(0x02, &[7]), &mut wire).unwrap();
    assert_eq!(receiver.decode(&mut wire).unwrap().unwrap().data(), &[7]);
}

#[test]
fn codec_max_size() {
    let mut codec =
        PacketCodec::with_max_size(PacketCodecState::new(), PacketCodecState::new(), 4);
    let mut buffer = BytesMut::from(&[0xC1, 0x04, 0x10, 0x01][..]);
    assert!(codec.decode(&mut buffer).unwrap().is_some());
    let mut buffer = BytesMut::from(&[0xC1, 0x05, 0x10, 0x01, 0x02][..]);
    assert_eq!(codec.decode(&mut buffer).err(), Some(PacketError::OverSize));
    assert_eq!(buffer.len(), 5);
}

#[test]
fn codec_hard_errors() {
    let mut codec = PacketCodec::new(PacketCodecState::new(), PacketCodecState::new());
    let mut buffer = BytesMut::from(&[0x01, 0x02, 0x03][..]);
    assert_eq!(codec.decode(&mut buffer).err(), Some(PacketError::BadKind));
    assert_eq!(buffer.len(), 3);

    let mut buffer = BytesMut::from(&[0xC3, 0x02][..]);
    assert_eq!(codec.decode(&mut buffer).err(), Some(PacketError::MissingDecryption));

    let (mut sender, mut receiver) = sealed_pair();
    let mut wire = BytesMut::new();
    sender.encode(packet(0x20, &[1, 2, 3]), &mut wire).unwrap();
    wire[4] ^= 0x40;
    assert_eq!(receiver.decode(&mut wire).err(), Some(PacketError::BlockChecksumFail));
}

#[test]
fn codec_can_decode() {
    let (_, receiver) = sealed_pair();
    assert!(receiver.can_decode(&BytesMut::new()));
    assert!(!receiver.can_decode(&BytesMut::from(&[0xC3, 0x03, 0x00][..])));
    assert!(receiver.can_decode(&BytesMut::from(&[0xC1, 0x01, 0x00][..])));
    let plain = PacketCodec::new(PacketCodecState::new(), PacketCodecState::new());
    assert!(plain.can_decode(&BytesMut::from(&[0xC3, 0x03, 0x00][..])));

    let empty_table = PacketCodec::new(
        PacketCodecState::new(),
        PacketCodecState::builder().cipher(&[]).build(),
    );
    assert!(empty_table.can_decode(&BytesMut::new()));
    assert!(empty_table.can_decode(&BytesMut::from(&[0xC1, 0x04, 0xF4, 0x01][..])));
    assert!(empty_table.can_decode(&BytesMut::from(&[0xC1, 0x03, 0xA9][..])));
    assert!(!empty_table.can_decode(&BytesMut::from(&[0xC1, 0x04, 0xA9, 0x01][..])));
}

#[test]
fn codec_limit_comes_first() {
    // above the limit nothing is read, however the buffer is framed
    let (_, receiver) = sealed_pair();
    let mut codec = PacketCodec::with_max_size(
        PacketCodecState::new(),
        PacketCodecState::builder().cipher(&[]).crypto(client()).build(),
        2,
    );
    for bytes in [&[0xC3, 0x03, 0x00][..], &[0xC1, 0x04, 0xA9, 0x01][..], &[0x00, 0x00, 0x00][..]] {
        let mut buffer = BytesMut::from(bytes);
        assert!(codec.can_decode(&buffer));
        assert_eq!(codec.decode(&mut buffer).err(), Some(PacketError::OverSize));
        assert_eq!(&buffer[..], bytes);
    }
    assert!(!receiver.can_decode(&BytesMut::from(&[0xC3, 0x03, 0x00][..])));
}

#[test]
fn codec_size_below_header() {
    let mut codec = PacketCodec::new(PacketCodecState::new(), PacketCodecState::new());
    let mut buffer = BytesMut::from(&[0xC1, 0x02, 0xA9][..]);
    assert!(codec.can_decode(&buffer));
    assert_eq!(codec.decode(&mut buffer).err(), Some(PacketError::BadSize));
    assert_eq!(buffer.len(), 3);
}

#[test]
fn codec_can_encode() {
    let (sender, _) = sealed_pair();
    let buffer = BytesMut::new();
    assert!(sender.can_encode(&packet(0x01, &[0; 182]), &buffer));
    assert!(!sender.can_encode(&packet(0x01, &[0; 183]), &buffer));
    let plain = PacketCodec::new(PacketCodecState::new(), PacketCodecState::new());
    assert!(plain.can_encode(&packet(0x01, &[0; 252]), &buffer));
    assert!(!plain.can_encode(&packet(0x01, &[0; 253]), &buffer));
}

#[test]
fn codec_default_state() {
    let mut codec = PacketCodec::new(PacketCodecState::default(), PacketCodecState::default());
    let mut buffer = BytesMut::new();
    codec.encode(packet(0x10, &[9]), &mut buffer).unwrap();
    assert_eq!(&buffer[..], &[0xC1, 0x04, 0x10, 9]);
}
