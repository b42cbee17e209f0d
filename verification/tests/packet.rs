use muonline_packet::keys::{client, server};
use muonline_packet::{Crypto, Packet, PacketError, PacketKind, XOR_CIPHER};

const ENCRYPTED: [u8; 6] = [0xC1, 0x06, 0xA9, 0x20, 0x9C, 0x2F];
const DECRYPTED: [u8; 6] = [0xC1, 0x06, 0xA9, 0x00, 0x00, 0x01];

#[test]
fn xor_decoding() {
    let (packet, ..) = Packet::from_bytes_ex(&ENCRYPTED, Some(&XOR_CIPHER), None).unwrap();

    assert_eq!(packet.kind(), PacketKind::C1);
    assert_eq!(packet.len(), DECRYPTED.len());
    assert_eq!(packet.code(), 0xA9);
    assert_eq!(packet.data(), &DECRYPTED[packet.kind().offset()..]);
}

#[test]
fn xor_encoding() {
    let mut packet = Packet::new(PacketKind::C1, 0xA9);
    packet.append(&DECRYPTED[PacketKind::C1.offset()..]);

    assert_eq!(packet.kind(), PacketKind::C1);
    assert_eq!(packet.len(), ENCRYPTED.len());
    assert_eq!(packet.code(), 0xA9);

    let data = packet.to_bytes_ex(Some(&XOR_CIPHER), None);
    assert_eq!(&data, &ENCRYPTED);
}

#[test]
fn decrypt_encrypt() {
    let (packet, ..) = Packet::from_bytes_ex(&ENCRYPTED, Some(&XOR_CIPHER), None).unwrap();
    assert_eq!(packet.to_bytes(), &DECRYPTED);
    assert_eq!(packet.to_bytes_ex(Some(&XOR_CIPHER), None), &ENCRYPTED);
}

#[test]
fn packet_c2() {
    let bytes = [
        0xC2, 0x00, 0x0B, 0xF4, 0x06, 0x00, 0x01, 0x00, 0x00, 0x05, 0x77,
    ];
    let packet = Packet::from_bytes(&bytes).unwrap();

    assert_eq!(packet.kind(), PacketKind::C2);
    assert_eq!(packet.len(), 0x0B);
    assert_eq!(packet.code(), 0xF4);
    assert_eq!(packet.data().first(), Some(&0x06));
}

#[test]
fn packet_c1_to_c3() {
    let bytes = [0xC1, 0x06, 0xF4, 0x03, 0x00, 0x00];
    let packet = Packet::from_bytes(&bytes).unwrap();

    let encoded = packet.to_bytes_ex(None, Some((&client(), 0)));
    assert_eq!(
        encoded,
        [0xC3, 0x0D, 0xE3, 0xB3, 0x53, 0x9A, 0x4F, 0xC8, 0x32, 0x7D, 0x04, 0x37, 0x0F]
    );
}

#[test]
fn packet_c3_to_c1() {
    let bytes = [
        0xC3, 0x0D, 0xE3, 0xB3, 0x53, 0x9A, 0x4F, 0xC8, 0x32, 0x7D, 0x04, 0x37, 0x0F, 0x00,
    ];
    let (packet, len, cc) = Packet::from_bytes_ex(&bytes, None, Some(&client())).unwrap();

    assert_eq!(len, bytes.len() - 1);
    assert_eq!(cc.unwrap(), 0);

    let decoded = packet.to_bytes();
    assert_eq!(decoded, [0xC1, 0x06, 0xF4, 0x03, 0x00, 0x00]);
}

#[test]
fn packet_new_normalizes_kind() {
    assert_eq!(Packet::new(PacketKind::C3, 0x01).kind(), PacketKind::C1);
    assert_eq!(Packet::new(PacketKind::C4, 0x01).kind(), PacketKind::C2);
    assert_eq!(Packet::new(PacketKind::C1, 0x01).kind(), PacketKind::C1);
    assert_eq!(Packet::new(PacketKind::C2, 0x01).kind(), PacketKind::C2);
}

#[test]
fn packet_len_counts_the_header() {
    let mut packet = Packet::new(PacketKind::C1, 0x10);
    assert_eq!(packet.len(), 3);
    assert!(!packet.is_empty());
    assert_eq!(packet.data(), &[] as &[u8]);
    packet.append(&[1, 2]);
    packet.append(&[3]);
    assert_eq!(packet.len(), 6);
    assert_eq!(packet.data(), &[1, 2, 3]);
    assert_eq!(packet.code(), 0x10);

    let packet = Packet::new(PacketKind::C2, 0x10);
    assert_eq!(packet.len(), 4);
}

#[test]
fn packet_plain_frames() {
    let mut packet = Packet::new(PacketKind::C1, 0x10);
    packet.append(&[0xAA, 0xBB]);
    assert_eq!(packet.to_bytes(), [0xC1, 0x05, 0x10, 0xAA, 0xBB]);

    let mut packet = Packet::new(PacketKind::C2, 0x10);
    packet.append(&[0xAA, 0xBB]);
    assert_eq!(packet.to_bytes(), [0xC2, 0x00, 0x06, 0x10, 0xAA, 0xBB]);

    let mut packet = Packet::new(PacketKind::C2, 0x10);
    packet.append(&[0x55; 300]);
    let bytes = packet.to_bytes();
    assert_eq!(&bytes[..4], &[0xC2, 0x01, 0x30, 0x10]);
    assert_eq!(bytes.len(), 304);
}

#[test]
fn packet_round_trip_plain() {
    for kind in [PacketKind::C1, PacketKind::C2] {
        for len in [0usize, 1, 7, 100, 252] {
            let mut packet = Packet::new(kind, 0x42);
            packet.append(&vec![0x5A; len]);
            let bytes = packet.to_bytes();
            let (read, consumed, counter) = Packet::from_bytes_ex(&bytes, None, None).unwrap();
            assert_eq!(read.kind(), kind);
            assert_eq!(read.code(), 0x42);
            assert_eq!(read.data(), packet.data());
            assert_eq!(consumed, bytes.len());
            assert_eq!(counter, None);
        }
    }
}

#[test]
fn packet_round_trip_masked() {
    let table = [0x12u8, 0x34, 0x56];
    for code in [0x00u8, 0xA9, 0xF4] {
        let mut packet = Packet::new(PacketKind::C2, code);
        packet.append(&(0..200u8).collect::<Vec<u8>>());
        let bytes = packet.to_bytes_ex(Some(&table), None);
        if code == 0xF4 {
            assert_eq!(bytes, packet.to_bytes());
        } else {
            assert_ne!(bytes, packet.to_bytes());
        }
        let (read, ..) = Packet::from_bytes_ex(&bytes, Some(&table), None).unwrap();
        assert_eq!(read.code(), code);
        assert_eq!(read.data(), packet.data());
    }
}

#[test]
fn packet_round_trip_sealed() {
    for scheme in [client(), server()] {
        for counter in [0u8, 1, 200, 255] {
            for len in [0usize, 5, 6, 7, 100] {
                let mut packet = Packet::new(PacketKind::C1, 0x33);
                packet.append(&(0..len).map(|i| i as u8).collect::<Vec<u8>>());
                let mut bytes = packet.to_bytes_ex(Some(&XOR_CIPHER), Some((&scheme, counter)));
                assert_eq!(bytes[0], 0xC3);
                assert_eq!(bytes[1] as usize, bytes.len());
                assert_eq!(bytes.len(), 2 + 11 * ((len + 2 + 7) / 8));
                bytes.extend_from_slice(&[0xEE, 0xEE]);
                let (read, consumed, found) =
                    Packet::from_bytes_ex(&bytes, Some(&XOR_CIPHER), Some(&scheme)).unwrap();
                assert_eq!(read.kind(), PacketKind::C1);
                assert_eq!(read.code(), 0x33);
                assert_eq!(read.data(), packet.data());
                assert_eq!(consumed, bytes.len() - 2);
                assert_eq!(found, Some(counter));
            }
        }
    }
}

#[test]
fn packet_sealed_c2_becomes_c4() {
    let mut packet = Packet::new(PacketKind::C2, 0x33);
    packet.append(&[0x77; 500]);
    let bytes = packet.to_bytes_ex(None, Some((&client(), 9)));
    assert_eq!(bytes[0], 0xC4);
    let size = 3 + 11 * ((500 + 2 + 7) / 8);
    assert_eq!(bytes.len(), size);
    assert_eq!(&bytes[1..3], &[(size >> 8) as u8, size as u8]);
    let (read, consumed, counter) = Packet::from_bytes_ex(&bytes, None, Some(&client())).unwrap();
    assert_eq!(read.kind(), PacketKind::C2);
    assert_eq!(read.data(), packet.data());
    assert_eq!(consumed, size);
    assert_eq!(counter, Some(9));
}

#[test]
fn packet_errors() {
    let failure = |bytes: &[u8], scheme: Option<&Crypto>| {
        Packet::from_bytes_ex(bytes, None, scheme).err()
    };
    // nothing there
    assert_eq!(failure(&[], None), Some(PacketError::ShortRead));
    // no frame kind
    assert_eq!(failure(&[0x00, 0x03, 0x01], None), Some(PacketError::BadKind));
    assert_eq!(failure(&[0xC5, 0x03, 0x01], None), Some(PacketError::BadKind));
    // the size field is cut off
    assert_eq!(failure(&[0xC1], None), Some(PacketError::ShortRead));
    assert_eq!(failure(&[0xC2, 0x00], None), Some(PacketError::ShortRead));
    // fewer bytes than the size field states
    assert_eq!(failure(&[0xC1, 0x05, 0x01, 0x02], None), Some(PacketError::ShortRead));
    assert_eq!(failure(&[0xC2, 0x01, 0x00, 0x02], None), Some(PacketError::ShortRead));
    // the opcode is missing
    assert_eq!(failure(&[0xC1, 0x02], None), Some(PacketError::ShortRead));
    // the size field states less than the header
    assert_eq!(failure(&[0xC1, 0x02, 0xA9], None), Some(PacketError::BadSize));
    // encrypted, and no key schedule
    let sealed = [
        0xC3, 0x0D, 0xE3, 0xB3, 0x53, 0x9A, 0x4F, 0xC8, 0x32, 0x7D, 0x04, 0x37, 0x0F,
    ];
    assert_eq!(failure(&sealed, None), Some(PacketError::MissingDecryption));
    // a broken block
    let mut broken = sealed;
    broken[5] ^= 0x10;
    assert_eq!(failure(&broken, Some(&client())), Some(PacketError::BlockChecksumFail));
    // cipher text of nothing has neither counter nor opcode
    assert_eq!(failure(&[0xC3, 0x02], Some(&client())), Some(PacketError::ShortRead));
    assert!(failure(&sealed, Some(&client())).is_none());
}

#[test]
fn packet_well_framed() {
    // too short to tell
    assert!(Packet::is_well_framed(&[], true));
    assert!(Packet::is_well_framed(&[0xC1], true));
    assert!(Packet::is_well_framed(&[0xC1, 0x09, 0x00], true));
    assert!(Packet::is_well_framed(&[0x55, 0x00, 0x00], true));
    // plain frames are never handed to the block cipher
    assert!(Packet::is_well_framed(&[0xC1, 0x02, 0x00], true));
    assert!(Packet::is_well_framed(&[0xC2, 0x00, 0x03, 0x00], true));
    // an encrypted frame whose body is no whole number of blocks
    assert!(!Packet::is_well_framed(&[0xC3, 0x03, 0x00], true));
    assert!(Packet::is_well_framed(&[0xC3, 0x03, 0x00], false));
    assert!(Packet::is_well_framed(&[0xC3, 0x02], true));
    assert!(!Packet::is_well_framed(&[0xC3, 0x01], true));
    let mut sealed = vec![0xC3, 0x0D];
    sealed.extend_from_slice(&[0; 11]);
    assert!(Packet::is_well_framed(&sealed, true));
    assert!(!Packet::is_well_framed(&[0xC4, 0x00, 0x02], true));
}

#[test]
fn packet_size_below_header() {
    // a plain frame that states less than its header is no frame
    for bytes in [
        &[0xC1, 0x02, 0xA9][..],
        &[0xC1, 0x00, 0xA9, 0x01][..],
        &[0xC2, 0x00, 0x03, 0xA9][..],
        &[0xC2, 0x00, 0x00, 0xA9, 0x01, 0x02][..],
    ] {
        assert!(Packet::can_parse(bytes, Some(&XOR_CIPHER), None));
        assert_eq!(
            Packet::from_bytes_ex(bytes, Some(&XOR_CIPHER), None).err(),
            Some(PacketError::BadSize)
        );
        assert_eq!(Packet::from_bytes(bytes).err(), Some(PacketError::BadSize));
    }
    // until the opcode has come the frame is only short
    assert_eq!(Packet::from_bytes(&[0xC1, 0x02]).err(), Some(PacketError::ShortRead));
    // the smallest frames there are
    assert_eq!(Packet::from_bytes(&[0xC1, 0x03, 0xA9]).unwrap().data(), &[] as &[u8]);
    assert_eq!(Packet::from_bytes(&[0xC2, 0x00, 0x04, 0xA9]).unwrap().data(), &[] as &[u8]);
}

#[test]
fn packet_exempt_code_reads_no_table() {
    let empty: &[u8] = &[];
    let mut packet = Packet::new(PacketKind::C1, 0xF4);
    packet.append(&[0x03, 0x00, 0x00]);
    for table in [empty, &XOR_CIPHER[..], &[0x55][..]] {
        assert!(packet.can_serialize(Some(table), None));
        assert_eq!(packet.to_bytes_ex(Some(table), None), packet.to_bytes());
        assert_eq!(
            packet.to_bytes_ex(Some(table), Some((&client(), 3))),
            packet.to_bytes_ex(None, Some((&client(), 3)))
        );

        let bytes = packet.to_bytes();
        assert!(Packet::can_parse(&bytes, Some(table), None));
        let (read, consumed, _) = Packet::from_bytes_ex(&bytes, Some(table), None).unwrap();
        assert_eq!(read.code(), 0xF4);
        assert_eq!(read.data(), &bytes[3..]);
        assert_eq!(consumed, bytes.len());

        let sealed = packet.to_bytes_ex(None, Some((&server(), 9)));
        assert!(Packet::can_parse(&sealed, Some(table), Some(&server())));
        let (read, _, counter) =
            Packet::from_bytes_ex(&sealed, Some(table), Some(&server())).unwrap();
        assert_eq!(read.data(), &[0x03, 0x00, 0x00]);
        assert_eq!(counter, Some(9));
    }
}

#[test]
fn packet_empty_table() {
    let empty: &[u8] = &[];
    // nothing to mask: the table is not read
    let bare = Packet::new(PacketKind::C1, 0xA9);
    assert!(bare.can_serialize(Some(empty), None));
    assert_eq!(bare.to_bytes_ex(Some(empty), None), [0xC1, 0x03, 0xA9]);
    assert!(Packet::can_parse(&[0xC1, 0x03, 0xA9], Some(empty), None));
    assert!(Packet::from_bytes_ex(&[0xC1, 0x03, 0xA9], Some(empty), None).is_ok());
    // frames that cannot be read need no table either
    assert!(Packet::can_parse(&[0xC1, 0x09, 0xA9], Some(empty), None));
    assert!(Packet::can_parse(&[0x00], Some(empty), None));
    // a payload under another opcode does
    let mut full = Packet::new(PacketKind::C1, 0xA9);
    full.append(&[0x01]);
    assert!(!full.can_serialize(Some(empty), None));
    assert!(!Packet::can_parse(&[0xC1, 0x04, 0xA9, 0x01], Some(empty), None));
    let sealed = full.to_bytes_ex(None, Some((&client(), 0)));
    assert!(!Packet::can_parse(&sealed, Some(empty), Some(&client())));
    assert!(Packet::can_parse(&sealed, Some(empty), None));
}

#[test]
fn packet_can_parse() {
    assert!(Packet::can_parse(&[], None, None));
    assert!(Packet::can_parse(&[0xC3, 0x03, 0x00], None, None));
    assert!(!Packet::can_parse(&[0xC3, 0x03, 0x00], None, Some(&client())));
    // a key table is asked for its moduli only where there is cipher text
    let unusable = Crypto::new(&[0u8; 54], &[0u8; 54], &[0u32; 4]);
    assert!(Packet::can_parse(&[], None, Some(&unusable)));
    assert!(Packet::can_parse(&[0xC1, 0x03, 0x00], None, Some(&unusable)));
    assert!(Packet::can_parse(&[0xC3, 0x0D, 0x00], None, Some(&unusable)));
    assert!(Packet::can_parse(&[0x00, 0x0D, 0x00], None, Some(&unusable)));
    let (read, ..) = Packet::from_bytes_ex(&[0xC1, 0x03, 0x55], None, Some(&unusable)).unwrap();
    assert_eq!(read.code(), 0x55);
    assert_eq!(
        Packet::from_bytes_ex(&[0xC3, 0x0D, 0x00], None, Some(&unusable)).err(),
        Some(PacketError::ShortRead)
    );
    let mut sealed = vec![0xC3, 0x0D];
    sealed.extend_from_slice(&[0; 11]);
    assert!(!Packet::can_parse(&sealed, None, Some(&unusable)));
    assert!(!Packet::can_parse(&[0xC3, 0x02], None, Some(&unusable)));
}

#[test]
fn packet_bad_kind_only_for_the_first_byte() {
    for first in 0u8..=255 {
        for bytes in [vec![first], vec![first, 0x02, 0xA9], vec![first, 0x00, 0x04, 0xA9]] {
            let failure = Packet::from_bytes(&bytes).err();
            assert_eq!(failure == Some(PacketError::BadKind), !(0xC1..=0xC4).contains(&first));
        }
    }
}

#[test]
fn packet_can_serialize() {
    let mut packet = Packet::new(PacketKind::C1, 0x01);
    packet.append(&[0; 252]);
    assert!(packet.can_serialize(None, None));
    assert!(packet.can_serialize(Some(&XOR_CIPHER), None));
    assert!(!packet.can_serialize(Some(&[]), None));
    // 254 bytes of content make 32 blocks, which no C3 frame holds
    assert!(!packet.can_serialize(None, Some((&client(), 0))));
    packet.append(&[0]);
    assert!(!packet.can_serialize(None, None));

    let mut packet = Packet::new(PacketKind::C1, 0x01);
    packet.append(&[0; 182]);
    // 184 bytes of content make 23 blocks: 2 + 253 bytes
    assert!(packet.can_serialize(None, Some((&client(), 0))));
    assert_eq!(packet.to_bytes_ex(None, Some((&client(), 0))).len(), 255);
    packet.append(&[0]);
    assert!(!packet.can_serialize(None, Some((&client(), 0))));

    let unusable = Crypto::new(&[0u8; 54], &[0u8; 54], &[0u32; 4]);
    let packet = Packet::new(PacketKind::C1, 0x01);
    assert!(!packet.can_serialize(None, Some((&unusable, 0))));
}
