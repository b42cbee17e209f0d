use muonline_packet::PacketKind;

#[test]
fn kind_bytes_round_trip() {
    for byte in 0u8..=255 {
        match PacketKind::from_byte(byte) {
            Some(kind) => {
                assert!((0xC1..=0xC4).contains(&byte));
                assert_eq!(kind.to_byte(), byte);
            }
            None => assert!(!(0xC1..=0xC4).contains(&byte)),
        }
    }
    assert_eq!(PacketKind::from_byte(0xC1), Some(PacketKind::C1));
    assert_eq!(PacketKind::from_byte(0xC2), Some(PacketKind::C2));
    assert_eq!(PacketKind::from_byte(0xC3), Some(PacketKind::C3));
    assert_eq!(PacketKind::from_byte(0xC4), Some(PacketKind::C4));
    assert_eq!(PacketKind::from_byte(0xC0), None);
    assert_eq!(PacketKind::from_byte(0xC5), None);
}

#[test]
fn kind_table() {
    let rows = [
        (PacketKind::C1, 1usize, false, 255usize, 3usize),
        (PacketKind::C2, 2, false, 65535, 4),
        (PacketKind::C3, 1, true, 255, 2),
        (PacketKind::C4, 2, true, 65535, 3),
    ];
    for (kind, bytes, encrypted, max_size, offset) in rows {
        assert_eq!(kind.bytes(), bytes);
        assert_eq!(kind.is_encrypted(), encrypted);
        assert_eq!(kind.max_size(), max_size);
        assert_eq!(kind.offset(), offset);
    }
}

#[test]
fn kind_pairing() {
    assert_eq!(PacketKind::C1.encrypted(), PacketKind::C3);
    assert_eq!(PacketKind::C2.encrypted(), PacketKind::C4);
    assert_eq!(PacketKind::C3.encrypted(), PacketKind::C3);
    assert_eq!(PacketKind::C4.encrypted(), PacketKind::C4);
    assert_eq!(PacketKind::C1.decrypted(), PacketKind::C1);
    assert_eq!(PacketKind::C2.decrypted(), PacketKind::C2);
    assert_eq!(PacketKind::C3.decrypted(), PacketKind::C1);
    assert_eq!(PacketKind::C4.decrypted(), PacketKind::C2);
}

#[test]
fn kind_from_size_plain() {
    assert_eq!(PacketKind::from_size(0, false), Some(PacketKind::C1));
    assert_eq!(PacketKind::from_size(252, false), Some(PacketKind::C1));
    assert_eq!(PacketKind::from_size(253, false), Some(PacketKind::C2));
    assert_eq!(PacketKind::from_size(65531, false), Some(PacketKind::C2));
    assert_eq!(PacketKind::from_size(65532, false), None);
    assert_eq!(PacketKind::from_size(usize::MAX, false), None);
}

#[test]
fn kind_from_size_encrypted() {
    assert_eq!(PacketKind::from_size(0, true), Some(PacketKind::C3));
    assert_eq!(PacketKind::from_size(253, true), Some(PacketKind::C3));
    assert_eq!(PacketKind::from_size(254, true), Some(PacketKind::C4));
    assert_eq!(PacketKind::from_size(65532, true), Some(PacketKind::C4));
    assert_eq!(PacketKind::from_size(65533, true), None);
    assert_eq!(PacketKind::from_size(usize::MAX, true), None);
}
