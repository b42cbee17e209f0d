use muonline_packet::xor::{xorcrypt, XOR_SKIP_CODE};
use muonline_packet::{PacketKind, XOR_CIPHER};

#[test]
fn xor_exempt_code() {
    assert_eq!(XOR_SKIP_CODE, 0xF4);
}

#[test]
fn xor_table() {
    assert_eq!(
        XOR_CIPHER,
        [
            0xE7, 0x6D, 0x3A, 0x89, 0xBC, 0xB2, 0x9F, 0x73, 0x23, 0xA8, 0xFE, 0xB6, 0x49, 0x5D,
            0x39, 0x5D, 0x8A, 0xCB, 0x63, 0x8D, 0xEA, 0x7D, 0x2B, 0x5F, 0xC3, 0xB1, 0xE9, 0x83,
            0x29, 0x51, 0xE8, 0x56
        ]
    );
}

#[test]
fn xor_forward_exact() {
    // key bytes at 3, 4, 5 are 0x89, 0xBC, 0xB2
    let mut data = [0x00, 0x00, 0x01];
    xorcrypt(&XOR_CIPHER, PacketKind::C1, 0xA9, &mut data, false);
    assert_eq!(data, [0x89 ^ 0xA9, 0xBC ^ 0x20, 0x01 ^ 0xB2 ^ 0x9C]);
    assert_eq!(data, [0x20, 0x9C, 0x2F]);
}

#[test]
fn xor_reverse_exact() {
    let mut data = [0x20, 0x9C, 0x2F];
    xorcrypt(&XOR_CIPHER, PacketKind::C1, 0xA9, &mut data, true);
    assert_eq!(data, [0x00, 0x00, 0x01]);
}

#[test]
fn xor_self_inverse() {
    for kind in [PacketKind::C1, PacketKind::C2] {
        for code in [0x00u8, 0xA9, 0xF3, 0xFF] {
            let plain: Vec<u8> = (0..100u32).map(|i| (i * 7 + 3) as u8).collect();

            let mut data = plain.clone();
            xorcrypt(&XOR_CIPHER, kind, code, &mut data, false);
            assert_ne!(data, plain);
            xorcrypt(&XOR_CIPHER, kind, code, &mut data, true);
            assert_eq!(data, plain);

            let mut data = plain.clone();
            xorcrypt(&XOR_CIPHER, kind, code, &mut data, true);
            xorcrypt(&XOR_CIPHER, kind, code, &mut data, false);
            assert_eq!(data, plain);
        }
    }
}

#[test]
fn xor_direction_matters() {
    let plain = [0x10u8, 0x20, 0x30, 0x40];
    let mut forward = plain;
    xorcrypt(&XOR_CIPHER, PacketKind::C1, 0x01, &mut forward, false);
    let mut reverse = plain;
    xorcrypt(&XOR_CIPHER, PacketKind::C1, 0x01, &mut reverse, true);
    assert_ne!(forward, reverse);
}

#[test]
fn xor_walks_round_a_short_table() {
    let table = [0x0F, 0xF0];
    let mut data = [0x00, 0x00, 0x00];
    // offset 3: key bytes at 3 % 2, 4 % 2, 5 % 2
    xorcrypt(&table, PacketKind::C1, 0x00, &mut data, false);
    assert_eq!(data, [0xF0, 0x0F ^ 0xF0, 0xF0 ^ 0xFF]);
}

#[test]
fn xor_of_nothing() {
    let mut data: [u8; 0] = [];
    xorcrypt(&[], PacketKind::C1, 0x00, &mut data, false);
    xorcrypt(&[], PacketKind::C1, 0x00, &mut data, true);
}
