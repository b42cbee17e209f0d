use muonline_packet::crypto::KEY_CIPHER;
use muonline_packet::keys::{
    client, server, CLIENT_DECRYPT_KEYS, CLIENT_ENCRYPT_KEYS, SERVER_DECRYPT_KEYS,
    SERVER_ENCRYPT_KEYS,
};
use muonline_packet::{Crypto, PacketError};

#[test]
fn client2server() {
    let raw = [0x00, 0xF4, 0x03, 0x00, 0x00];
    let enc = client().encrypt(&raw);
    assert_eq!(
        enc,
        [0xE3, 0xB3, 0x53, 0x9A, 0x4F, 0xC8, 0x32, 0x7D, 0x04, 0x37, 0x0F]
    );

    let dec = client().decrypt(&enc).unwrap();
    assert_eq!(dec, raw);
}

#[test]
fn server2client() {
    let raw = [0x00, 0xF4, 0x03, 0x00, 0x00];
    let enc = server().encrypt(&raw);
    assert_eq!(
        enc,
        [0x47, 0x93, 0x15, 0x3B, 0x0B, 0x1C, 0x15, 0x7C, 0x16, 0x37, 0x0F]
    );

    let dec = server().decrypt(&enc).unwrap();
    assert_eq!(dec, raw);
}

#[test]
fn large_buffer() {
    let raw = [
        0x7C, 0xE7, 0xE6, 0xA2, 0x1E, 0xA8, 0xDA, 0xBC, 0xDB, 0x6D, 0x31, 0x62, 0xFE, 0xA7, 0xA0,
        0xF3, 0xF4, 0x05, 0x1D, 0x64, 0x1A, 0x42, 0xC2,
    ];

    let dec = server().decrypt(&server().encrypt(&raw)).unwrap();
    assert_eq!(dec, raw);

    let dec = client().decrypt(&client().encrypt(&raw)).unwrap();
    assert_eq!(dec, raw);
}

#[test]
fn schedules_built_from_blobs() {
    let scheme = Crypto::new(&CLIENT_ENCRYPT_KEYS, &CLIENT_DECRYPT_KEYS, &KEY_CIPHER);
    assert!(scheme.can_encrypt());
    assert!(scheme.can_decrypt());
    let raw = [0x00, 0xF4, 0x03, 0x00, 0x00];
    assert_eq!(scheme.encrypt(&raw), client().encrypt(&raw));

    let scheme = Crypto::new(&SERVER_ENCRYPT_KEYS, &SERVER_DECRYPT_KEYS, &KEY_CIPHER);
    assert_eq!(scheme.encrypt(&raw), server().encrypt(&raw));
}

#[test]
fn schedule_without_moduli_is_unusable() {
    // a blob of zeros under a table of zeros gives zero words throughout
    let scheme = Crypto::new(&[0u8; 54], &[0u8; 54], &[0u32; 4]);
    assert!(!scheme.can_encrypt());
    assert!(!scheme.can_decrypt());
}

#[test]
fn encrypt_block_sizes() {
    assert_eq!(client().encrypt(&[]).len(), 0);
    assert_eq!(client().encrypt(&[1]).len(), 11);
    assert_eq!(client().encrypt(&[0; 8]).len(), 11);
    assert_eq!(client().encrypt(&[0; 9]).len(), 22);
    assert_eq!(client().encrypt(&[0; 16]).len(), 22);
    assert_eq!(client().encrypt(&[0; 17]).len(), 33);
}

#[test]
fn encrypt_exact_values() {
    let nine = [1u8, 2, 3, 4, 5, 6, 7, 8, 9];
    assert_eq!(
        client().encrypt(&nine),
        [
            0x0D, 0x5F, 0x0C, 0xE5, 0x01, 0xDE, 0xB5, 0x03, 0x54, 0xC5, 0xF0, 0x96, 0xC3, 0x2D,
            0x96, 0xE6, 0x45, 0xC3, 0xFB, 0x98, 0xCD, 0xF1
        ]
    );
    let eight = [0u8, 1, 2, 3, 4, 5, 6, 7];
    assert_eq!(
        server().encrypt(&eight),
        [0x9C, 0x26, 0x00, 0x82, 0xCA, 0xD7, 0xC0, 0xB9, 0xE6, 0xCD, 0xF8]
    );
}

#[test]
fn decrypt_of_nothing() {
    assert_eq!(client().decrypt(&[]).unwrap(), Vec::<u8>::new());
}

#[test]
fn round_trip_of_every_length() {
    for len in 0..40usize {
        let raw: Vec<u8> = (0..len).map(|i| (i * 37 + 11) as u8).collect();
        for scheme in [client(), server()] {
            let enc = scheme.encrypt(&raw);
            assert_eq!(enc.len(), 11 * ((len + 7) / 8));
            assert_eq!(scheme.decrypt(&enc).unwrap(), raw);
        }
    }
}

#[test]
fn corruption_detection() {
    let raw = [0x00, 0xF4, 0x03, 0x00, 0x00];
    let enc = client().encrypt(&raw);
    for bit in 0..88usize {
        let mut broken = enc.clone();
        broken[bit / 8] ^= 0x80 >> (bit % 8);
        let result = client().decrypt(&broken);
        if (72..80).contains(&bit) {
            // the byte that states the length is not covered by the check
            let plain = result.unwrap();
            assert_ne!(plain.len(), raw.len());
        } else {
            assert_eq!(result, Err(PacketError::BlockChecksumFail));
        }
    }
}

#[test]
fn one_broken_block_fails_the_buffer() {
    let raw: Vec<u8> = (0..24u8).collect();
    let mut enc = server().encrypt(&raw);
    assert_eq!(enc.len(), 33);
    enc[32] ^= 0x01;
    assert_eq!(server().decrypt(&enc), Err(PacketError::BlockChecksumFail));
}

#[test]
fn schedules_differ() {
    let raw = [0x00, 0xF4, 0x03, 0x00, 0x00];
    let enc = client().encrypt(&raw);
    assert_ne!(server().decrypt(&enc), Ok(raw.to_vec()));
}

#[test]
fn block_check_rule() {
    let mut cipher = [0u8; 11];
    client().convert_8to11_bytes(&mut cipher, &[0x00, 0xF4, 0x03, 0x00, 0x00]);
    assert_eq!(cipher, [0xE3, 0xB3, 0x53, 0x9A, 0x4F, 0xC8, 0x32, 0x7D, 0x04, 0x37, 0x0F]);

    // every value of the last two bytes: the block passes exactly where the
    // last is the check byte of the plain text, and then states its length
    for tenth in [0x00u8, 0x37, 0x3D, 0xFF] {
        for last in 0u8..=255 {
            let mut block = cipher;
            block[9] = tenth;
            block[10] = last;
            let mut plain = [0xAAu8; 8];
            let result = client().convert_11to8_bytes(&mut plain, &block);
            assert_eq!(plain, [0x00, 0xF4, 0x03, 0x00, 0x00, 0x00, 0x00, 0x00]);
            let check = plain.iter().fold(0xF8u8, |sum, byte| sum ^ byte);
            if last == check {
                assert_eq!(result, Ok((tenth ^ last ^ 0x3D) as usize));
            } else {
                assert_eq!(result, Err(PacketError::BlockChecksumFail));
            }
        }
    }
}
