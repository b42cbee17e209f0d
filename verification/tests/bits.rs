use muonline_packet::bits::{hash_buffer, shift_bytes};

#[test]
fn shift_bytes_towards_the_end() {
    let mut buffer = [0x81, 0x42, 0x24, 0x00];
    shift_bytes(&mut buffer, 3, 3);
    assert_eq!(buffer, [0x10, 0x28, 0x44, 0x00]);
}

#[test]
fn shift_bytes_towards_the_start() {
    let mut buffer = [0x81, 0x42, 0x24, 0x18, 0xFF];
    shift_bytes(&mut buffer, 3, -3);
    assert_eq!(buffer, [0x0A, 0x11, 0x20, 0x18, 0xFF]);

    let mut single = [0x81, 0xFF];
    shift_bytes(&mut single, 1, -3);
    assert_eq!(single, [0x08, 0xFF]);
}

#[test]
fn shift_bytes_by_nothing() {
    let mut buffer = [0x81, 0x42, 0x24];
    shift_bytes(&mut buffer, 3, 0);
    assert_eq!(buffer, [0x81, 0x42, 0x24]);
}

#[test]
fn hash_buffer_copies_a_run() {
    // sixteen bits from bit 0 of the source to bit 2 of the target
    let mut out = [0x01, 0x00, 0x00];
    let end = hash_buffer(&mut out, 2, &[0xAB, 0xCD, 0x03, 0x00], 0, 16);
    assert_eq!(end, 18);
    assert_eq!(out, [0x2B, 0xF3, 0x40]);
}

#[test]
fn hash_buffer_takes_two_bits() {
    // bits 22 and 23 of the source behind sixteen bits of the target
    let mut out = [0x00, 0x00, 0x00];
    let end = hash_buffer(&mut out, 16, &[0x00, 0x00, 0x02, 0x00], 22, 2);
    assert_eq!(end, 18);
    assert_eq!(out, [0x00, 0x00, 0x80]);
}

#[test]
fn hash_buffer_keeps_set_bits() {
    let mut out = [0xFF, 0x00];
    let end = hash_buffer(&mut out, 0, &[0x00, 0x00], 0, 16);
    assert_eq!(end, 16);
    assert_eq!(out, [0xFF, 0x00]);

    let mut out = [0x0F, 0x00];
    hash_buffer(&mut out, 0, &[0xA5, 0x5A], 0, 16);
    assert_eq!(out, [0xAF, 0x5A]);
}

#[test]
fn hash_buffer_copies_any_run() {
    // twelve bits from bit 2 of the source to bit 5 of the target
    let mut out = [0x00, 0x00, 0x00];
    let end = hash_buffer(&mut out, 5, &[0xB6, 0xDB, 0xFF], 2, 12);
    assert_eq!(end, 17);
    assert_eq!(out, [0x06, 0xDB, 0x00]);
}

#[test]
fn hash_buffer_leaves_the_rest_alone() {
    let mut out = [0xA0, 0x00, 0x05];
    hash_buffer(&mut out, 5, &[0xB6, 0xDB, 0xFF], 2, 12);
    assert_eq!(out, [0xA6, 0xDB, 0x05]);
}
