use muonline_packet::string::{cut_at_nul, fixed_bytes, fixed_text, NoTransform, StringTransform};

struct Upper;

impl StringTransform for Upper {
    fn process(bytes: &mut [u8]) {
        for byte in bytes {
            *byte = byte.to_ascii_uppercase();
        }
    }
}

#[test]
fn fixed_bytes_fills_with_zeros() {
    assert_eq!(fixed_bytes(b"foobar", 10), Some(b"foobar\0\0\0\0".to_vec()));
    assert_eq!(fixed_bytes(b"foobar", 6), Some(b"foobar".to_vec()));
    assert_eq!(fixed_bytes(b"", 3), Some(vec![0, 0, 0]));
    assert_eq!(fixed_bytes(b"", 0), Some(vec![]));
}

#[test]
fn fixed_bytes_refuses_long_text() {
    assert_eq!(fixed_bytes(b"foobar", 5), None);
    assert_eq!(fixed_bytes(b"f", 0), None);
}

#[test]
fn cut_at_first_nul() {
    assert_eq!(cut_at_nul(b"foobar\0\0\0\0".to_vec()), b"foobar".to_vec());
    assert_eq!(cut_at_nul(b"foo\0bar\0".to_vec()), b"foo".to_vec());
    assert_eq!(cut_at_nul(b"foobar".to_vec()), b"foobar".to_vec());
    assert_eq!(cut_at_nul(b"\0foobar".to_vec()), Vec::<u8>::new());
    assert_eq!(cut_at_nul(vec![]), Vec::<u8>::new());
}

#[test]
fn fixed_text_with_transform() {
    assert_eq!(fixed_text::<NoTransform>(b"foobar\0\0\0\0".to_vec()), b"foobar".to_vec());
    assert_eq!(fixed_text::<Upper>(b"foobar\0\0\0\0".to_vec()), b"FOOBAR".to_vec());
}

#[test]
fn fixed_round_trip() {
    let bytes = fixed_bytes(b"foobar", 10).unwrap();
    assert_eq!(fixed_text::<NoTransform>(bytes), b"foobar".to_vec());
}
