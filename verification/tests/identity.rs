use muonline_packet::{PacketKind, PacketType};

struct Example();

impl PacketType for Example {
    const CODE: u8 = 0x00;

    fn kind() -> PacketKind {
        PacketKind::C1
    }

    fn subcodes() -> &'static [u8] {
        &[0x06, 0x07]
    }
}

#[test]
fn it_works() {
    assert_eq!(Example::kind(), PacketKind::C1);
    assert_eq!(Example::CODE, 0x00);
    assert_eq!(Example::subcodes(), &[0x06, 0x07]);
    assert_eq!(&Example::identifier(), &[0x00, 0x06, 0x07]);
}
