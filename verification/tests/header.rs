use muonline_packet::header::{assemble_header, gather, packet_header, HeaderError};

fn text(value: &str) -> Option<String> {
    Some(value.to_string())
}

#[test]
fn header_of_an_attribute() {
    let header = packet_header(text("C1"), text("00"), text("06|07")).ok().unwrap();
    assert_eq!(header.kind, "C1");
    assert_eq!(header.code, 0x00);
    assert_eq!(header.subcode, vec![0x06, 0x07]);

    let header = packet_header(text("C2"), text("f4"), None).ok().unwrap();
    assert_eq!(header.kind, "C2");
    assert_eq!(header.code, 0xF4);
    assert_eq!(header.subcode, Vec::<u8>::new());

    let header = packet_header(text("C3"), text("Ff"), text("a")).ok().unwrap();
    assert_eq!(header.code, 0xFF);
    assert_eq!(header.subcode, vec![0x0A]);
}

#[test]
fn header_errors() {
    assert_eq!(packet_header(None, text("00"), None).err(), Some(HeaderError::MissingKind));
    assert_eq!(packet_header(None, None, None).err(), Some(HeaderError::MissingKind));
    assert_eq!(packet_header(text("C1"), None, text("zz")).err(), Some(HeaderError::MissingCode));
    assert_eq!(packet_header(text("C1"), text("zz"), None).err(), Some(HeaderError::BadCode));
    assert_eq!(packet_header(text("C1"), text("100"), None).err(), Some(HeaderError::BadCode));
    assert_eq!(packet_header(text("C1"), text(""), None).err(), Some(HeaderError::BadCode));
    assert_eq!(
        packet_header(text("C1"), text("zz"), text("zz")).err(),
        Some(HeaderError::BadCode)
    );
    assert_eq!(
        packet_header(text("C1"), text("00"), text("06|xx")).err(),
        Some(HeaderError::BadSubcode)
    );
    assert_eq!(
        packet_header(text("C1"), text("00"), text("06||07")).err(),
        Some(HeaderError::BadSubcode)
    );
    assert_eq!(
        packet_header(text("C1"), text("00"), text("")).err(),
        Some(HeaderError::BadSubcode)
    );
    assert_eq!(
        packet_header(text("C1"), text("00"), text("06|")).err(),
        Some(HeaderError::BadSubcode)
    );
}

#[test]
fn header_assembled_from_values() {
    let header =
        assemble_header(text("C1"), Some(Some(7)), Some(vec![Some(1), Some(2)])).ok().unwrap();
    assert_eq!(header.kind, "C1");
    assert_eq!(header.code, 7);
    assert_eq!(header.subcode, vec![1, 2]);
    assert_eq!(
        assemble_header(text("C1"), Some(Some(7)), Some(vec![Some(1), None])).err(),
        Some(HeaderError::BadSubcode)
    );
    assert_eq!(
        assemble_header(text("C1"), Some(None), Some(vec![None])).err(),
        Some(HeaderError::BadCode)
    );
    assert_eq!(assemble_header(text("C1"), None, None).err(), Some(HeaderError::MissingCode));
    assert_eq!(assemble_header(None, None, None).err(), Some(HeaderError::MissingKind));
}

#[test]
fn header_gather() {
    assert_eq!(gather(&vec![]), Some(vec![]));
    assert_eq!(gather(&vec![Some(1), Some(2), Some(3)]), Some(vec![1, 2, 3]));
    assert_eq!(gather(&vec![Some(1), None, Some(3)]), None);
}
