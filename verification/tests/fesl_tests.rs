use gamewire::fesl::{FeslMessage, FeslMessageBuilder, FeslMessageError, FeslMessageType};

fn framed(cmd: &[u8; 4], word: [u8; 4], body: &[u8]) -> Vec<u8> {
    let total = (12 + body.len()) as u32;
    let mut data = Vec::new();
    data.extend_from_slice(cmd);
    data.extend_from_slice(&word);
    data.extend_from_slice(&total.to_be_bytes());
    data.extend_from_slice(body);
    data
}

#[test]
fn fsys_example_serializes_exactly() {
    let mut b = FeslMessageBuilder::new("fsys", FeslMessageType::SingleClient, 1).unwrap();
    b.push("TXN", "Hello");
    let m = b.build();
    let mut expected = Vec::new();
    expected.extend_from_slice(b"fsys");
    expected.extend_from_slice(&[0xc0, 0x00, 0x00, 0x01]);
    expected.extend_from_slice(&[0x00, 0x00, 0x00, 23]);
    expected.extend_from_slice(b"TXN=Hello\n");
    expected.push(0x00);
    assert_eq!(m.as_bytes(), expected.as_slice());
    assert_eq!(m.as_bytes().len(), 23);
}

#[test]
fn round_trip_build_parse_iterate() {
    let mut b = FeslMessageBuilder::new("acct", FeslMessageType::MultiServer, 0x0abcdef).unwrap();
    b.push("TXN", "Login");
    b.push("name", "player one");
    let built = b.build();
    let parsed = FeslMessage::from_bytes(built.as_bytes().to_vec()).unwrap();
    assert_eq!(parsed.get_cmd().unwrap(), "acct");
    assert_eq!(parsed.get_type().unwrap(), FeslMessageType::MultiServer);
    assert_eq!(parsed.get_id(), 0x0abcdef);
    let mut it = parsed.iter();
    assert_eq!(it.next().unwrap().unwrap(), ("TXN", "Login"));
    assert_eq!(it.next().unwrap().unwrap(), ("name", "player one"));
    assert!(it.next().is_none());
    assert!(it.next().is_none());
}

#[test]
fn get_id_masks_top_nibble() {
    let m = FeslMessage::from_bytes(framed(b"abcd", [0xaf, 0xff, 0xff, 0xff], &[0x00])).unwrap();
    assert_eq!(m.get_id(), 0x0fff_ffff);
    assert!(m.get_id() < 1 << 28);
    assert_eq!(m.get_type(), Err(FeslMessageError::InvalidType));
}

#[test]
fn all_four_types_decode() {
    for (code, t) in [
        (0xc0, FeslMessageType::SingleClient),
        (0x80, FeslMessageType::SingleServer),
        (0xf0, FeslMessageType::MultiClient),
        (0xb0, FeslMessageType::MultiServer),
    ] {
        let m = FeslMessage::from_bytes(framed(b"abcd", [code, 0, 0, 7], &[0x00])).unwrap();
        assert_eq!(m.get_type().unwrap(), t);
        assert_eq!(m.get_id(), 7);
    }
}

#[test]
fn missing_newline_yields_one_delimiter_error() {
    let m = FeslMessage::from_bytes(framed(b"abcd", [0xc0, 0, 0, 0], b"AB=CD")).unwrap();
    let mut it = m.iter();
    assert_eq!(it.next().unwrap(), Err(FeslMessageError::ExpectedDelimiter));
    assert!(it.next().is_none());
    assert!(it.next().is_none());
}

#[test]
fn missing_equals_yields_one_delimiter_error() {
    let m = FeslMessage::from_bytes(framed(b"abcd", [0xc0, 0, 0, 0], b"AB\nCD\n")).unwrap();
    let mut it = m.iter();
    assert_eq!(it.next().unwrap(), Err(FeslMessageError::ExpectedDelimiter));
    assert!(it.next().is_none());
}

#[test]
fn bad_terminator_byte_yields_delimiter_error() {
    let m = FeslMessage::from_bytes(framed(b"abcd", [0xc0, 0, 0, 0], b"A=B\nx")).unwrap();
    let mut it = m.iter();
    assert_eq!(it.next().unwrap().unwrap(), ("A", "B"));
    assert_eq!(it.next().unwrap(), Err(FeslMessageError::ExpectedDelimiter));
    assert!(it.next().is_none());
}

#[test]
fn empty_body_ends_cleanly() {
    let m = FeslMessage::from_bytes(framed(b"abcd", [0xc0, 0, 0, 0], b"")).unwrap();
    let mut it = m.iter();
    assert!(it.next().is_none());
}

#[test]
fn value_keeps_later_equals_signs() {
    let m = FeslMessage::from_bytes(framed(b"abcd", [0xc0, 0, 0, 0], b"K=a=b\n\x00")).unwrap();
    let mut it = m.iter();
    assert_eq!(it.next().unwrap().unwrap(), ("K", "a=b"));
    assert!(it.next().is_none());
}

#[test]
fn invalid_utf8_key_yields_utf8_error() {
    let m = FeslMessage::from_bytes(framed(b"abcd", [0xc0, 0, 0, 0], b"\xff=B\n\x00")).unwrap();
    let mut it = m.iter();
    assert_eq!(it.next().unwrap(), Err(FeslMessageError::ExpectedUtf8));
    assert!(it.next().is_none());
}

#[test]
fn invalid_utf8_value_yields_utf8_error() {
    let m = FeslMessage::from_bytes(framed(b"abcd", [0xc0, 0, 0, 0], b"A=\xfe\n\x00")).unwrap();
    let mut it = m.iter();
    assert_eq!(it.next().unwrap(), Err(FeslMessageError::ExpectedUtf8));
    assert!(it.next().is_none());
}

#[test]
fn command_utf8_is_checked_lazily() {
    let good = FeslMessage::from_bytes(framed(b"fsys", [0xc0, 0, 0, 1], &[0x00])).unwrap();
    assert_eq!(good.get_cmd().unwrap(), "fsys");
    let bad = FeslMessage::from_bytes(framed(&[0xff, 0xfe, 0xfd, 0xfc], [0xc0, 0, 0, 1], &[0x00]))
        .unwrap();
    assert_eq!(bad.get_cmd(), Err(FeslMessageError::ExpectedUtf8));
}

#[test]
fn command_must_be_four_bytes() {
    assert_eq!(
        FeslMessageBuilder::new("sys", FeslMessageType::SingleClient, 1).err().unwrap(),
        FeslMessageError::InvalidCommandLength
    );
    assert_eq!(
        FeslMessageBuilder::new("fsyss", FeslMessageType::SingleClient, 1).err().unwrap(),
        FeslMessageError::InvalidCommandLength
    );
}

#[test]
fn builder_masks_large_ids() {
    let b = FeslMessageBuilder::new("fsys", FeslMessageType::SingleClient, 0xffff_ffff).unwrap();
    let m = b.build();
    assert_eq!(m.get_id(), 0x0fff_ffff);
    assert_eq!(m.get_type().unwrap(), FeslMessageType::SingleClient);
}

#[test]
fn length_field_is_validated() {
    assert_eq!(
        FeslMessage::from_bytes(vec![0u8; 12]).err().unwrap(),
        FeslMessageError::InvalidLength
    );
    assert_eq!(FeslMessage::from_bytes(Vec::new()).err().unwrap(), FeslMessageError::InvalidLength);
    let mut short = framed(b"abcd", [0xc0, 0, 0, 0], b"A=B\n\x00");
    short[11] = 5;
    assert_eq!(FeslMessage::from_bytes(short).err().unwrap(), FeslMessageError::InvalidLength);
}

#[test]
fn header_announces_body_length() {
    let data = framed(b"fsys", [0xc0, 0, 0, 1], b"TXN=Hello\n\x00");
    assert_eq!(FeslMessage::body_len_from_header(&data[..12]).unwrap(), 11);
    let mut bad = data.clone();
    bad[8] = 0;
    bad[9] = 0;
    bad[10] = 0;
    bad[11] = 11;
    assert_eq!(
        FeslMessage::body_len_from_header(&bad[..12]).err().unwrap(),
        FeslMessageError::InvalidLength
    );
}
