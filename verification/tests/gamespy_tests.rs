use gamewire::gamespy::{
    GameSpyPacket, GameSpyPacketBuilder, GameSpyPacketError, GameSpyPacketFramer,
};

#[test]
fn gamename_example_builds_and_parses() {
    let mut b = GameSpyPacketBuilder::new();
    b.push("gamename", "bfield1942");
    let p = b.build();
    assert_eq!(p.as_bytes(), b"\\gamename\\bfield1942\\final\\");
    assert_eq!(p.as_bytes().len(), 27);
    let mut it = p.iter();
    assert_eq!(it.next().unwrap().unwrap(), ("gamename", "bfield1942"));
    assert!(it.next().is_none());
}

#[test]
fn round_trip_preserves_order() {
    let mut b = GameSpyPacketBuilder::new();
    b.push("hostname", "my server");
    b.push("numplayers", "12");
    b.push("final", "not the end");
    let p = b.build();
    let reparsed = GameSpyPacket::from_box(p.as_bytes().to_vec());
    let mut it = reparsed.iter();
    assert_eq!(it.next().unwrap().unwrap(), ("hostname", "my server"));
    assert_eq!(it.next().unwrap().unwrap(), ("numplayers", "12"));
    assert_eq!(it.next().unwrap().unwrap(), ("final", "not the end"));
    assert!(it.next().is_none());
}

#[test]
fn empty_packet_ends_cleanly() {
    let p = GameSpyPacketBuilder::new().build();
    assert_eq!(p.as_bytes(), b"\\final\\");
    let mut it = p.iter();
    assert!(it.next().is_none());
}

#[test]
fn last_value_may_run_to_end_of_body() {
    let p = GameSpyPacket::from_box(b"\\k\\vvv\\final\\".to_vec());
    let mut it = p.iter();
    assert_eq!(it.next().unwrap().unwrap(), ("k", "vvv"));
    assert!(it.next().is_none());
}

#[test]
fn missing_leading_backslash_poisons() {
    let p = GameSpyPacket::from_box(b"junk\\final\\".to_vec());
    let mut it = p.iter();
    assert_eq!(it.next().unwrap(), Err(GameSpyPacketError::ExpectedDelimiter));
    assert!(it.next().is_none());
    assert!(it.next().is_none());
}

#[test]
fn key_without_value_yields_delimiter_error() {
    let p = GameSpyPacket::from_box(b"\\key\\final\\".to_vec());
    let mut it = p.iter();
    assert_eq!(it.next().unwrap(), Err(GameSpyPacketError::ExpectedDelimiter));
    assert!(it.next().is_none());
}

#[test]
fn invalid_utf8_token_yields_utf8_error() {
    let p = GameSpyPacket::from_box(b"\\\xff\\x\\final\\".to_vec());
    let mut it = p.iter();
    assert_eq!(it.next().unwrap(), Err(GameSpyPacketError::ExpectedUtf8));
    assert!(it.next().is_none());
}

#[test]
fn framer_splits_two_packets_in_one_chunk() {
    let mut b1 = GameSpyPacketBuilder::new();
    b1.push("first", "1");
    let p1 = b1.build();
    let mut b2 = GameSpyPacketBuilder::new();
    b2.push("second", "2");
    let p2 = b2.build();
    let mut stream = p1.as_bytes().to_vec();
    stream.extend_from_slice(p2.as_bytes());

    let mut f = GameSpyPacketFramer::new();
    let (used1, out1) = f.feed(&stream);
    assert_eq!(used1, p1.as_bytes().len());
    let got1 = out1.unwrap();
    assert_eq!(got1.as_bytes(), p1.as_bytes());
    assert!(got1.as_bytes().ends_with(b"\\final\\"));

    let (used2, out2) = f.feed(&stream[used1..]);
    assert_eq!(used2, p2.as_bytes().len());
    let got2 = out2.unwrap();
    assert_eq!(got2.as_bytes(), p2.as_bytes());
    assert!(got2.as_bytes().ends_with(b"\\final\\"));
}

#[test]
fn framer_reassembles_terminator_across_chunks() {
    let whole = b"\\status\\ok\\final\\";
    let (a, b) = whole.split_at(whole.len() - 4);
    assert!(a.ends_with(b"\\fi"));
    assert_eq!(b, b"nal\\");
    let mut f = GameSpyPacketFramer::new();
    let (used_a, out_a) = f.feed(a);
    assert_eq!(used_a, a.len());
    assert!(out_a.is_none());
    let (used_b, out_b) = f.feed(b);
    assert_eq!(used_b, b.len());
    assert_eq!(out_b.unwrap().as_bytes(), &whole[..]);
}

#[test]
fn framer_restarts_match_on_false_terminator_prefix() {
    let whole = b"\\key\\a\\fin\\final\\";
    let mut f = GameSpyPacketFramer::new();
    let (used, out) = f.feed(whole);
    assert_eq!(used, whole.len());
    assert_eq!(out.unwrap().as_bytes(), &whole[..]);
}

#[test]
fn framer_stops_at_terminator_and_leaves_the_rest() {
    let chunk = b"\\a\\b\\final\\XYZ";
    let mut f = GameSpyPacketFramer::new();
    let (used, out) = f.feed(chunk);
    assert_eq!(used, 11);
    assert_eq!(out.unwrap().as_bytes(), b"\\a\\b\\final\\");
    let (used_rest, out_rest) = f.feed(&chunk[used..]);
    assert_eq!(used_rest, 3);
    assert!(out_rest.is_none());
}

#[test]
fn framer_buffers_partial_input_without_emitting() {
    let mut f = GameSpyPacketFramer::new();
    let (used_empty, out_empty) = f.feed(b"");
    assert_eq!(used_empty, 0);
    assert!(out_empty.is_none());
    let (used, out) = f.feed(b"\\key\\va");
    assert_eq!(used, 7);
    assert!(out.is_none());
    let (used_mid, out_mid) = f.feed(b"lue\\fina");
    assert_eq!(used_mid, 8);
    assert!(out_mid.is_none());
}
