use git_sleipnir::decoder::{GitPacketLine, PktDecoder, PktError};
use git_sleipnir::pkt_line::PktLine;
use git_sleipnir::sideband::SideBand;

fn drain(d: &mut PktDecoder) -> Vec<Result<GitPacketLine, PktError>> {
    let mut out = Vec::new();
    while let Some(item) = d.next() {
        out.push(item);
    }
    out
}

#[test]
fn test_flush_packet() {
    let mut d = PktDecoder::new();
    d.feed(b"0000");
    let result = d.next().unwrap().unwrap();
    matches!(result, GitPacketLine::Flush);
}

#[test]
fn test_delimiter_packet() {
    let mut d = PktDecoder::new();
    d.feed(b"0001");
    let result = d.next().unwrap().unwrap();
    matches!(result, GitPacketLine::Delimiter);
}

#[test]
fn test_data_packet_single_chunk() {
    let mut d = PktDecoder::new();
    d.feed(b"000afoobar");
    let result = d.next().unwrap().unwrap();
    match result {
        GitPacketLine::Data(v) => assert_eq!(&v[..], b"foobar"),
        _ => panic!("Expected Data packet"),
    }
}

#[test]
fn test_data_packet_split_chunks() {
    let mut d = PktDecoder::new();
    d.feed(b"000a");
    assert!(d.next().is_none());
    d.feed(b"foo");
    assert!(d.next().is_none());
    d.feed(b"bar");
    let result = d.next().unwrap().unwrap();
    match result {
        GitPacketLine::Data(v) => assert_eq!(&v[..], b"foobar"),
        _ => panic!("Expected Data packet"),
    }
}

#[test]
fn test_multiple_packet_lines() {
    let mut d = PktDecoder::new();
    d.feed(b"000afoo123");
    d.feed(b"000abar456");
    d.feed(b"0000");
    let res: Vec<_> = drain(&mut d).into_iter().map(|x| x.unwrap()).collect();
    assert_eq!(
        res,
        [
            GitPacketLine::Data(b"foo123".to_vec()),
            GitPacketLine::Data(b"bar456".to_vec()),
            GitPacketLine::Flush,
        ]
    );
}

#[test]
fn test_sideband_parsing() {
    let band = SideBand::from(b"\x02remote message".to_vec());
    match band {
        SideBand::Progress(msg) => assert_eq!(msg, "remote message"),
        _ => panic!("Expected Progress message"),
    }
}

#[test]
fn test_invalid_length_non_hex() {
    let mut d = PktDecoder::new();
    d.feed(b"zzzzfoobar");
    let result = d.next();
    assert!(result.unwrap().is_err());
}

#[test]
fn test_too_short_length_0002() {
    let mut d = PktDecoder::new();
    d.feed(b"0002");
    let result = d.next();
    assert!(result.unwrap().is_err());
}

#[test]
fn test_too_short_length_0003() {
    let mut d = PktDecoder::new();
    d.feed(b"0003");
    let result = d.next();
    assert!(result.unwrap().is_err());
}

#[test]
fn test_unexpected_eof() {
    let mut d = PktDecoder::new();
    d.feed(b"000afoo");
    assert!(d.next().is_none());
    assert_eq!(d.eof_error(), Some(PktError::UnexpectedEof));
}

#[test]
fn test_multiple_packet_lines_builder() {
    let pkt = PktLine::new()
        .add(b"foo123")
        .add(b"bar456")
        .delimit()
        .add(b"baz789")
        .flush()
        .take();
    let mut d = PktDecoder::new();
    d.feed(pkt.as_slice());
    let res: Vec<_> = drain(&mut d).into_iter().map(|x| x.unwrap()).collect();
    assert_eq!(
        res,
        [
            GitPacketLine::Data(b"foo123".to_vec()),
            GitPacketLine::Data(b"bar456".to_vec()),
            GitPacketLine::Delimiter,
            GitPacketLine::Data(b"baz789".to_vec()),
            GitPacketLine::Flush,
        ]
    );
}

#[test]
fn length_0004_is_empty_data() {
    let mut d = PktDecoder::new();
    d.feed(b"0004");
    let result = d.next().unwrap().unwrap();
    assert_eq!(result, GitPacketLine::Data(Vec::new()));
}

#[test]
fn reserved_lengths_give_invalid_frame() {
    let mut d = PktDecoder::new();
    d.feed(b"0002");
    assert_eq!(d.next(), Some(Err(PktError::InvalidFrame)));
    d.feed(b"0003");
    assert_eq!(d.next(), Some(Err(PktError::InvalidFrame)));
    d.feed(b"zzzz");
    assert_eq!(d.next(), Some(Err(PktError::InvalidHexLength)));
}

#[test]
fn clean_eof_with_empty_buffer() {
    let mut d = PktDecoder::new();
    d.feed(b"0000");
    assert_eq!(d.next(), Some(Ok(GitPacketLine::Flush)));
    assert_eq!(d.next(), None);
    assert_eq!(d.eof_error(), None);
}

#[test]
fn chunking_does_not_change_decoded_items() {
    let stream = b"0008abcd00010007xyz0000";
    let mut whole = PktDecoder::new();
    whole.feed(stream);
    let all_at_once: Vec<_> = drain(&mut whole);

    for cut in 0..stream.len() {
        let mut split = PktDecoder::new();
        let mut items = Vec::new();
        split.feed(&stream[..cut]);
        items.extend(drain(&mut split));
        split.feed(&stream[cut..]);
        items.extend(drain(&mut split));
        assert_eq!(items, all_at_once, "chunking at {} changed the items", cut);
    }
}

#[test]
fn round_trip_single_frame() {
    let payload = b"some payload \x01\x02\x03";
    let encoded = PktLine::new().add(payload).take();
    let mut d = PktDecoder::new();
    d.feed(encoded.as_slice());
    assert_eq!(d.next(), Some(Ok(GitPacketLine::Data(payload.to_vec()))));
    assert_eq!(d.next(), None);
    assert_eq!(d.eof_error(), None);
}

#[test]
fn sideband_channels() {
    match SideBand::from(b"\x01PACK".to_vec()) {
        SideBand::PackData(p) => assert_eq!(p, b"PACK".to_vec()),
        _ => panic!("Expected pack data"),
    }
    match SideBand::from(b"\x03oops".to_vec()) {
        SideBand::ErrorMessage(m) => assert_eq!(m, "oops"),
        _ => panic!("Expected error message"),
    }
    match SideBand::from(b"\x7fdata".to_vec()) {
        SideBand::Unknown(b) => assert_eq!(b, b"\x7fdata".to_vec()),
        _ => panic!("Expected unknown channel"),
    }
    match SideBand::from(Vec::new()) {
        SideBand::Unknown(b) => assert!(b.is_empty()),
        _ => panic!("Expected unknown channel"),
    }
}
