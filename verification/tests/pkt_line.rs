use git_sleipnir::pkt_line::PktLine;

#[test]
fn test() {
    assert_eq!(
        PktLine::new().add(b"foo").add(b"bar").take().as_slice(),
        b"0007foo0007bar"
    );

    assert_eq!(
        PktLine::new()
            .add(b"x")
            .delimit()
            .add(b"abcd")
            .flush()
            .take()
            .as_slice(),
        b"0005x00010008abcd0000"
    );
}

#[test]
fn encode_empty_payload() {
    assert_eq!(PktLine::new().add(b"").take().as_slice(), b"0004");
}

#[test]
fn encode_hex_digits_above_nine() {
    let payload = [0u8; 26];
    let out = PktLine::new().add(&payload).take();
    assert_eq!(&out[..4], b"001e");
}
