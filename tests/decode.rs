use querystring::decode::{parse_bytes, parse_char, Decoded};

#[test]
fn plain_bytes_are_borrowed() {
    let input: &[u8] = b"no escapes here";
    match parse_bytes(input) {
        Decoded::Borrowed(s) => assert!(std::ptr::eq(s, input)),
        Decoded::Owned(_) => panic!("plain input was copied"),
    }
}

#[test]
fn escapes_are_decoded() {
    assert_eq!(parse_bytes(b"a%20b%2Fc"), Decoded::Owned(b"a b/c".to_vec()));
    assert_eq!(parse_bytes(b"%5b%5D"), Decoded::Owned(b"[]".to_vec()));
}

#[test]
fn invalid_escapes_pass_through() {
    assert_eq!(parse_bytes(b"100%"), Decoded::Borrowed(b"100%"));
    assert_eq!(parse_bytes(b"%4"), Decoded::Borrowed(b"%4"));
    assert_eq!(parse_bytes(b"%g1"), Decoded::Borrowed(b"%g1"));
    assert_eq!(parse_bytes(b"%%41"), Decoded::Owned(b"%A".to_vec()));
}

#[test]
fn decoded_length_can_shrink() {
    let d = parse_bytes(b"%41%42%43");
    assert_eq!(d.as_slice(), b"ABC");
}

#[test]
fn hex_pairs() {
    assert_eq!(parse_char(b'5', b'B'), Some(b'['));
    assert_eq!(parse_char(b'5', b'd'), Some(b']'));
    assert_eq!(parse_char(b'f', b'F'), Some(255));
    assert_eq!(parse_char(b'0', b'0'), Some(0));
    assert_eq!(parse_char(b'g', b'0'), None);
    assert_eq!(parse_char(b'0', b':'), None);
}
