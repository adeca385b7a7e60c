use querystring::decode::Decoded;
use querystring::duplicate::DuplicateQueryString;

#[test]
fn duplicate_parse_pair() {
    let slice = b"key=value";

    let parser = DuplicateQueryString::parse(slice);

    assert_eq!(parser.keys(), vec![&Decoded::Borrowed(b"key")]);
    assert_eq!(
        parser.values(b"key"),
        Some(vec![Some(Decoded::Borrowed("value".as_bytes()))])
    );
    assert_eq!(
        parser.value(b"key"),
        Some(Some(Decoded::Borrowed("value".as_bytes())))
    );

    assert_eq!(parser.values(b"test"), None);
}

#[test]
fn duplicate_parse_multiple_pairs() {
    let slice = b"foo=bar&foobar=baz&qux=box";

    let parser = DuplicateQueryString::parse(slice);

    assert_eq!(
        parser.values(b"foo"),
        Some(vec![Some(Decoded::Borrowed(b"bar"))])
    );
    assert_eq!(
        parser.values(b"foobar"),
        Some(vec![Some(Decoded::Borrowed(b"baz"))])
    );
    assert_eq!(
        parser.values(b"qux"),
        Some(vec![Some(Decoded::Borrowed(b"box"))])
    );
}

#[test]
fn duplicate_parse_no_value() {
    let slice = b"foo&foobar=";

    let parser = DuplicateQueryString::parse(slice);

    assert_eq!(parser.values(b"foo"), Some(vec![None]));
    assert_eq!(
        parser.values(b"foobar"),
        Some(vec![Some(Decoded::Borrowed(b""))])
    );
}

#[test]
fn duplicate_parse_multiple_values() {
    let slice = b"foo=bar&foo=baz&foo=foobar&foo&foo=";

    let parser = DuplicateQueryString::parse(slice);

    assert_eq!(
        parser.values(b"foo"),
        Some(vec![
            Some(Decoded::Borrowed(b"bar")),
            Some(Decoded::Borrowed(b"baz")),
            Some(Decoded::Borrowed(b"foobar")),
            None,
            Some(Decoded::Borrowed(b""))
        ])
    );

    assert_eq!(parser.value(b"foo"), Some(Some(Decoded::Borrowed(b""))));
}

#[test]
fn duplicate_decoded_keys_group_together() {
    let parser = DuplicateQueryString::parse(b"v%61lu%65=1&valu%65=2&value=3");

    assert_eq!(parser.keys(), vec![&Decoded::Owned(b"value".to_vec())]);
    assert_eq!(
        parser.values(b"value"),
        Some(vec![
            Some(Decoded::Borrowed(b"1")),
            Some(Decoded::Borrowed(b"2")),
            Some(Decoded::Borrowed(b"3"))
        ])
    );
    assert_eq!(parser.values(b"valu%65"), None);
}

#[test]
fn duplicate_values_are_decoded() {
    let parser = DuplicateQueryString::parse(b"a=%41%2b&a=x%zz");

    assert_eq!(
        parser.values(b"a"),
        Some(vec![
            Some(Decoded::Owned(b"A+".to_vec())),
            Some(Decoded::Borrowed(b"x%zz"))
        ])
    );
    assert_eq!(
        parser.raw_values(b"a"),
        Some(vec![Some(&b"%41%2b"[..]), Some(&b"x%zz"[..])])
    );
    assert_eq!(parser.raw_value(b"a"), Some(Some(&b"x%zz"[..])));
    assert_eq!(parser.raw_value(b"b"), None);
    assert_eq!(parser.raw_values(b"b"), None);
}

#[test]
fn duplicate_last_value_without_equals() {
    let parser = DuplicateQueryString::parse(b"k=1&k");

    assert_eq!(parser.value(b"k"), Some(None));
    assert_eq!(parser.raw_value(b"k"), Some(None));
}

#[test]
fn duplicate_keys_are_sorted() {
    let parser = DuplicateQueryString::parse(b"b=1&a=2&c&ab=3&a=4");

    assert_eq!(
        parser.keys(),
        vec![
            &Decoded::Borrowed(b"a"),
            &Decoded::Borrowed(b"ab"),
            &Decoded::Borrowed(b"b"),
            &Decoded::Borrowed(b"c")
        ]
    );
    assert_eq!(
        parser.values(b"a"),
        Some(vec![Some(Decoded::Borrowed(b"2")), Some(Decoded::Borrowed(b"4"))])
    );
}

#[test]
fn duplicate_empty_input_has_no_keys() {
    let parser = DuplicateQueryString::parse(b"");

    assert!(parser.keys().is_empty());
    assert_eq!(parser.values(b""), None);
}

#[test]
fn duplicate_plain_input_is_one_key() {
    let parser = DuplicateQueryString::parse(b"plain.key-1");

    assert_eq!(parser.keys(), vec![&Decoded::Borrowed(b"plain.key-1")]);
    assert_eq!(parser.values(b"plain.key-1"), Some(vec![None]));
}

#[test]
fn duplicate_empty_segments() {
    let parser = DuplicateQueryString::parse(b"&&=x&");

    assert_eq!(parser.keys(), vec![&Decoded::Borrowed(b"")]);
    assert_eq!(
        parser.values(b""),
        Some(vec![None, None, Some(Decoded::Borrowed(b"x"))])
    );
}

#[test]
fn duplicate_unrelated_key_order_does_not_matter() {
    let one = DuplicateQueryString::parse(b"a=1&b=x&a=2&c=y");
    let two = DuplicateQueryString::parse(b"c=y&a=1&a=2&b=x");

    assert_eq!(one.values(b"a"), two.values(b"a"));
    assert_eq!(one.keys(), two.keys());
}

#[test]
fn duplicate_into_iter_gives_raw_values() {
    let parser = DuplicateQueryString::parse(b"z=%31&a&z=2");
    let groups = parser.into_iter();

    assert_eq!(groups.len(), 2);
    assert_eq!(groups[0].0, Decoded::Borrowed(b"a"));
    assert_eq!(groups[0].1, vec![&b""[..]]);
    assert_eq!(groups[1].0, Decoded::Borrowed(b"z"));
    assert_eq!(groups[1].1, vec![&b"%31"[..], &b"2"[..]]);
}
