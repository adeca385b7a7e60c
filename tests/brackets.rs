use querystring::brackets::BracketsQS;
use querystring::decode::Decoded;

#[test]
fn brackets_parse_pair() {
    let slice = b"key=value";

    let parser = BracketsQS::parse(slice);

    assert_eq!(parser.keys(), vec![&Decoded::Borrowed(b"key")]);
    assert_eq!(
        parser.values(b"key"),
        Some(vec![Some(Decoded::Borrowed("value".as_bytes()))])
    );
    assert_eq!(
        parser.value(b"key"),
        Some(Some(Decoded::Borrowed("value".as_bytes())))
    );

    assert_eq!(parser.values(b"test"), None);
}

#[test]
fn brackets_parse_multiple_pairs() {
    let slice = b"foo=bar&foobar=baz&qux=box";

    let parser = BracketsQS::parse(slice);

    assert_eq!(
        parser.values(b"foo"),
        Some(vec![Some(Decoded::Borrowed(b"bar"))])
    );
    assert_eq!(
        parser.values(b"foobar"),
        Some(vec![Some(Decoded::Borrowed(b"baz"))])
    );
    assert_eq!(
        parser.values(b"qux"),
        Some(vec![Some(Decoded::Borrowed(b"box"))])
    );
}

#[test]
fn brackets_parse_no_value() {
    let slice = b"foo&foobar=";

    let parser = BracketsQS::parse(slice);

    assert_eq!(parser.values(b"foo"), Some(vec![None]));
    assert_eq!(
        parser.values(b"foobar"),
        Some(vec![Some(Decoded::Borrowed(b""))])
    );
}

#[test]
fn brackets_parse_multiple_values() {
    let slice = b"foo=bar&foo=baz&foo=foobar&foo&foo=";

    let parser = BracketsQS::parse(slice);

    assert_eq!(
        parser.values(b"foo"),
        Some(vec![
            Some(Decoded::Borrowed(b"bar")),
            Some(Decoded::Borrowed(b"baz")),
            Some(Decoded::Borrowed(b"foobar")),
            None,
            Some(Decoded::Borrowed(b""))
        ])
    );

    assert_eq!(parser.value(b"foo"), Some(Some(Decoded::Borrowed(b""))));
}

#[test]
fn parse_subkeys() {
    let slice = b"foo[bar]=baz&foo[bar]=buzz&foo[foobar]=qux&foo=bar";

    let parser = BracketsQS::parse(slice);

    assert_eq!(
        parser.values(b"foo"),
        Some(vec![Some(Decoded::Borrowed(b"bar"))])
    );

    let foo_values = parser.sub_values(b"foo");
    assert!(foo_values.is_some());

    let foo_values = foo_values.unwrap();

    assert_eq!(
        foo_values.values(b"bar"),
        Some(vec![
            Some(Decoded::Borrowed(b"baz")),
            Some(Decoded::Borrowed(b"buzz"))
        ])
    );

    assert_eq!(
        foo_values.values(b"foobar"),
        Some(vec![Some(Decoded::Borrowed(b"qux"))])
    )
}

#[test]
fn parse_invalid() {
    // Trailing bytes after a closing bracket are ignored.

    let slice = b"foo[bar]xyz=baz&foo[bar][xyz=buzz&foo[foobar]xyz]=qux&foo[xyz=bar";

    let parser = BracketsQS::parse(slice);

    assert_eq!(
        parser.values(b"foo"),
        Some(vec![Some(Decoded::Borrowed(b"bar"))])
    );

    let foo_values = parser.sub_values(b"foo");
    assert!(foo_values.is_some());

    let foo_values = foo_values.unwrap();

    assert_eq!(
        foo_values.values(b"bar"),
        Some(vec![
            Some(Decoded::Borrowed(b"baz")),
            Some(Decoded::Borrowed(b"buzz"))
        ])
    );

    assert_eq!(
        foo_values.values(b"foobar"),
        Some(vec![Some(Decoded::Borrowed(b"qux"))])
    )
}

#[test]
fn brackets_encoded_brackets_nest() {
    let parser = BracketsQS::parse(b"a%5Bb%5d%5bc%5D=1&a[b][d]=2&a[b]=3");

    assert_eq!(parser.keys(), vec![&Decoded::Borrowed(b"a")]);
    assert_eq!(parser.values(b"a"), Some(vec![]));
    assert_eq!(parser.value(b"a"), None);

    let a = parser.sub_values(b"a").unwrap();
    assert_eq!(a.keys(), vec![&Decoded::Borrowed(b"b")]);
    assert_eq!(a.values(b"b"), Some(vec![Some(Decoded::Borrowed(b"3"))]));

    let b = a.sub_values(b"b").unwrap();
    assert_eq!(
        b.keys(),
        vec![&Decoded::Borrowed(b"c"), &Decoded::Borrowed(b"d")]
    );
    assert_eq!(b.values(b"c"), Some(vec![Some(Decoded::Borrowed(b"1"))]));
    assert_eq!(b.value(b"d"), Some(Some(Decoded::Borrowed(b"2"))));
    assert_eq!(b.sub_values(b"c").unwrap().keys().len(), 0);
    assert!(b.sub_values(b"x").is_none());
}

#[test]
fn brackets_value_takes_last_leaf() {
    let parser = BracketsQS::parse(b"k=1&k[x]=2&k=3&k[y]=4");

    assert_eq!(parser.value(b"k"), Some(Some(Decoded::Borrowed(b"3"))));
    assert_eq!(
        parser.values(b"k"),
        Some(vec![
            Some(Decoded::Borrowed(b"1")),
            Some(Decoded::Borrowed(b"3"))
        ])
    );
}

#[test]
fn brackets_decoded_keys_group_together() {
    let parser = BracketsQS::parse(b"v%61lu%65=1&valu%65=2&value=3");

    assert_eq!(
        parser.values(b"value"),
        Some(vec![
            Some(Decoded::Borrowed(b"1")),
            Some(Decoded::Borrowed(b"2")),
            Some(Decoded::Borrowed(b"3"))
        ])
    );
}

#[test]
fn brackets_unclosed_bracket_is_a_leaf() {
    let parser = BracketsQS::parse(b"a[b=1");

    assert_eq!(parser.values(b"a"), Some(vec![Some(Decoded::Borrowed(b"1"))]));
    let sub = parser.sub_values(b"a").unwrap();
    assert_eq!(sub.values(b"b"), Some(vec![Some(Decoded::Borrowed(b"1"))]));
}

#[test]
fn brackets_nonexistent_key() {
    let parser = BracketsQS::parse(b"a[b]=1&c=2");

    assert_eq!(parser.values(b"nonexistent"), None);
    assert_eq!(parser.value(b"nonexistent"), None);
    assert!(parser.sub_values(b"nonexistent").is_none());
}

#[test]
fn brackets_plain_input_is_one_key() {
    let parser = BracketsQS::parse(b"plain.key-1");

    assert_eq!(parser.keys(), vec![&Decoded::Borrowed(b"plain.key-1")]);
    assert_eq!(parser.values(b"plain.key-1"), Some(vec![None]));
}

#[test]
fn brackets_into_iter_groups_in_key_order() {
    let parser = BracketsQS::parse(b"b[x]=1&a=2&b=3");
    let groups = parser.into_iter();

    assert_eq!(groups.len(), 2);
    assert_eq!(groups[0].0, Decoded::Borrowed(b"a"));
    assert_eq!(groups[0].1 .0.len(), 1);
    assert_eq!(groups[1].0, Decoded::Borrowed(b"b"));
    assert_eq!(groups[1].1 .0.len(), 2);
    assert_eq!(groups[1].1 .0[0].raw_value(), Some(&b"1"[..]));
}

#[test]
fn brackets_from_pairs_descends_one_level() {
    let parser = BracketsQS::parse(b"m[k]=v&m[j]=w&m=top");
    let groups = parser.into_iter();
    let sub = BracketsQS::from_pairs(&groups[0].1 .0);

    assert_eq!(
        sub.keys(),
        vec![&Decoded::Borrowed(b"j"), &Decoded::Borrowed(b"k")]
    );
    assert_eq!(sub.value(b"k"), Some(Some(Decoded::Borrowed(b"v"))));
}

#[test]
fn brackets_unrelated_key_order_does_not_matter() {
    let one = BracketsQS::parse(b"a=1&b[c]=x&a=2&d=y");
    let two = BracketsQS::parse(b"d=y&a=1&a=2&b[c]=x");

    assert_eq!(one.values(b"a"), two.values(b"a"));
    assert_eq!(one.keys(), two.keys());
}

#[test]
fn brackets_escaped_values_are_decoded() {
    let parser = BracketsQS::parse(b"q[%61]=%7e");
    let sub = parser.sub_values(b"q").unwrap();

    assert_eq!(sub.keys(), vec![&Decoded::Owned(b"a".to_vec())]);
    assert_eq!(sub.values(b"a"), Some(vec![Some(Decoded::Owned(b"~".to_vec()))]));
}
