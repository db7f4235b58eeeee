use dop::path::{decode, encode, try_decode, PathEntry};

#[test]
fn test_encode() {
    assert_eq!(
        encode(&vec![
            PathEntry::Field("foo".to_string()),
            PathEntry::Field("bar".to_string())
        ]),
        "foo.bar",
    );

    assert_eq!(
        encode(&vec![
            PathEntry::Field("foo".to_string()),
            PathEntry::IndexNew,
        ]),
        "foo[]",
    );

    assert_eq!(
        encode(&vec![
            PathEntry::Field("foo".to_string()),
            PathEntry::Index(10),
            PathEntry::Field("bar".to_string())
        ]),
        "foo[10].bar",
    );

    assert_eq!(
        encode(&vec![PathEntry::Index(1), PathEntry::Index(2),]),
        "[1][2]",
    );
}

#[test]
fn test_decode_valid_cases() {
    assert_eq!(
        decode("foo.bar"),
        Some(vec![
            PathEntry::Field("foo".to_string()),
            PathEntry::Field("bar".to_string())
        ]),
    );

    assert_eq!(
        decode("foo.bar[10]"),
        Some(vec![
            PathEntry::Field("foo".to_string()),
            PathEntry::Field("bar".to_string()),
            PathEntry::Index(10),
        ]),
    );

    assert_eq!(
        decode("foo.bar[]"),
        Some(vec![
            PathEntry::Field("foo".to_string()),
            PathEntry::Field("bar".to_string()),
            PathEntry::IndexNew,
        ]),
    );

    assert_eq!(
        decode("foo.bar[10][20]"),
        Some(vec![
            PathEntry::Field("foo".to_string()),
            PathEntry::Field("bar".to_string()),
            PathEntry::Index(10),
            PathEntry::Index(20),
        ]),
    );

    assert_eq!(
        decode("foo.bar[10][20].foo"),
        Some(vec![
            PathEntry::Field("foo".to_string()),
            PathEntry::Field("bar".to_string()),
            PathEntry::Index(10),
            PathEntry::Index(20),
            PathEntry::Field("foo".to_string()),
        ]),
    );

    assert_eq!(
        decode("[0][3].foo"),
        Some(vec![
            PathEntry::Index(0),
            PathEntry::Index(3),
            PathEntry::Field("foo".to_string()),
        ]),
    );
}

#[test]
fn test_decode_invalid_cases() {
    for invalid_case in vec![
        "foo[bar]",
        "foo[1bar2]",
        "foo.[",
        "foo.]",
        "foo.[0]",
        "foo.]bar",
    ] {
        assert_eq!(decode(invalid_case), None);
    }
}

#[test]
fn decode_reads_back_encoded_paths() {
    let paths = vec![
        vec![PathEntry::Field("a".to_string())],
        vec![
            PathEntry::Index(0),
            PathEntry::Field("key_1".to_string()),
            PathEntry::IndexNew,
        ],
        vec![
            PathEntry::Field("x".to_string()),
            PathEntry::Index(123456),
            PathEntry::Index(7),
            PathEntry::Field("y".to_string()),
        ],
        vec![PathEntry::Index(usize::MAX)],
    ];
    for p in paths {
        assert_eq!(decode(&encode(&p)), Some(p));
    }
}

#[test]
fn decode_edge_cases() {
    // The empty text is one empty field.
    assert_eq!(decode(""), Some(vec![PathEntry::Field(String::new())]));
    // A leading dot opens no field.
    assert_eq!(decode(".a"), Some(vec![PathEntry::Field("a".to_string())]));
    // Two dots in a row give an empty field between them.
    assert_eq!(
        decode("a..b"),
        Some(vec![
            PathEntry::Field("a".to_string()),
            PathEntry::Field(String::new()),
            PathEntry::Field("b".to_string()),
        ])
    );
    // A trailing dot after an index gives an empty field.
    assert_eq!(
        decode("[1]."),
        Some(vec![PathEntry::Index(1), PathEntry::Field(String::new())])
    );
    // Digits before `]` outside brackets still read as an index.
    assert_eq!(
        decode("a.12]"),
        Some(vec![PathEntry::Field("a".to_string()), PathEntry::Index(12)])
    );
    // Leading zeros are read as in `usize` parsing.
    assert_eq!(
        decode("a[007]"),
        Some(vec![PathEntry::Field("a".to_string()), PathEntry::Index(7)])
    );
}

#[test]
fn try_decode_reports_stuck_texts() {
    assert_eq!(try_decode("foo]"), Err(()));
    assert_eq!(try_decode("a[99999999999999999999999]"), Err(()));
    assert_eq!(try_decode("foo[bar]"), Ok(None));
    assert_eq!(
        try_decode("a[1]"),
        Ok(Some(vec![PathEntry::Field("a".to_string()), PathEntry::Index(1)]))
    );
}

#[test]
fn decode_refuses_stuck_texts_without_panicking() {
    assert_eq!(decode("foo]"), None);
    assert_eq!(decode("list[99999999999999999999]"), None);
    assert_eq!(decode("a[1x]"), None);
}

#[test]
fn canonical_texts_read_and_write_back() {
    for text in ["a", "a.b", "[0]", "[]", "a[10][]", "list[3].name", "x[18446744073709551615]"] {
        let path = decode(text).unwrap();
        assert_eq!(dop::path::encode(&path), text);
    }
}
