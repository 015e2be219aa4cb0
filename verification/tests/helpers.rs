use rust_orbitdb_core::bytes::{bytes_lt, push_all};
use rust_orbitdb_core::cbor::{encode_ipld, push_be, push_head, push_text, push_text_list};
use rust_orbitdb_core::ipld::copy_ipld;
use rust_orbitdb_core::{EncodeError, Ipld};

#[test]
fn bytes_lt_is_lexicographic() {
    assert!(bytes_lt(b"a", b"b"));
    assert!(!bytes_lt(b"b", b"a"));
    assert!(bytes_lt(b"ab", b"abc"));
    assert!(!bytes_lt(b"abc", b"ab"));
    assert!(!bytes_lt(b"abc", b"abc"));
    assert!(bytes_lt(b"", b"a"));
    assert!(!bytes_lt(b"", b""));
    assert!(bytes_lt(b"b", b"ba"));
    assert!(!bytes_lt(b"ba", b"b"));
    assert!(bytes_lt(&[0x7f], &[0x80]));
}

#[test]
fn push_all_appends() {
    let mut out = vec![1u8, 2];
    push_all(&mut out, &[3, 4, 5]);
    assert_eq!(out, vec![1, 2, 3, 4, 5]);
    push_all(&mut out, &[]);
    assert_eq!(out, vec![1, 2, 3, 4, 5]);
}

#[test]
fn heads_take_the_shortest_form() {
    let cases: Vec<(u8, u64, Vec<u8>)> = vec![
        (0, 0, vec![0x00]),
        (0, 23, vec![0x17]),
        (0, 24, vec![0x18, 0x18]),
        (3, 5, vec![0x65]),
        (4, 300, vec![0x99, 0x01, 0x2c]),
        (5, 70000, vec![0xba, 0x00, 0x01, 0x11, 0x70]),
        (2, u64::MAX, vec![0x5b, 0xff, 0xff, 0xff, 0xff, 0xff, 0xff, 0xff, 0xff]),
    ];
    for (major, n, want) in cases {
        let mut out = Vec::new();
        push_head(&mut out, major, n);
        assert_eq!(out, want, "major {major} n {n}");
    }
    let mut out = Vec::new();
    push_be(&mut out, 0x0102030405060708, 3);
    assert_eq!(out, vec![0x06, 0x07, 0x08]);
}

#[test]
fn texts_and_text_lists() {
    let mut out = Vec::new();
    push_text(&mut out, "h\u{e9}");
    assert_eq!(out, vec![0x63, b'h', 0xc3, 0xa9]);
    let mut out = Vec::new();
    push_text_list(&mut out, &vec!["a".to_string(), "bc".to_string()]);
    assert_eq!(out, vec![0x82, 0x61, b'a', 0x62, b'b', b'c']);
}

#[test]
fn encode_ipld_appends_or_fails() {
    let mut out = vec![0xff];
    encode_ipld(&Ipld::Bool(true), &mut out).unwrap();
    assert_eq!(out, vec![0xff, 0xf5]);
    let mut out = Vec::new();
    assert_eq!(
        encode_ipld(&Ipld::Integer(1i128 << 70), &mut out),
        Err(EncodeError::IntegerOutOfRange)
    );
    let mut out = Vec::new();
    encode_ipld(&Ipld::Bytes(vec![9, 8]), &mut out).unwrap();
    assert_eq!(out, vec![0x42, 9, 8]);
}

#[test]
fn copies_are_equal() {
    let v = Ipld::Mapping(vec![(
        "k".to_string(),
        Ipld::List(vec![Ipld::Float(2.0f64.to_bits()), Ipld::Link(vec![1, 2, 3])]),
    )]);
    assert_eq!(copy_ipld(&v), v);
    assert_eq!(v.clone(), v);
}
