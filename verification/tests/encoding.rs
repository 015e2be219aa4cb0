use ipld_core::cid::Cid;
use ipld_core::ipld::Ipld as CoreIpld;
use rust_orbitdb_core::{cid_of, Clock, EncodeError, Entry, EntryError, Ipld};
use sha2::Digest;
use std::collections::BTreeMap;

fn to_core(v: &Ipld) -> CoreIpld {
    match v {
        Ipld::Null => CoreIpld::Null,
        Ipld::Bool(b) => CoreIpld::Bool(*b),
        Ipld::Integer(i) => CoreIpld::Integer(*i),
        Ipld::Float(bits) => CoreIpld::Float(f64::from_bits(*bits)),
        Ipld::String(s) => CoreIpld::String(s.clone()),
        Ipld::Bytes(b) => CoreIpld::Bytes(b.clone()),
        Ipld::List(items) => CoreIpld::List(items.iter().map(to_core).collect()),
        Ipld::Mapping(entries) => CoreIpld::Map(
            entries
                .iter()
                .map(|(k, v)| (k.clone(), to_core(v)))
                .collect::<BTreeMap<_, _>>(),
        ),
        Ipld::Link(c) => CoreIpld::Link(Cid::try_from(c.as_slice()).unwrap()),
    }
}

fn strings(v: &[String]) -> CoreIpld {
    CoreIpld::List(v.iter().map(|s| CoreIpld::String(s.clone())).collect())
}

fn clock_core(c: &Clock) -> CoreIpld {
    let mut m = BTreeMap::new();
    m.insert("id".to_string(), CoreIpld::String(c.id.clone()));
    m.insert("time".to_string(), CoreIpld::Integer(c.time as i128));
    CoreIpld::Map(m)
}

/// The entry as an IPLD map, encoded by `serde_ipld_dagcbor`.
fn oracle_full(e: &Entry) -> Vec<u8> {
    let mut m = oracle_signed_map(e);
    m.insert("key".to_string(), CoreIpld::String(e.key.clone()));
    m.insert("sig".to_string(), CoreIpld::String(e.sig.clone()));
    m.insert("identity".to_string(), CoreIpld::String(e.identity.clone()));
    serde_ipld_dagcbor::to_vec(&CoreIpld::Map(m)).unwrap()
}

fn oracle_signed_map(e: &Entry) -> BTreeMap<String, CoreIpld> {
    let mut m = BTreeMap::new();
    m.insert("v".to_string(), CoreIpld::Integer(e.v as i128));
    m.insert("id".to_string(), CoreIpld::String(e.id.clone()));
    m.insert("next".to_string(), strings(&e.next));
    m.insert("refs".to_string(), strings(&e.refs));
    m.insert("clock".to_string(), clock_core(&e.clock));
    m.insert("payload".to_string(), to_core(&e.payload));
    m
}

fn oracle_signed(e: &Entry) -> Vec<u8> {
    serde_ipld_dagcbor::to_vec(&CoreIpld::Map(oracle_signed_map(e))).unwrap()
}

fn oracle_value(v: &Ipld) -> Vec<u8> {
    serde_ipld_dagcbor::to_vec(&to_core(v)).unwrap()
}

fn sample_link() -> Vec<u8> {
    let digest = sha2::Sha256::digest(b"linked");
    let mh = multihash::Multihash::<64>::wrap(0x12, &digest).unwrap();
    Cid::new_v1(0x71, mh).to_bytes()
}

fn entry(payload: Ipld) -> Entry {
    Entry {
        v: 2,
        id: "/orbitdb/zdpuAvFi7ZxZ6ZUxP2e4oLhXJYsr8HJp9BL4fWwHEA8JkP1bM".to_string(),
        key: "02d7f1bc7bb4c3a1a2f3d1e1b0d6b9c57a4d0a1e9f7c2b5b5c1e8c1f0e2d3c4b5a".to_string(),
        sig: "3045022100aa".to_string(),
        next: vec!["zdpuAnext1".to_string(), "zdpuAnext2".to_string()],
        refs: vec!["zdpuAref".to_string()],
        clock: Clock {
            id: "02d7f1bc7bb4c3a1".to_string(),
            time: 300,
        },
        payload,
        identity: "zdpuAidentity".to_string(),
    }
}

fn payloads() -> Vec<Ipld> {
    let long = "x".repeat(300);
    vec![
        Ipld::Null,
        Ipld::String("hello".to_string()),
        Ipld::String(long.clone()),
        Ipld::String("\u{e9}t\u{e9} \u{1F600}".to_string()),
        Ipld::Integer(0),
        Ipld::Integer(23),
        Ipld::Integer(24),
        Ipld::Integer(255),
        Ipld::Integer(256),
        Ipld::Integer(65535),
        Ipld::Integer(65536),
        Ipld::Integer(4294967296),
        Ipld::Integer(u64::MAX as i128),
        Ipld::Integer(-1),
        Ipld::Integer(-25),
        Ipld::Integer(-(u64::MAX as i128) - 1),
        Ipld::Bool(true),
        Ipld::Bool(false),
        Ipld::Float(1.5f64.to_bits()),
        Ipld::Float((-0.0f64).to_bits()),
        Ipld::Bytes(vec![0, 1, 2, 255]),
        Ipld::Bytes(vec![7; 70000]),
        Ipld::Link(sample_link()),
        Ipld::List(vec![
            Ipld::Integer(1),
            Ipld::List(vec![Ipld::String("nested".to_string())]),
            Ipld::Null,
        ]),
        Ipld::Mapping(vec![
            ("b".to_string(), Ipld::Integer(2)),
            ("a".to_string(), Ipld::Integer(1)),
            ("aa".to_string(), Ipld::Mapping(vec![("op".to_string(), Ipld::String("PUT".to_string()))])),
            (long, Ipld::Bool(true)),
            ("B".to_string(), Ipld::Null),
        ]),
    ]
}

#[test]
fn values_encode_as_serde_ipld_dagcbor_does() {
    for p in payloads() {
        let e = entry(p);
        assert_eq!(e.encode().unwrap(), oracle_full(&e), "{:?}", e.payload);
    }
}

#[test]
fn full_entry_encodes_to_canonical_bytes() {
    for p in payloads() {
        let e = entry(p);
        let bytes = e.encode().unwrap();
        assert_eq!(hex::encode(&bytes), hex::encode(oracle_full(&e)), "bytes mismatch: {:?}", e.payload);
        // A map of nine fields.
        assert_eq!(bytes[0], 0xa9);
    }
}

#[test]
fn signed_projection_matches() {
    for p in payloads() {
        let e = entry(p);
        let bytes = e.signed_bytes().unwrap();
        assert_eq!(
            hex::encode(&bytes),
            hex::encode(oracle_signed(&e)),
            "signed bytes mismatch: {:?}",
            e.payload
        );
        assert_eq!(bytes[0], 0xa6);
    }
}

#[test]
fn small_entry_encodes_to_exact_bytes() {
    let e = Entry {
        v: 2,
        id: "l".to_string(),
        key: "k".to_string(),
        sig: "s".to_string(),
        next: vec![],
        refs: vec![],
        clock: Clock {
            id: "c".to_string(),
            time: 1,
        },
        payload: Ipld::String("p".to_string()),
        identity: "i".to_string(),
    };
    let expected: Vec<u8> = vec![
        0xa9, // map(9)
        0x61, b'v', 0x02, // "v": 2
        0x62, b'i', b'd', 0x61, b'l', // "id": "l"
        0x63, b'k', b'e', b'y', 0x61, b'k', // "key": "k"
        0x63, b's', b'i', b'g', 0x61, b's', // "sig": "s"
        0x64, b'n', b'e', b'x', b't', 0x80, // "next": []
        0x64, b'r', b'e', b'f', b's', 0x80, // "refs": []
        0x65, b'c', b'l', b'o', b'c', b'k', 0xa2, 0x62, b'i', b'd', 0x61, b'c', 0x64, b't', b'i',
        b'm', b'e', 0x01, // "clock": {"id": "c", "time": 1}
        0x67, b'p', b'a', b'y', b'l', b'o', b'a', b'd', 0x61, b'p', // "payload": "p"
        0x68, b'i', b'd', b'e', b'n', b't', b'i', b't', b'y', 0x61, b'i', // "identity": "i"
    ];
    assert_eq!(e.encode().unwrap(), expected);
}

#[test]
fn integer_heads_are_shortest() {
    let cases: Vec<(i128, Vec<u8>)> = vec![
        (0, vec![0x00]),
        (23, vec![0x17]),
        (24, vec![0x18, 0x18]),
        (255, vec![0x18, 0xff]),
        (256, vec![0x19, 0x01, 0x00]),
        (65536, vec![0x1a, 0x00, 0x01, 0x00, 0x00]),
        (4294967296, vec![0x1b, 0, 0, 0, 1, 0, 0, 0, 0]),
        (-1, vec![0x20]),
        (-24, vec![0x37]),
        (-25, vec![0x38, 0x18]),
        (-(u64::MAX as i128) - 1, vec![0x3b, 0xff, 0xff, 0xff, 0xff, 0xff, 0xff, 0xff, 0xff]),
    ];
    for (i, want) in cases {
        assert_eq!(oracle_value(&Ipld::Integer(i)), want);
        let e = entry(Ipld::Integer(i));
        let bytes = e.signed_bytes().unwrap();
        assert!(bytes.ends_with(&want), "integer {i}");
    }
}

#[test]
fn floats_are_always_64_bit() {
    let e = entry(Ipld::Float(1.5f64.to_bits()));
    let bytes = e.signed_bytes().unwrap();
    assert!(bytes.ends_with(&[0xfb, 0x3f, 0xf8, 0, 0, 0, 0, 0, 0]));
}

#[test]
fn map_keys_sort_length_first() {
    let e = entry(Ipld::Mapping(vec![
        ("bb".to_string(), Ipld::Integer(3)),
        ("b".to_string(), Ipld::Integer(2)),
        ("a".to_string(), Ipld::Integer(1)),
    ]));
    let bytes = e.signed_bytes().unwrap();
    let tail = [0xa3, 0x61, b'a', 0x01, 0x61, b'b', 0x02, 0x62, b'b', b'b', 0x03];
    assert!(bytes.ends_with(&tail));
}

#[test]
fn out_of_range_integer_has_no_encoding() {
    let e = entry(Ipld::Integer(u64::MAX as i128 + 1));
    assert_eq!(e.encode(), Err(EntryError::Encode(EncodeError::IntegerOutOfRange)));
    let e = entry(Ipld::Integer(-(u64::MAX as i128) - 2));
    assert_eq!(e.signed_bytes(), Err(EntryError::Encode(EncodeError::IntegerOutOfRange)));
    assert!(serde_ipld_dagcbor::to_vec(&to_core(&Ipld::Integer(-(u64::MAX as i128) - 2))).is_err());
}

#[test]
fn non_finite_float_has_no_encoding() {
    for f in [f64::NAN, f64::INFINITY, f64::NEG_INFINITY] {
        let e = entry(Ipld::Float(f.to_bits()));
        assert_eq!(e.encode(), Err(EntryError::Encode(EncodeError::NonFiniteFloat)));
        assert_eq!(e.cid(), Err(EntryError::Encode(EncodeError::NonFiniteFloat)));
        assert!(serde_ipld_dagcbor::to_vec(&to_core(&Ipld::Float(f.to_bits()))).is_err());
    }
}

#[test]
fn duplicate_map_key_has_no_encoding() {
    let e = entry(Ipld::Mapping(vec![
        ("a".to_string(), Ipld::Integer(1)),
        ("a".to_string(), Ipld::Integer(2)),
    ]));
    assert_eq!(e.encode(), Err(EntryError::Encode(EncodeError::DuplicateMapKey)));
}

#[test]
fn first_failing_item_decides_the_error() {
    let e = entry(Ipld::List(vec![
        Ipld::Float(f64::NAN.to_bits()),
        Ipld::Integer(i128::MAX),
    ]));
    assert_eq!(e.encode(), Err(EntryError::Encode(EncodeError::NonFiniteFloat)));
    let e = entry(Ipld::Mapping(vec![
        ("a".to_string(), Ipld::Integer(i128::MIN)),
        ("a".to_string(), Ipld::Null),
    ]));
    assert_eq!(e.encode(), Err(EntryError::Encode(EncodeError::IntegerOutOfRange)));
}

fn expected_cid(bytes: &[u8]) -> String {
    let digest = sha2::Sha256::digest(bytes);
    let mh = multihash::Multihash::<64>::wrap(0x12, &digest).unwrap();
    Cid::new_v1(0x71, mh)
        .to_string_of_base(cid::multibase::Base::Base58Btc)
        .unwrap()
}

#[test]
fn cid_of_matches_the_cid_crate() {
    for input in [&b""[..], b"hello", &[0u8; 1000]] {
        let got = cid_of(input).unwrap();
        assert_eq!(got, expected_cid(input));
        assert!(got.starts_with("zdpu"));
    }
}

#[test]
fn cid_matches_orbitdb_hash() {
    for p in payloads() {
        let e = entry(p);
        let c = e.cid().unwrap();
        assert_eq!(c, cid_of(&e.encode().unwrap()).unwrap());
        assert_eq!(c, expected_cid(&oracle_full(&e)));
        assert!(c.starts_with("zdpu"));
    }
}

#[test]
fn signed_bytes_ignore_key_sig_and_identity() {
    let a = entry(Ipld::String("p".to_string()));
    let mut b = entry(Ipld::String("p".to_string()));
    b.key = "other".to_string();
    b.sig = "other".to_string();
    b.identity = "other".to_string();
    assert_eq!(a.signed_bytes(), b.signed_bytes());
    assert_ne!(a.encode(), b.encode());
    assert_ne!(a.cid(), b.cid());
}

#[test]
fn cid_changes_with_each_of_key_sig_and_identity() {
    let a = entry(Ipld::String("p".to_string()));
    for field in 0..3 {
        let mut b = entry(Ipld::String("p".to_string()));
        match field {
            0 => b.key.push('0'),
            1 => b.sig = "3045".to_string(),
            _ => b.identity = "zdpuAother".to_string(),
        }
        assert_eq!(a.signed_bytes(), b.signed_bytes());
        assert_ne!(a.encode(), b.encode());
        assert_ne!(a.cid(), b.cid());
    }
}

#[test]
fn clone_keeps_the_entry() {
    for p in payloads() {
        let e = entry(p);
        let c = e.clone();
        assert_eq!(c, e);
        assert_eq!(c.encode(), e.encode());
    }
}

#[test]
fn map_encoding_ignores_entry_order() {
    let a = Ipld::Mapping(vec![
        ("x".to_string(), Ipld::Integer(1)),
        ("yy".to_string(), Ipld::String("v".to_string())),
        ("a".to_string(), Ipld::Null),
    ]);
    let b = Ipld::Mapping(vec![
        ("yy".to_string(), Ipld::String("v".to_string())),
        ("a".to_string(), Ipld::Null),
        ("x".to_string(), Ipld::Integer(1)),
    ]);
    assert_eq!(entry(a).encode(), entry(b).encode());
}

#[test]
fn links_are_tag_42_over_zero_prefixed_cid_bytes() {
    let link = sample_link();
    let mut out = Vec::new();
    rust_orbitdb_core::cbor::encode_ipld(&Ipld::Link(link.clone()), &mut out).unwrap();
    let mut want = vec![0xd8, 0x2a, 0x58, (link.len() + 1) as u8, 0x00];
    want.extend_from_slice(&link);
    assert_eq!(out, want);
    assert_eq!(out, oracle_value(&Ipld::Link(link)));
}
