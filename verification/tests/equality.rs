use rust_orbitdb_core::{Clock, Entry, Ipld};

fn entry(payload: Ipld) -> Entry {
    Entry {
        v: 2,
        id: "log-1".to_string(),
        key: "k".to_string(),
        sig: "s".to_string(),
        next: vec![],
        refs: vec![],
        clock: Clock {
            id: "c".to_string(),
            time: 1,
        },
        payload,
        identity: "i".to_string(),
    }
}

#[test]
fn floats_compare_as_ieee_with_nans_equal() {
    assert_eq!(Ipld::Float(0.0f64.to_bits()), Ipld::Float((-0.0f64).to_bits()));
    let nan_a = f64::NAN.to_bits();
    let nan_b = nan_a ^ 1;
    assert!(f64::from_bits(nan_b).is_nan());
    assert_eq!(Ipld::Float(nan_a), Ipld::Float(nan_b));
    assert_eq!(Ipld::Float(1.5f64.to_bits()), Ipld::Float(1.5f64.to_bits()));
    assert_ne!(Ipld::Float(1.5f64.to_bits()), Ipld::Float(2.5f64.to_bits()));
    assert_ne!(Ipld::Float(nan_a), Ipld::Float(1.0f64.to_bits()));
    assert_ne!(Ipld::Float(0.0f64.to_bits()), Ipld::Integer(0));
}

#[test]
fn maps_compare_as_maps() {
    let a = Ipld::Mapping(vec![
        ("x".to_string(), Ipld::Integer(1)),
        ("y".to_string(), Ipld::Float(0.0f64.to_bits())),
    ]);
    let b = Ipld::Mapping(vec![
        ("y".to_string(), Ipld::Float((-0.0f64).to_bits())),
        ("x".to_string(), Ipld::Integer(1)),
    ]);
    assert_eq!(a, b);
    // The last entry for a key counts.
    let c = Ipld::Mapping(vec![
        ("x".to_string(), Ipld::Integer(7)),
        ("y".to_string(), Ipld::Float(0.0f64.to_bits())),
        ("x".to_string(), Ipld::Integer(1)),
    ]);
    assert_eq!(a, c);
    assert_ne!(
        a,
        Ipld::Mapping(vec![("x".to_string(), Ipld::Integer(1))])
    );
    assert_ne!(
        a,
        Ipld::Mapping(vec![
            ("x".to_string(), Ipld::Integer(2)),
            ("y".to_string(), Ipld::Float(0.0f64.to_bits())),
        ])
    );
    assert_eq!(entry(a.clone()), entry(b.clone()));
    // Equal floats of different signs keep their own encodings, as in dag-cbor.
    assert_ne!(entry(a.clone()).encode(), entry(b).encode());
    let reordered = Ipld::Mapping(vec![
        ("y".to_string(), Ipld::Float(0.0f64.to_bits())),
        ("x".to_string(), Ipld::Integer(1)),
    ]);
    assert_eq!(entry(a).encode(), entry(reordered).encode());
}

#[test]
fn lists_compare_element_by_element() {
    let a = Ipld::List(vec![Ipld::Null, Ipld::String("s".to_string()), Ipld::Bytes(vec![1, 2])]);
    let b = Ipld::List(vec![Ipld::Null, Ipld::String("s".to_string()), Ipld::Bytes(vec![1, 2])]);
    assert_eq!(a, b);
    assert_ne!(a, Ipld::List(vec![Ipld::Null, Ipld::String("s".to_string())]));
    assert_ne!(
        Ipld::List(vec![Ipld::Bool(true)]),
        Ipld::List(vec![Ipld::Bool(false)])
    );
    assert_eq!(Ipld::Link(vec![1, 2, 3]), Ipld::Link(vec![1, 2, 3]));
    assert_ne!(Ipld::Link(vec![1, 2, 3]), Ipld::Bytes(vec![1, 2, 3]));
}

#[test]
fn distinct_entries_encode_differently() {
    let payloads = vec![
        Ipld::Null,
        Ipld::Bool(false),
        Ipld::Bool(true),
        Ipld::Integer(0),
        Ipld::Integer(24),
        Ipld::Integer(-1),
        Ipld::Float(0.0f64.to_bits()),
        Ipld::Float((-0.0f64).to_bits()),
        Ipld::String(String::new()),
        Ipld::String("a".to_string()),
        Ipld::Bytes(vec![]),
        Ipld::Bytes(vec![0x61]),
        Ipld::List(vec![]),
        Ipld::List(vec![Ipld::Null]),
        Ipld::Mapping(vec![]),
        Ipld::Mapping(vec![("a".to_string(), Ipld::Null)]),
        Ipld::Mapping(vec![("b".to_string(), Ipld::Null)]),
        Ipld::Link(vec![1, 2]),
    ];
    for (i, p) in payloads.iter().enumerate() {
        for (j, q) in payloads.iter().enumerate() {
            let a = entry(p.clone());
            let b = entry(q.clone());
            let same_bytes = a.encode().unwrap() == b.encode().unwrap();
            assert_eq!(same_bytes, i == j, "{:?} / {:?}", p, q);
            assert_eq!(a.signed_bytes().unwrap() == b.signed_bytes().unwrap(), i == j);
        }
    }
    let mut other = entry(Ipld::Null);
    other.clock.time = 2;
    assert_ne!(entry(Ipld::Null).encode(), other.encode());
    assert_ne!(entry(Ipld::Null).signed_bytes(), other.signed_bytes());
}
