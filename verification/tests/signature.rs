use k256::ecdsa::signature::Signer;
use k256::ecdsa::{Signature, SigningKey};
use rust_orbitdb_core::{verify_secp256k1, Clock, Entry, EntryError, HexError, Ipld};

fn signing_key(seed: u8) -> SigningKey {
    let mut bytes = [0u8; 32];
    bytes[31] = seed;
    bytes[0] = 0x11;
    SigningKey::from_slice(&bytes).unwrap()
}

fn public_hex(sk: &SigningKey) -> String {
    hex::encode(sk.verifying_key().to_encoded_point(true).as_bytes())
}

fn sign_hex(sk: &SigningKey, message: &[u8]) -> String {
    let sig: Signature = sk.sign(message);
    hex::encode(sig.to_der().as_bytes())
}

fn signed_entry(payload: &str) -> Entry {
    let sk = signing_key(7);
    let mut e = Entry {
        v: 2,
        id: "log-1".to_string(),
        key: public_hex(&sk),
        sig: String::new(),
        next: vec!["zdpuAprev".to_string()],
        refs: vec![],
        clock: Clock {
            id: public_hex(&sk),
            time: 2,
        },
        payload: Ipld::String(payload.to_string()),
        identity: "zdpuAidentity".to_string(),
    };
    let msg = e.signed_bytes().unwrap();
    e.sig = sign_hex(&sk, &msg);
    e
}

#[test]
fn signatures_verify() {
    for p in ["hello", "", "x y z"] {
        assert!(signed_entry(p).verify_signature().unwrap(), "sig failed: {p}");
        assert_eq!(signed_entry(p).verify_signature(), Ok(true));
    }
}

#[test]
fn tampered_payload_is_rejected() {
    let mut entry = signed_entry("hello");
    entry.payload = Ipld::String("HELLO".to_string());
    assert!(!entry.verify_signature().unwrap());
    assert_eq!(entry.verify_signature(), Ok(false));
}

#[test]
fn tampered_signature_is_rejected() {
    let mut e = signed_entry("hello");
    let mut s = e.sig.clone();
    let last = s.pop().unwrap();
    s.push(if last == '0' { '1' } else { '0' });
    e.sig = s;
    assert!(!e.verify_signature().unwrap_or(false));
}

#[test]
fn identity_and_key_fields_are_not_signed_but_key_is_checked() {
    let mut e = signed_entry("hello");
    e.identity = "other".to_string();
    assert_eq!(e.verify_signature(), Ok(true));
    e.key = public_hex(&signing_key(8));
    assert_eq!(e.verify_signature(), Ok(false));
}

#[test]
fn verify_over_raw_message() {
    let sk = signing_key(3);
    let msg = b"some message";
    let sig = sign_hex(&sk, msg);
    assert_eq!(verify_secp256k1(&public_hex(&sk), msg, &sig), Ok(true));
    assert_eq!(verify_secp256k1(&public_hex(&sk), b"other", &sig), Ok(false));
    // Uppercase hex decodes as well.
    assert_eq!(
        verify_secp256k1(&public_hex(&sk).to_uppercase(), msg, &sig.to_uppercase()),
        Ok(true)
    );
    // An uncompressed SEC1 key is accepted too.
    let uncompressed = hex::encode(sk.verifying_key().to_encoded_point(false).as_bytes());
    assert_eq!(verify_secp256k1(&uncompressed, msg, &sig), Ok(true));
}

#[test]
fn malformed_hex_is_reported_with_its_position() {
    let sk = signing_key(3);
    let sig = sign_hex(&sk, b"m");
    assert_eq!(
        verify_secp256k1("abc", b"m", &sig),
        Err(EntryError::Hex(HexError::OddLength))
    );
    assert_eq!(
        verify_secp256k1("00zz", b"m", &sig),
        Err(EntryError::Hex(HexError::InvalidHexCharacter { c: 'z', index: 2 }))
    );
    assert_eq!(
        verify_secp256k1(&public_hex(&sk), b"m", "0g"),
        Err(EntryError::Hex(HexError::InvalidHexCharacter { c: 'g', index: 1 }))
    );
    // The key is decoded before the signature.
    assert_eq!(
        verify_secp256k1("0", b"m", "0g"),
        Err(EntryError::Hex(HexError::OddLength))
    );
}

#[test]
fn bad_key_and_bad_signature_are_told_apart() {
    let sk = signing_key(3);
    let sig = sign_hex(&sk, b"m");
    assert_eq!(verify_secp256k1("0011", b"m", &sig), Err(EntryError::PublicKey));
    assert_eq!(verify_secp256k1("", b"m", &sig), Err(EntryError::PublicKey));
    assert_eq!(
        verify_secp256k1(&public_hex(&sk), b"m", "3000"),
        Err(EntryError::Signature)
    );
    // A bad key is reported before a bad signature.
    assert_eq!(verify_secp256k1("0011", b"m", "3000"), Err(EntryError::PublicKey));
}

#[test]
fn unencodable_payload_is_an_encode_error() {
    let mut e = signed_entry("hello");
    e.payload = Ipld::Float(f64::NAN.to_bits());
    assert!(matches!(e.verify_signature(), Err(EntryError::Encode(_))));
}
