//! secp256k1 ECDSA over SHA-256, through the `k256` crate.
//!
//! Verus does not take a declaration of `k256`'s key and signature types
//! (their bounds name traits of another crate), so each is held in a cell of
//! this module that Verus sees as opaque. The parsed values carry, as ghost
//! state, the bytes they were parsed from; only the functions of this module
//! build them.

use vstd::prelude::*;
use k256::ecdsa::signature::Verifier;

verus! {

#[verifier::external_type_specification]
#[verifier::external_body]
pub struct ExSignatureError(k256::ecdsa::Error);

/// Holds a `k256` verifying key.
#[verifier::external_body]
struct VerifyingKeyCell {
    key: k256::ecdsa::VerifyingKey,
}

/// Holds a `k256` signature.
#[verifier::external_body]
struct SignatureCell {
    sig: k256::ecdsa::Signature,
}

/// A secp256k1 public key, with the SEC1 bytes it was parsed from.
pub struct PublicKey {
    key: VerifyingKeyCell,
    sec1: Ghost<Seq<u8>>,
}

impl PublicKey {
    /// The SEC1 encoding the key was parsed from.
    pub closed spec fn sec1(&self) -> Seq<u8> {
        self.sec1@
    }
}

/// An ECDSA signature, with the DER bytes it was parsed from.
pub struct DerSignature {
    sig: SignatureCell,
    der: Ghost<Seq<u8>>,
}

impl DerSignature {
    /// The DER encoding the signature was parsed from.
    pub closed spec fn der(&self) -> Seq<u8> {
        self.der@
    }
}

/// Whether these bytes are the SEC1 encoding (compressed or not) of a
/// secp256k1 public key.
pub uninterp spec fn sec1_key_parses(bytes: Seq<u8>) -> bool;

/// Calls `VerifyingKey::from_sec1_bytes`; whether it succeeds depends on the
/// bytes alone.
#[verifier::external_body]
pub(crate) fn parse_sec1_key(bytes: &[u8]) -> (r: Result<PublicKey, k256::ecdsa::Error>)
    ensures
        r is Ok <==> sec1_key_parses(bytes@),
        r matches Ok(k) ==> k.sec1() == bytes@,
{
    match k256::ecdsa::VerifyingKey::from_sec1_bytes(bytes) {
        Ok(key) => Ok(PublicKey { key: VerifyingKeyCell { key }, sec1: Ghost(bytes@) }),
        Err(e) => Err(e),
    }
}

/// Whether these bytes are a DER-encoded ECDSA/secp256k1 signature with both
/// scalars in range.
pub uninterp spec fn der_signature_parses(bytes: Seq<u8>) -> bool;

/// Calls `Signature::from_der`; whether it succeeds depends on the bytes
/// alone.
#[verifier::external_body]
pub(crate) fn parse_der_signature(bytes: &[u8]) -> (r: Result<DerSignature, k256::ecdsa::Error>)
    ensures
        r is Ok <==> der_signature_parses(bytes@),
        r matches Ok(s) ==> s.der() == bytes@,
{
    match k256::ecdsa::Signature::from_der(bytes) {
        Ok(sig) => Ok(DerSignature { sig: SignatureCell { sig }, der: Ghost(bytes@) }),
        Err(e) => Err(e),
    }
}

/// Whether the signature (given by its DER bytes) is a valid ECDSA signature
/// over the SHA-256 digest of `message` by the key (given by its SEC1 bytes).
pub uninterp spec fn ecdsa_sha256_verifies(sec1: Seq<u8>, message: Seq<u8>, der: Seq<u8>) -> bool;

/// Calls `<VerifyingKey as Verifier<Signature>>::verify`, which hashes the
/// message with SHA-256 and checks the signature; the answer depends on the
/// key, the message and the signature alone.
#[verifier::external_body]
pub(crate) fn verify_with_key(key: &PublicKey, message: &[u8], sig: &DerSignature) -> (r: bool)
    ensures
        r == ecdsa_sha256_verifies(key.sec1(), message@, sig.der()),
{
    key.key.key.verify(message, &sig.sig.sig).is_ok()
}

} // verus!
