//! Content identifiers: the SHA-256 digest, its multihash, and the CIDv1
//! text, through the `sha2`, `multihash` and `cid` crates.
//!
//! The multihash and CID values carry, as ghost state, the parts they were
//! built from. Only the functions of this module build them, so those parts
//! are always the ones the outside value holds.

use vstd::prelude::*;
use sha2::Digest;

verus! {

#[verifier::external_type_specification]
#[verifier::external_body]
pub struct ExMultihash<const S: usize>(multihash::Multihash<S>);

#[verifier::external_type_specification]
#[verifier::external_body]
pub struct ExMultihashError(multihash::Error);

#[verifier::external_type_specification]
#[verifier::external_body]
pub struct ExCid<const S: usize>(cid::CidGeneric<S>);

#[verifier::external_type_specification]
#[verifier::external_body]
pub struct ExCidError(cid::Error);

/// The SHA-256 digest of `data`.
pub uninterp spec fn sha256_digest(data: Seq<u8>) -> Seq<u8>;

/// Calls `<sha2::Sha256 as Digest>::digest`: the SHA-256 digest of the
/// input, which is 32 bytes long.
#[verifier::external_body]
pub(crate) fn sha256(data: &[u8]) -> (d: Vec<u8>)
    ensures
        d@ == sha256_digest(data@),
        d@.len() == 32,
{
    sha2::Sha256::digest(data).to_vec()
}

/// A multihash, with the hash code and digest it was made from.
pub struct WrappedDigest {
    hash: multihash::Multihash<64>,
    code: Ghost<u64>,
    digest: Ghost<Seq<u8>>,
}

impl WrappedDigest {
    /// The multihash code (the hash function's code).
    pub closed spec fn code(&self) -> u64 {
        self.code@
    }

    /// The digest the multihash holds.
    pub closed spec fn digest(&self) -> Seq<u8> {
        self.digest@
    }
}

/// Calls `Multihash::<64>::wrap`, which fails exactly when the digest is
/// longer than 64 bytes and otherwise holds the code and the digest.
#[verifier::external_body]
pub(crate) fn multihash_wrap(code: u64, digest: &[u8]) -> (r: Result<WrappedDigest, multihash::Error>)
    ensures
        r is Ok <==> digest@.len() <= 64,
        r matches Ok(m) ==> m.code() == code && m.digest() == digest@,
{
    match multihash::Multihash::<64>::wrap(code, digest) {
        Ok(hash) => Ok(WrappedDigest { hash, code: Ghost(code), digest: Ghost(digest@) }),
        Err(e) => Err(e),
    }
}

/// A version-1 CID, with the codec and multihash it was made from.
pub struct CidV1 {
    cid: cid::CidGeneric<64>,
    codec: Ghost<u64>,
    hash_code: Ghost<u64>,
    digest: Ghost<Seq<u8>>,
}

impl CidV1 {
    /// The content codec.
    pub closed spec fn codec(&self) -> u64 {
        self.codec@
    }

    /// The multihash code.
    pub closed spec fn hash_code(&self) -> u64 {
        self.hash_code@
    }

    /// The multihash digest.
    pub closed spec fn digest(&self) -> Seq<u8> {
        self.digest@
    }
}

/// Calls `Cid::new_v1`, which builds the version-1 CID of a codec and a
/// multihash.
#[verifier::external_body]
pub(crate) fn cid_new_v1(codec: u64, hash: WrappedDigest) -> (c: CidV1)
    ensures
        c.codec() == codec,
        c.hash_code() == hash.code(),
        c.digest() == hash.digest(),
{
    let hash_code = Ghost(hash.code@);
    let digest = Ghost(hash.digest@);
    CidV1 { cid: cid::Cid::new_v1(codec, hash.hash), codec: Ghost(codec), hash_code, digest }
}

/// The base58btc multibase text of the version-1 CID with this codec,
/// multihash code and digest.
pub uninterp spec fn cid_base58btc_text(codec: u64, hash_code: u64, digest: Seq<u8>) -> Seq<char>;

/// Calls `Cid::to_string_of_base` with `Base::Base58Btc`. For a version-1 CID
/// it always succeeds, with the multibase text of the CID's bytes, which
/// starts with the base58btc prefix `z`.
#[verifier::external_body]
pub(crate) fn cid_to_base58btc(c: &CidV1) -> (r: Result<String, cid::Error>)
    ensures
        r is Ok,
        r matches Ok(s) ==> s@ == cid_base58btc_text(c.codec(), c.hash_code(), c.digest()),
        r matches Ok(s) ==> s@.len() > 0 && s@[0] == 'z',
{
    c.cid.to_string_of_base(cid::multibase::Base::Base58Btc)
}

} // verus!
