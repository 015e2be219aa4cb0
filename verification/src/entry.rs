//! Oplog entries and their canonical dag-cbor encodings.

use vstd::prelude::*;
use crate::cbor::{
    EncodeError, be_bytes, cbor_head, text_encoding, text_list_encoding, value_encoding, encode_ipld,
    push_head, push_text, push_text_list,
};
use crate::ipld::{Ipld, IpldValue, copy_ipld};
use crate::hexcodec::{HexError, hex_decoding, hex_decode};
use crate::multiformats::{
    sha256_digest, cid_base58btc_text, sha256, multihash_wrap, cid_new_v1, cid_to_base58btc,
};
use crate::secp256k1::{
    sec1_key_parses, der_signature_parses, ecdsa_sha256_verifies, parse_sec1_key,
    parse_der_signature, verify_with_key,
};
use vstd::string::StringSliceAdditionalSpecFns;
use vstd::utf8::encode_utf8;
use crate::bytes::lemma_utf8_injective;

verus! {

/// Lamport clock as stored in an entry.
#[derive(Debug, PartialEq, Eq)]
pub struct Clock {
    pub id: String,
    pub time: u64,
}

/// The value of a [`Clock`].
pub struct ClockView {
    pub id: Seq<char>,
    pub time: u64,
}

impl View for Clock {
    type V = ClockView;

    open spec fn view(&self) -> ClockView {
        ClockView { id: self.id@, time: self.time }
    }
}

impl Clone for Clock {
    fn clone(&self) -> (r: Self)
        ensures
            r@ == self@,
    {
        Clock { id: self.id.clone(), time: self.time }
    }
}

/// A v2 OrbitDB oplog entry.
///
/// Its encoding lists the fields in the canonical dag-cbor order
/// (length-first, then bytewise):
/// `v, id, key, sig, next, refs, clock, payload, identity`.
#[derive(Debug, PartialEq, Eq)]
pub struct Entry {
    pub v: u8,
    pub id: String,
    pub key: String,
    pub sig: String,
    pub next: Vec<String>,
    pub refs: Vec<String>,
    pub clock: Clock,
    pub payload: Ipld,
    pub identity: String,
}

/// The value of an [`Entry`].
pub struct EntryView {
    pub v: u8,
    pub id: Seq<char>,
    pub key: Seq<char>,
    pub sig: Seq<char>,
    pub next: Seq<Seq<char>>,
    pub refs: Seq<Seq<char>>,
    pub clock: ClockView,
    pub payload: IpldValue,
    pub identity: Seq<char>,
}

impl View for Entry {
    type V = EntryView;

    open spec fn view(&self) -> EntryView {
        EntryView {
            v: self.v,
            id: self.id@,
            key: self.key@,
            sig: self.sig@,
            next: self.next.deep_view(),
            refs: self.refs.deep_view(),
            clock: self.clock@,
            payload: self.payload@,
            identity: self.identity@,
        }
    }
}

/// A copy of a list of strings with the same contents.
fn copy_strings(v: &Vec<String>) -> (r: Vec<String>)
    ensures
        r.deep_view() == v.deep_view(),
{
    let mut out: Vec<String> = Vec::new();
    let mut i: usize = 0;
    while i < v.len()
        invariant
            i <= v.len(),
            out@.len() == i,
            forall|k: int| 0 <= k < i ==> #[trigger] out@[k]@ == v@[k]@,
        decreases v.len() - i,
    {
        out.push(v[i].clone());
        i = i + 1;
    }
    assert(out.deep_view() =~= v.deep_view());
    out
}

impl Clone for Entry {
    fn clone(&self) -> (r: Self)
        ensures
            r@ == self@,
    {
        Entry {
            v: self.v,
            id: self.id.clone(),
            key: self.key.clone(),
            sig: self.sig.clone(),
            next: copy_strings(&self.next),
            refs: copy_strings(&self.refs),
            clock: self.clock.clone(),
            payload: copy_ipld(&self.payload),
            identity: self.identity.clone(),
        }
    }
}

/// A field name as a dag-cbor text string.
pub open spec fn name(s: Seq<char>) -> Seq<u8> {
    text_encoding(s)
}

/// The dag-cbor encoding of a clock: a map of `id` and `time`.
pub open spec fn clock_encoding(c: ClockView) -> Seq<u8> {
    seq![0xa2u8] + name(seq!['i', 'd']) + text_encoding(c.id) + name(seq!['t', 'i', 'm', 'e'])
        + cbor_head(0, c.time)
}

/// The `v` and `id` fields.
pub open spec fn version_and_id(e: EntryView) -> Seq<u8> {
    name(seq!['v']) + cbor_head(0, e.v as u64) + name(seq!['i', 'd']) + text_encoding(e.id)
}

/// The `key` and `sig` fields.
pub open spec fn key_and_sig(e: EntryView) -> Seq<u8> {
    name(seq!['k', 'e', 'y']) + text_encoding(e.key) + name(seq!['s', 'i', 'g']) + text_encoding(
        e.sig,
    )
}

/// The `next`, `refs` and `clock` fields, and the name `payload`.
pub open spec fn links_and_clock(e: EntryView) -> Seq<u8> {
    name(seq!['n', 'e', 'x', 't']) + text_list_encoding(e.next) + name(seq!['r', 'e', 'f', 's'])
        + text_list_encoding(e.refs) + name(seq!['c', 'l', 'o', 'c', 'k']) + clock_encoding(e.clock)
        + name(seq!['p', 'a', 'y', 'l', 'o', 'a', 'd'])
}

/// The fields before the payload: `v, id`, then (for the full entry only)
/// `key, sig`, then `next, refs, clock` and the name `payload`.
pub open spec fn fields_before_payload(e: EntryView, full: bool) -> Seq<u8> {
    version_and_id(e) + (if full {
        key_and_sig(e)
    } else {
        Seq::empty()
    }) + links_and_clock(e)
}

/// The canonical dag-cbor encoding of a full entry (a map of nine fields:
/// `v, id, key, sig, next, refs, clock, payload, identity`), or why its
/// payload has none.
pub open spec fn entry_encoding(e: EntryView) -> Result<Seq<u8>, EncodeError> {
    match value_encoding(e.payload) {
        Ok(p) => Ok(
            seq![0xa9u8] + fields_before_payload(e, true) + p + name(
                seq!['i', 'd', 'e', 'n', 't', 'i', 't', 'y'],
            ) + text_encoding(e.identity),
        ),
        Err(err) => Err(err),
    }
}

/// The canonical dag-cbor encoding of the signed projection of an entry: a
/// map of `v, id, next, refs, clock, payload` (no `key`, `sig` or
/// `identity`), or why its payload has none.
pub open spec fn signed_encoding(e: EntryView) -> Result<Seq<u8>, EncodeError> {
    match value_encoding(e.payload) {
        Ok(p) => Ok(seq![0xa6u8] + fields_before_payload(e, false) + p),
        Err(err) => Err(err),
    }
}

/// What an entry's signature covers: the signed projection depends on
/// neither the entry's `key`, nor its `sig`, nor its `identity`.
pub proof fn lemma_signed_ignores_key_sig_identity(a: EntryView, b: EntryView)
    requires
        a.v == b.v,
        a.id == b.id,
        a.next == b.next,
        a.refs == b.refs,
        a.clock == b.clock,
        a.payload == b.payload,
    ensures
        signed_encoding(a) == signed_encoding(b),
{
}

/// A text string's encoding grows strictly with the length of its UTF-8
/// bytes, so encodings of equal length hold equally many bytes.
proof fn lemma_text_encoding_len(a: Seq<char>, b: Seq<char>)
    requires
        encode_utf8(a).len() <= u64::MAX,
        encode_utf8(b).len() <= u64::MAX,
        encode_utf8(a).len() < encode_utf8(b).len(),
    ensures
        text_encoding(a).len() < text_encoding(b).len(),
{
    let na = encode_utf8(a).len() as u64;
    let nb = encode_utf8(b).len() as u64;
    lemma_head_len(3, na);
    lemma_head_len(3, nb);
}

/// `be_bytes` gives as many bytes as asked for.
pub(crate) proof fn lemma_be_bytes_len(n: u64, width: nat)
    ensures
        be_bytes(n, width).len() == width,
    decreases width,
{
    if width > 0 {
        lemma_be_bytes_len(n / 256, (width - 1) as nat);
    }
}

/// The length of a CBOR head: one byte, plus 1, 2, 4 or 8 argument bytes.
pub(crate) proof fn lemma_head_len(major: u8, n: u64)
    ensures
        cbor_head(major, n).len() == if n < 24 {
            1int
        } else if n < 0x100 {
            2int
        } else if n < 0x1_0000 {
            3int
        } else if n < 0x1_0000_0000 {
            5int
        } else {
            9int
        },
{
    lemma_be_bytes_len(n, 2);
    lemma_be_bytes_len(n, 4);
    lemma_be_bytes_len(n, 8);
}

/// Regroups the pieces of a full entry's encoding around its `key`, its
/// `sig` and its `identity` text.
proof fn lemma_entry_pieces(
    z: Seq<u8>,
    v: Seq<u8>,
    nk: Seq<u8>,
    tk: Seq<u8>,
    ns: Seq<u8>,
    ts: Seq<u8>,
    l: Seq<u8>,
    p: Seq<u8>,
    ni: Seq<u8>,
    ti: Seq<u8>,
)
    ensures
        z + (v + (nk + tk + ns + ts) + l) + p + ni + ti == (z + v + nk) + tk + (ns + ts + l + p
            + ni + ti),
        z + (v + (nk + tk + ns + ts) + l) + p + ni + ti == (z + v + nk + tk + ns) + ts + (l + p
            + ni + ti),
        z + (v + (nk + tk + ns + ts) + l) + p + ni + ti == (z + v + (nk + tk + ns + ts) + l + p
            + ni) + ti + Seq::<u8>::empty(),
{
    assert(z + (v + (nk + tk + ns + ts) + l) + p + ni + ti =~= (z + v + nk) + tk + (ns + ts + l
        + p + ni + ti));
    assert(z + (v + (nk + tk + ns + ts) + l) + p + ni + ti =~= (z + v + nk + tk + ns) + ts + (l
        + p + ni + ti));
    assert(z + (v + (nk + tk + ns + ts) + l) + p + ni + ti =~= (z + v + (nk + tk + ns + ts) + l
        + p + ni) + ti + Seq::<u8>::empty());
}

/// Two strings with equal text encodings are equal.
proof fn lemma_text_encoding_injective(a: Seq<char>, b: Seq<char>)
    requires
        encode_utf8(a).len() <= u64::MAX,
        encode_utf8(b).len() <= u64::MAX,
        text_encoding(a) == text_encoding(b),
    ensures
        a == b,
{
    if encode_utf8(a).len() < encode_utf8(b).len() {
        lemma_text_encoding_len(a, b);
    } else if encode_utf8(b).len() < encode_utf8(a).len() {
        lemma_text_encoding_len(b, a);
    } else {
        let h = cbor_head(3, encode_utf8(a).len() as u64);
        assert(text_encoding(a).subrange(h.len() as int, text_encoding(a).len() as int)
            =~= encode_utf8(a));
        assert(text_encoding(b).subrange(h.len() as int, text_encoding(b).len() as int)
            =~= encode_utf8(b));
        if a != b {
            lemma_utf8_injective(a, b);
        }
    }
}

/// The text encoding of two different strings, put between the same bytes,
/// gives different byte strings.
proof fn lemma_text_between(x: Seq<u8>, a: Seq<char>, b: Seq<char>, y: Seq<u8>)
    requires
        a != b,
        encode_utf8(a).len() <= u64::MAX,
        encode_utf8(b).len() <= u64::MAX,
    ensures
        x + text_encoding(a) + y != x + text_encoding(b) + y,
{
    let sa = x + text_encoding(a) + y;
    let sb = x + text_encoding(b) + y;
    if sa == sb {
        assert(sa.len() == sb.len());
        assert(text_encoding(a).len() == text_encoding(b).len());
        assert(sa.subrange(x.len() as int, (x.len() + text_encoding(a).len()) as int) =~= text_encoding(a));
        assert(sb.subrange(x.len() as int, (x.len() + text_encoding(b).len()) as int) =~= text_encoding(b));
        lemma_text_encoding_injective(a, b);
    }
}

/// The entry hash covers the whole entry: although the signed projection
/// ignores `key`, `sig` and `identity`, two entries that differ in exactly
/// one of them (and agree on every other field) have different full
/// encodings, so their CIDs are computed over different bytes. (Lengths are
/// bounded as any string in memory is.)
pub proof fn lemma_full_encoding_covers_key_sig_identity(a: EntryView, b: EntryView)
    requires
        a.v == b.v,
        a.id == b.id,
        a.next == b.next,
        a.refs == b.refs,
        a.clock == b.clock,
        a.payload == b.payload,
        (a.key != b.key && a.sig == b.sig && a.identity == b.identity) || (a.key == b.key && a.sig
            != b.sig && a.identity == b.identity) || (a.key == b.key && a.sig == b.sig
            && a.identity != b.identity),
        encode_utf8(a.key).len() <= u64::MAX,
        encode_utf8(b.key).len() <= u64::MAX,
        encode_utf8(a.sig).len() <= u64::MAX,
        encode_utf8(b.sig).len() <= u64::MAX,
        encode_utf8(a.identity).len() <= u64::MAX,
        encode_utf8(b.identity).len() <= u64::MAX,
        entry_encoding(a) is Ok,
    ensures
        entry_encoding(b) is Ok,
        entry_encoding(a) != entry_encoding(b),
        signed_encoding(a) == signed_encoding(b),
{
    let p = value_encoding(a.payload)->Ok_0;
    let z = seq![0xa9u8];
    let v = version_and_id(a);
    let nk = name(seq!['k', 'e', 'y']);
    let ns = name(seq!['s', 'i', 'g']);
    let l = links_and_clock(a);
    let ni = name(seq!['i', 'd', 'e', 'n', 't', 'i', 't', 'y']);
    assert(version_and_id(b) == v);
    assert(links_and_clock(b) == l);
    let ea = entry_encoding(a)->Ok_0;
    let eb = entry_encoding(b)->Ok_0;
    assert(fields_before_payload(a, true) == v + key_and_sig(a) + l);
    assert(fields_before_payload(b, true) == v + key_and_sig(b) + l);
    assert(ea == z + (v + (nk + text_encoding(a.key) + ns + text_encoding(a.sig)) + l) + p + ni
        + text_encoding(a.identity));
    assert(eb == z + (v + (nk + text_encoding(b.key) + ns + text_encoding(b.sig)) + l) + p + ni
        + text_encoding(b.identity));
    lemma_entry_pieces(z, v, nk, text_encoding(a.key), ns, text_encoding(a.sig), l, p, ni,
        text_encoding(a.identity));
    lemma_entry_pieces(z, v, nk, text_encoding(b.key), ns, text_encoding(b.sig), l, p, ni,
        text_encoding(b.identity));
    if a.key != b.key {
        lemma_text_between(z + v + nk, a.key, b.key, ns + text_encoding(a.sig) + l + p + ni
            + text_encoding(a.identity));
    } else if a.sig != b.sig {
        lemma_text_between(z + v + nk + text_encoding(a.key) + ns, a.sig, b.sig, l + p + ni
            + text_encoding(a.identity));
    } else {
        lemma_text_between(z + v + (nk + text_encoding(a.key) + ns + text_encoding(a.sig)) + l
            + p + ni, a.identity, b.identity, Seq::<u8>::empty());
    }
}

/// Appends the encoding of a clock.
fn push_clock(out: &mut Vec<u8>, c: &Clock)
    ensures
        final(out)@ == old(out)@ + clock_encoding(c@),
{
    let ghost start = out@;
    out.push(0xa2);
    proof {
        reveal_strlit("id");
        reveal_strlit("time");
        assert("id"@ =~= seq!['i', 'd']);
        assert("time"@ =~= seq!['t', 'i', 'm', 'e']);
    }
    push_text(out, "id");
    push_text(out, c.id.as_str());
    push_text(out, "time");
    push_head(out, 0, c.time);
    assert(out@ =~= start + clock_encoding(c@));
}

fn push_version_and_id(out: &mut Vec<u8>, e: &Entry)
    ensures
        final(out)@ == old(out)@ + version_and_id(e@),
{
    proof {
        reveal_strlit("v");
        reveal_strlit("id");
        assert("v"@ =~= seq!['v']);
        assert("id"@ =~= seq!['i', 'd']);
    }
    let ghost start = out@;
    push_text(out, "v");
    push_head(out, 0, e.v as u64);
    push_text(out, "id");
    push_text(out, e.id.as_str());
    assert(out@ =~= start + version_and_id(e@));
}

fn push_key_and_sig(out: &mut Vec<u8>, e: &Entry)
    ensures
        final(out)@ == old(out)@ + key_and_sig(e@),
{
    proof {
        reveal_strlit("key");
        reveal_strlit("sig");
        assert("key"@ =~= seq!['k', 'e', 'y']);
        assert("sig"@ =~= seq!['s', 'i', 'g']);
    }
    let ghost start = out@;
    push_text(out, "key");
    push_text(out, e.key.as_str());
    push_text(out, "sig");
    push_text(out, e.sig.as_str());
    assert(out@ =~= start + key_and_sig(e@));
}

fn push_links_and_clock(out: &mut Vec<u8>, e: &Entry)
    ensures
        final(out)@ == old(out)@ + links_and_clock(e@),
{
    proof {
        reveal_strlit("next");
        reveal_strlit("refs");
        reveal_strlit("clock");
        reveal_strlit("payload");
        assert("next"@ =~= seq!['n', 'e', 'x', 't']);
        assert("refs"@ =~= seq!['r', 'e', 'f', 's']);
        assert("clock"@ =~= seq!['c', 'l', 'o', 'c', 'k']);
        assert("payload"@ =~= seq!['p', 'a', 'y', 'l', 'o', 'a', 'd']);
    }
    let ghost start = out@;
    push_text(out, "next");
    push_text_list(out, &e.next);
    push_text(out, "refs");
    push_text_list(out, &e.refs);
    push_text(out, "clock");
    push_clock(out, &e.clock);
    push_text(out, "payload");
    assert(out@ =~= start + links_and_clock(e@));
}

/// Appends the fields before the payload, as `fields_before_payload` lists them.
fn push_fields_before_payload(out: &mut Vec<u8>, e: &Entry, full: bool)
    ensures
        final(out)@ == old(out)@ + fields_before_payload(e@, full),
{
    let ghost start = out@;
    push_version_and_id(out, e);
    let ghost s1 = out@;
    if full {
        push_key_and_sig(out, e);
    }
    let ghost s2 = out@;
    push_links_and_clock(out, e);
    assert(out@ =~= start + fields_before_payload(e@, full)) by {
        if full {
            assert(s2 =~= s1 + key_and_sig(e@));
        } else {
            assert(s2 =~= s1 + Seq::<u8>::empty());
        }
    }
}

/// The dag-cbor codec code.
pub const DAG_CBOR: u64 = 0x71;

/// The sha2-256 multihash code.
pub const SHA2_256: u64 = 0x12;

/// Why an entry operation failed.
#[derive(Debug, Clone, Copy, PartialEq, Eq, Structural)]
pub enum EntryError {
    /// The entry has no dag-cbor encoding.
    Encode(EncodeError),
    /// A key or signature is not well-formed hex.
    Hex(HexError),
    /// The key bytes are not a secp256k1 public key.
    PublicKey,
    /// The signature bytes are not a DER ECDSA signature.
    Signature,
    /// The digest could not be wrapped into a multihash, or the CID could not
    /// be written out.
    Multihash,
}

/// The entry hash of these bytes: the base58btc text of the CIDv1 with the
/// dag-cbor codec over their sha2-256 multihash.
pub open spec fn cid_text(bytes: Seq<u8>) -> Seq<char> {
    cid_base58btc_text(DAG_CBOR, SHA2_256, sha256_digest(bytes))
}

/// What checking a secp256k1 signature gives, for a public key and a DER
/// signature that are both written in hex (given as the bytes of their
/// text): hex errors first (key, then signature), then a key that does not
/// parse, then a signature that does not parse, and otherwise whether the
/// signature verifies over `message`.
pub open spec fn signature_check(key_hex: Seq<u8>, message: Seq<u8>, sig_hex: Seq<u8>) -> Result<
    bool,
    EntryError,
> {
    match hex_decoding(key_hex) {
        Err(e) => Err(EntryError::Hex(e)),
        Ok(key) => match hex_decoding(sig_hex) {
            Err(e) => Err(EntryError::Hex(e)),
            Ok(sig) => if !sec1_key_parses(key) {
                Err(EntryError::PublicKey)
            } else if !der_signature_parses(sig) {
                Err(EntryError::Signature)
            } else {
                Ok(ecdsa_sha256_verifies(key, message, sig))
            },
        },
    }
}

/// CIDv1 (dag-cbor / sha2-256), base58btc-encoded.
pub fn cid_of(bytes: &[u8]) -> (r: Result<String, EntryError>)
    ensures
        r matches Ok(s) && s@ == cid_text(bytes@) && s@.len() > 0 && s@[0] == 'z',
{
    let digest = sha256(bytes);
    let mh = match multihash_wrap(SHA2_256, digest.as_slice()) {
        Ok(mh) => mh,
        Err(_) => return Err(EntryError::Multihash),
    };
    let c = cid_new_v1(DAG_CBOR, mh);
    match cid_to_base58btc(&c) {
        Ok(s) => Ok(s),
        Err(_) => Err(EntryError::Multihash),
    }
}

/// Verifies a secp256k1 ECDSA signature (DER, in hex) over `message`, hashing
/// with sha256, against a SEC1 public key (in hex).
pub fn verify_secp256k1(public_key_hex: &str, message: &[u8], der_sig_hex: &str) -> (r: Result<
    bool,
    EntryError,
>)
    ensures
        r == signature_check(public_key_hex.spec_bytes(), message@, der_sig_hex.spec_bytes()),
{
    let pk_bytes = match hex_decode(public_key_hex) {
        Ok(b) => b,
        Err(e) => return Err(EntryError::Hex(e)),
    };
    let sig_bytes = match hex_decode(der_sig_hex) {
        Ok(b) => b,
        Err(e) => return Err(EntryError::Hex(e)),
    };
    let key = match parse_sec1_key(pk_bytes.as_slice()) {
        Ok(k) => k,
        Err(_) => return Err(EntryError::PublicKey),
    };
    let sig = match parse_der_signature(sig_bytes.as_slice()) {
        Ok(s) => s,
        Err(_) => return Err(EntryError::Signature),
    };
    Ok(verify_with_key(&key, message, &sig))
}

impl Entry {
    /// Canonical dag-cbor bytes of the full entry.
    pub fn encode(&self) -> (r: Result<Vec<u8>, EntryError>)
        ensures
            match entry_encoding(self@) {
                Ok(b) => r matches Ok(v) && v@ == b,
                Err(e) => r matches Err(x) && x == EntryError::Encode(e),
            },
    {
        let mut out: Vec<u8> = Vec::new();
        out.push(0xa9);
        push_fields_before_payload(&mut out, self, true);
        let ghost before_payload = out@;
        match encode_ipld(&self.payload, &mut out) {
            Ok(()) => {},
            Err(e) => return Err(EntryError::Encode(e)),
        }
        let ghost after_payload = out@;
        proof {
            reveal_strlit("identity");
            assert("identity"@ =~= seq!['i', 'd', 'e', 'n', 't', 'i', 't', 'y']);
        }
        push_text(&mut out, "identity");
        push_text(&mut out, self.identity.as_str());
        proof {
            assert(out@ =~= entry_encoding(self@)->Ok_0);
        }
        Ok(out)
    }

    /// dag-cbor bytes of the signed projection (the bytes that were signed):
    /// the entry without its `key`, `sig` and `identity`.
    pub fn signed_bytes(&self) -> (r: Result<Vec<u8>, EntryError>)
        ensures
            match signed_encoding(self@) {
                Ok(b) => r matches Ok(v) && v@ == b,
                Err(e) => r matches Err(x) && x == EntryError::Encode(e),
            },
    {
        let mut out: Vec<u8> = Vec::new();
        out.push(0xa6);
        push_fields_before_payload(&mut out, self, false);
        match encode_ipld(&self.payload, &mut out) {
            Ok(()) => {},
            Err(e) => return Err(EntryError::Encode(e)),
        }
        proof {
            assert(out@ =~= signed_encoding(self@)->Ok_0);
        }
        Ok(out)
    }

    /// CIDv1 (dag-cbor / sha2-256) of the full entry, base58btc-encoded: the
    /// OrbitDB entry hash string (e.g. `zdpu...`).
    pub fn cid(&self) -> (r: Result<String, EntryError>)
        ensures
            match entry_encoding(self@) {
                Ok(b) => r matches Ok(s) && s@ == cid_text(b) && s@.len() > 0 && s@[0] == 'z',
                Err(e) => r matches Err(x) && x == EntryError::Encode(e),
            },
    {
        let bytes = self.encode()?;
        cid_of(bytes.as_slice())
    }

    /// Verifies the entry signature over its signed projection, against the
    /// entry's own `key`.
    pub fn verify_signature(&self) -> (r: Result<bool, EntryError>)
        ensures
            match signed_encoding(self@) {
                Ok(b) => r == signature_check(encode_utf8(self@.key), b, encode_utf8(self@.sig)),
                Err(e) => r matches Err(x) && x == EntryError::Encode(e),
            },
    {
        let signed = self.signed_bytes()?;
        verify_secp256k1(self.key.as_str(), signed.as_slice(), self.sig.as_str())
    }
}

/// The entry hash of any bytes, whatever their length, is the base58btc
/// text of the CIDv1 with the dag-cbor codec (`0x71`) over their sha2-256
/// (`0x12`) multihash; it never fails.
pub proof fn lemma_cid_of_law(bytes: &[u8], r: Result<String, EntryError>)
    requires
        call_ensures(cid_of, (bytes,), r),
    ensures
        r matches Ok(s) && s@ == cid_base58btc_text(0x71, 0x12, sha256_digest(bytes@)),
{
}

/// An encodable entry's hash is the base58btc text of the CIDv1 with the
/// dag-cbor codec (`0x71`) over the sha2-256 (`0x12`) multihash of its full
/// encoding, whatever its length.
pub proof fn lemma_entry_cid_law(e: &Entry, r: Result<String, EntryError>)
    requires
        call_ensures(Entry::cid, (e,), r),
        entry_encoding(e@) is Ok,
    ensures
        r matches Ok(s) && s@ == cid_base58btc_text(
            0x71,
            0x12,
            sha256_digest(entry_encoding(e@)->Ok_0),
        ),
{
}

/// When the key and the signature are hex that decodes, the key parses and
/// the signature parses, the answer is whether the signature verifies over
/// the whole message, whatever its length. A key that is not hex is
/// reported first, then a signature that is not hex, then a key that does
/// not parse, then a signature that does not parse.
pub proof fn lemma_verify_secp256k1_law(
    public_key_hex: &str,
    message: &[u8],
    der_sig_hex: &str,
    key: Seq<u8>,
    sig: Seq<u8>,
    r: Result<bool, EntryError>,
)
    requires
        call_ensures(verify_secp256k1, (public_key_hex, message, der_sig_hex), r),
    ensures
        hex_decoding(public_key_hex.spec_bytes()) == Ok::<Seq<u8>, HexError>(key) && hex_decoding(
            der_sig_hex.spec_bytes(),
        ) == Ok::<Seq<u8>, HexError>(sig) && sec1_key_parses(key) && der_signature_parses(sig)
            ==> r == Ok::<bool, EntryError>(ecdsa_sha256_verifies(key, message@, sig)),
        hex_decoding(public_key_hex.spec_bytes()) is Err ==> r == Err::<bool, EntryError>(
            EntryError::Hex(hex_decoding(public_key_hex.spec_bytes())->Err_0),
        ),
        hex_decoding(public_key_hex.spec_bytes()) == Ok::<Seq<u8>, HexError>(key) && hex_decoding(
            der_sig_hex.spec_bytes(),
        ) is Err ==> r == Err::<bool, EntryError>(
            EntryError::Hex(hex_decoding(der_sig_hex.spec_bytes())->Err_0),
        ),
        hex_decoding(public_key_hex.spec_bytes()) == Ok::<Seq<u8>, HexError>(key) && hex_decoding(
            der_sig_hex.spec_bytes(),
        ) is Ok && !sec1_key_parses(key) ==> r == Err::<bool, EntryError>(EntryError::PublicKey),
        hex_decoding(public_key_hex.spec_bytes()) == Ok::<Seq<u8>, HexError>(key) && hex_decoding(
            der_sig_hex.spec_bytes(),
        ) == Ok::<Seq<u8>, HexError>(sig) && sec1_key_parses(key) && !der_signature_parses(sig)
            ==> r == Err::<bool, EntryError>(EntryError::Signature),
{
}

/// An entry's signature check is over all of its signed bytes: when its key
/// and signature decode and parse, the answer is whether the signature
/// verifies over the whole signed projection, whatever its length.
pub proof fn lemma_verify_signature_law(
    e: &Entry,
    key: Seq<u8>,
    sig: Seq<u8>,
    r: Result<bool, EntryError>,
)
    requires
        call_ensures(Entry::verify_signature, (e,), r),
        signed_encoding(e@) is Ok,
        hex_decoding(encode_utf8(e@.key)) == Ok::<Seq<u8>, HexError>(key),
        hex_decoding(encode_utf8(e@.sig)) == Ok::<Seq<u8>, HexError>(sig),
        sec1_key_parses(key),
        der_signature_parses(sig),
    ensures
        r == Ok::<bool, EntryError>(
            ecdsa_sha256_verifies(key, signed_encoding(e@)->Ok_0, sig),
        ),
{
}

} // verus!
