//! Canonical dag-cbor: the CBOR encoding that IPLD uses for content
//! addressing. Integers and lengths take their shortest head, floats are
//! always 64-bit, map keys are text strings ordered length-first and then
//! bytewise, and links are CBOR tag 42 over the CID's bytes behind a zero
//! byte.

use vstd::prelude::*;
use vstd::utf8::encode_utf8;
use crate::bytes::{lex_lt, bytes_lt, push_all, lemma_lex_asymmetric};
use crate::ipld::{Ipld, IpldValue, list_value, map_value, lemma_list_value, lemma_map_value};

verus! {

broadcast use vstd::std_specs::vec::group_vec_axioms;

/// Why a value has no dag-cbor encoding.
#[derive(Debug, Clone, Copy, PartialEq, Eq, Structural)]
pub enum EncodeError {
    /// An integer outside `[-2^64, 2^64 - 1]`, the range CBOR can carry.
    IntegerOutOfRange,
    /// A float that is infinite or NaN; dag-cbor admits finite floats only.
    NonFiniteFloat,
    /// A map that holds one key twice.
    DuplicateMapKey,
}

/// The big-endian bytes of the low `width` bytes of `n`.
pub open spec fn be_bytes(n: u64, width: nat) -> Seq<u8>
    decreases width,
{
    if width == 0 {
        Seq::empty()
    } else {
        be_bytes(n / 256, (width - 1) as nat).push((n % 256) as u8)
    }
}

/// The shortest CBOR head of major type `major` with argument `n`.
pub open spec fn cbor_head(major: u8, n: u64) -> Seq<u8> {
    let m = major * 32;
    if n < 24 {
        seq![(m + n) as u8]
    } else if n < 0x100 {
        seq![(m + 24) as u8, n as u8]
    } else if n < 0x1_0000 {
        seq![(m + 25) as u8] + be_bytes(n, 2)
    } else if n < 0x1_0000_0000 {
        seq![(m + 26) as u8] + be_bytes(n, 4)
    } else {
        seq![(m + 27) as u8] + be_bytes(n, 8)
    }
}

/// A CBOR text string: its UTF-8 bytes behind their length.
pub open spec fn text_encoding(s: Seq<char>) -> Seq<u8> {
    cbor_head(3, encode_utf8(s).len() as u64) + encode_utf8(s)
}

/// The texts of `s`, one after the other, without a list head.
pub open spec fn texts_encoding(s: Seq<Seq<char>>) -> Seq<u8>
    decreases s.len(),
{
    if s.len() == 0 {
        Seq::empty()
    } else {
        texts_encoding(s.drop_last()) + text_encoding(s.last())
    }
}

/// A list of text strings.
pub open spec fn text_list_encoding(s: Seq<Seq<char>>) -> Seq<u8> {
    cbor_head(4, s.len() as u64) + texts_encoding(s)
}

/// An integer: major type 0 for `0..=2^64-1`, major type 1 (holding `-1 - i`)
/// for `-2^64..=-1`.
pub open spec fn integer_encoding(i: int) -> Result<Seq<u8>, EncodeError> {
    if 0 <= i <= u64::MAX {
        Ok(cbor_head(0, i as u64))
    } else if -0x1_0000_0000_0000_0000 <= i < 0 {
        Ok(cbor_head(1, (-1 - i) as u64))
    } else {
        Err(EncodeError::IntegerOutOfRange)
    }
}

/// Whether a binary64 bit pattern is a finite float (its exponent is not all ones).
pub open spec fn float_is_finite(bits: u64) -> bool {
    (bits / 0x10_0000_0000_0000) % 0x800 != 0x7ff
}

/// The canonical order of map keys, given as UTF-8 bytes: shorter keys
/// first, keys of one length bytewise.
pub open spec fn key_lt(a: Seq<u8>, b: Seq<u8>) -> bool {
    a.len() < b.len() || (a.len() == b.len() && lex_lt(a, b))
}

/// Whether no two entries of a map share a key.
pub open spec fn keys_distinct(entries: Seq<(Seq<char>, IpldValue)>) -> bool {
    forall|i: int, j: int|
        0 <= i < entries.len() && 0 <= j < entries.len() && i != j ==> entries[i].0
            != entries[j].0
}

/// The dag-cbor encoding of an IPLD value, or why it has none.
pub open spec fn value_encoding(v: IpldValue) -> Result<Seq<u8>, EncodeError>
    decreases v, 0int,
{
    match v {
        IpldValue::Null => Ok(seq![0xf6u8]),
        IpldValue::Bool(b) => Ok(
            if b {
                seq![0xf5u8]
            } else {
                seq![0xf4u8]
            },
        ),
        IpldValue::Integer(i) => integer_encoding(i),
        IpldValue::Float(bits) => if float_is_finite(bits) {
            Ok(seq![0xfbu8] + be_bytes(bits, 8))
        } else {
            Err(EncodeError::NonFiniteFloat)
        },
        IpldValue::String(s) => Ok(text_encoding(s)),
        IpldValue::Bytes(b) => Ok(cbor_head(2, b.len() as u64) + b),
        IpldValue::List(items) => match items_encoding(items) {
            Ok(body) => Ok(cbor_head(4, items.len() as u64) + body),
            Err(e) => Err(e),
        },
        IpldValue::Mapping(entries) => match entries_encoding(entries) {
            Ok(pairs) => if keys_distinct(entries) {
                Ok(cbor_head(5, entries.len() as u64) + sorted_entries_encoding(pairs))
            } else {
                Err(EncodeError::DuplicateMapKey)
            },
            Err(e) => Err(e),
        },
        IpldValue::Link(c) => Ok(
            seq![0xd8u8, 0x2au8] + cbor_head(2, (c.len() + 1) as u64) + seq![0u8] + c,
        ),
    }
}

/// The encodings of list items, one after the other; the first item that
/// has none decides the error.
pub open spec fn items_encoding(s: Seq<IpldValue>) -> Result<Seq<u8>, EncodeError>
    decreases s, 1int,
{
    if s.len() == 0 {
        Ok(Seq::empty())
    } else {
        match items_encoding(s.drop_last()) {
            Ok(body) => match value_encoding(s.last()) {
                Ok(b) => Ok(body + b),
                Err(e) => Err(e),
            },
            Err(e) => Err(e),
        }
    }
}

/// Each map entry as the UTF-8 bytes of its key and the encoding of its
/// value, in the order given; the first value that has no encoding decides
/// the error.
pub open spec fn entries_encoding(s: Seq<(Seq<char>, IpldValue)>) -> Result<
    Seq<(Seq<u8>, Seq<u8>)>,
    EncodeError,
>
    decreases s, 1int,
{
    if s.len() == 0 {
        Ok(Seq::empty())
    } else {
        match entries_encoding(s.drop_last()) {
            Ok(pairs) => match value_encoding(s.last().1) {
                Ok(b) => Ok(pairs.push((encode_utf8(s.last().0), b))),
                Err(e) => Err(e),
            },
            Err(e) => Err(e),
        }
    }
}

/// The index, among the first `n` pairs, of the first one whose key is least
/// in the canonical key order.
pub open spec fn min_key_index(p: Seq<(Seq<u8>, Seq<u8>)>, n: nat) -> int
    decreases n,
{
    if n <= 1 {
        0
    } else {
        let m = min_key_index(p, (n - 1) as nat);
        if key_lt(p[n - 1].0, p[m].0) {
            n - 1
        } else {
            m
        }
    }
}

pub proof fn lemma_min_key_index_bounds(p: Seq<(Seq<u8>, Seq<u8>)>, n: nat)
    ensures
        n >= 1 ==> 0 <= min_key_index(p, n) < n,
        n == 0 ==> min_key_index(p, n) == 0,
    decreases n,
{
    if n > 1 {
        lemma_min_key_index_bounds(p, (n - 1) as nat);
    }
}

/// Key/value pairs written out in the canonical key order: the pair with the
/// least key first, then the others.
pub open spec fn sorted_entries_encoding(p: Seq<(Seq<u8>, Seq<u8>)>) -> Seq<u8>
    decreases p.len(),
{
    if p.len() == 0 {
        Seq::empty()
    } else {
        let k = min_key_index(p, p.len());
        proof {
            lemma_min_key_index_bounds(p, p.len());
        }
        entry_chunk(p[k]) + sorted_entries_encoding(p.remove(k))
    }
}

/// One map entry: its key as a text string, then its value's encoding.
pub open spec fn entry_chunk(pair: (Seq<u8>, Seq<u8>)) -> Seq<u8> {
    cbor_head(3, pair.0.len() as u64) + pair.0 + pair.1
}

/// Whether the pairs are listed in strictly increasing canonical key order.
pub open spec fn keys_sorted(p: Seq<(Seq<u8>, Seq<u8>)>) -> bool {
    forall|i: int, j: int| 0 <= i < j < p.len() ==> key_lt(#[trigger] p[i].0, #[trigger] p[j].0)
}

/// The entry chunks of the pairs in the order listed.
pub open spec fn chunks_in_order(p: Seq<(Seq<u8>, Seq<u8>)>) -> Seq<u8>
    decreases p.len(),
{
    if p.len() == 0 {
        Seq::empty()
    } else {
        entry_chunk(p[0]) + chunks_in_order(p.drop_first())
    }
}

/// The canonical key order is asymmetric.
pub proof fn lemma_key_lt_asymmetric(a: Seq<u8>, b: Seq<u8>)
    requires
        key_lt(a, b),
    ensures
        !key_lt(b, a),
{
    if a.len() == b.len() {
        lemma_lex_asymmetric(a, b);
    }
}

/// Among pairs already in canonical key order, the first has the least key.
proof fn lemma_min_key_index_of_sorted(p: Seq<(Seq<u8>, Seq<u8>)>, n: nat)
    requires
        keys_sorted(p),
        1 <= n <= p.len(),
    ensures
        min_key_index(p, n) == 0,
    decreases n,
{
    if n > 1 {
        lemma_min_key_index_of_sorted(p, (n - 1) as nat);
        assert(key_lt(p[0].0, p[n - 1].0));
        lemma_key_lt_asymmetric(p[0].0, p[n - 1].0);
    }
}

/// Pairs already in canonical key order are written out in the order listed.
pub proof fn lemma_sorted_entries_in_order(p: Seq<(Seq<u8>, Seq<u8>)>)
    requires
        keys_sorted(p),
    ensures
        sorted_entries_encoding(p) == chunks_in_order(p),
    decreases p.len(),
{
    if p.len() > 0 {
        lemma_min_key_index_of_sorted(p, p.len());
        assert(p.remove(0) =~= p.drop_first());
        assert(keys_sorted(p.drop_first())) by {
            assert forall|i: int, j: int| 0 <= i < j < p.drop_first().len() implies key_lt(
                #[trigger] p.drop_first()[i].0,
                #[trigger] p.drop_first()[j].0,
            ) by {
                assert(p.drop_first()[i] == p[i + 1]);
                assert(p.drop_first()[j] == p[j + 1]);
            }
        }
        lemma_sorted_entries_in_order(p.drop_first());
    }
}

/// When every value of a map encodes, the entries encode pair by pair.
pub proof fn lemma_entries_encoding_all_ok(s: Seq<(Seq<char>, IpldValue)>)
    requires
        forall|i: int| 0 <= i < s.len() ==> (#[trigger] value_encoding(s[i].1)) is Ok,
    ensures
        entries_encoding(s) == Ok::<Seq<(Seq<u8>, Seq<u8>)>, EncodeError>(
            Seq::new(s.len(), |i: int| (encode_utf8(s[i].0), value_encoding(s[i].1)->Ok_0)),
        ),
    decreases s.len(),
{
    if s.len() == 0 {
        assert(Seq::new(s.len(), |i: int| (encode_utf8(s[i].0), value_encoding(s[i].1)->Ok_0))
            =~= Seq::<(Seq<u8>, Seq<u8>)>::empty());
    } else {
        assert forall|i: int| 0 <= i < s.drop_last().len() implies (#[trigger] value_encoding(
            s.drop_last()[i].1,
        )) is Ok by {
            assert(s.drop_last()[i] == s[i]);
        }
        lemma_entries_encoding_all_ok(s.drop_last());
        assert(value_encoding(s[s.len() - 1].1) is Ok);
        let pairs = Seq::new(
            s.drop_last().len(),
            |i: int| (encode_utf8(s.drop_last()[i].0), value_encoding(s.drop_last()[i].1)->Ok_0),
        );
        assert(pairs.push((encode_utf8(s.last().0), value_encoding(s.last().1)->Ok_0)) =~= Seq::new(
            s.len(),
            |i: int| (encode_utf8(s[i].0), value_encoding(s[i].1)->Ok_0),
        ));
    }
}

/// When the first value of a map that fails to encode is at `k`, its error is
/// the error of the entries.
pub proof fn lemma_entries_encoding_first_error(s: Seq<(Seq<char>, IpldValue)>, k: int)
    requires
        0 <= k < s.len(),
        forall|i: int| 0 <= i < k ==> (#[trigger] value_encoding(s[i].1)) is Ok,
        value_encoding(s[k].1) is Err,
    ensures
        entries_encoding(s) == Err::<Seq<(Seq<u8>, Seq<u8>)>, EncodeError>(
            value_encoding(s[k].1)->Err_0,
        ),
    decreases s.len(),
{
    if k < s.len() - 1 {
        assert forall|i: int| 0 <= i < k implies (#[trigger] value_encoding(
            s.drop_last()[i].1,
        )) is Ok by {
            assert(s.drop_last()[i] == s[i]);
        }
        assert(s.drop_last()[k] == s[k]);
        lemma_entries_encoding_first_error(s.drop_last(), k);
    } else {
        assert forall|i: int| 0 <= i < s.drop_last().len() implies (#[trigger] value_encoding(
            s.drop_last()[i].1,
        )) is Ok by {
            assert(s.drop_last()[i] == s[i]);
        }
        lemma_entries_encoding_all_ok(s.drop_last());
    }
}

/// Strings as IPLD values.
pub open spec fn string_items(s: Seq<Seq<char>>) -> Seq<IpldValue> {
    Seq::new(s.len(), |i: int| IpldValue::String(s[i]))
}

/// A list of strings encodes as the list of their texts.
pub proof fn lemma_string_list_encoding(s: Seq<Seq<char>>)
    ensures
        items_encoding(string_items(s)) == Ok::<Seq<u8>, EncodeError>(texts_encoding(s)),
    decreases s.len(),
{
    if s.len() > 0 {
        lemma_string_list_encoding(s.drop_last());
        assert(string_items(s).drop_last() =~= string_items(s.drop_last()));
        assert(string_items(s).last() == IpldValue::String(s.last()));
        assert(value_encoding(IpldValue::String(s.last())) == Ok::<Seq<u8>, EncodeError>(
            text_encoding(s.last()),
        ));
        assert(texts_encoding(s) == texts_encoding(s.drop_last()) + text_encoding(s.last()));
    } else {
        assert(string_items(s).len() == 0);
    }
}

/// Appends the low `width` bytes of `n`, most significant first.
pub fn push_be(out: &mut Vec<u8>, n: u64, width: usize)
    ensures
        final(out)@ == old(out)@ + be_bytes(n, width as nat),
    decreases width,
{
    if width > 0 {
        push_be(out, n / 256, width - 1);
        out.push((n % 256) as u8);
    }
}

/// Appends the shortest CBOR head of major type `major` with argument `n`.
pub fn push_head(out: &mut Vec<u8>, major: u8, n: u64)
    requires
        major < 8,
    ensures
        final(out)@ == old(out)@ + cbor_head(major, n),
{
    let m: u8 = major * 32;
    if n < 24 {
        out.push(m + n as u8);
    } else if n < 0x100 {
        out.push(m + 24);
        out.push(n as u8);
    } else if n < 0x1_0000 {
        out.push(m + 25);
        push_be(out, n, 2);
    } else if n < 0x1_0000_0000 {
        out.push(m + 26);
        push_be(out, n, 4);
    } else {
        out.push(m + 27);
        push_be(out, n, 8);
    }
}

/// Appends `s` as a CBOR text string.
pub fn push_text(out: &mut Vec<u8>, s: &str)
    ensures
        final(out)@ == old(out)@ + text_encoding(s@),
{
    let b = s.as_bytes();
    push_head(out, 3, b.len() as u64);
    push_all(out, b);
}

/// Appends a list of text strings.
pub fn push_text_list(out: &mut Vec<u8>, v: &Vec<String>)
    ensures
        final(out)@ == old(out)@ + text_list_encoding(v.deep_view()),
{
    let ghost start = out@;
    let ghost s = v.deep_view();
    push_head(out, 4, v.len() as u64);
    let ghost with_head = out@;
    let mut i: usize = 0;
    while i < v.len()
        invariant
            i <= v.len(),
            s == v.deep_view(),
            s.len() == v.len(),
            out@ == with_head + texts_encoding(s.take(i as int)),
            with_head == start + cbor_head(4, v.len() as u64),
        decreases v.len() - i,
    {
        push_text(out, v[i].as_str());
        assert(s.take(i + 1).drop_last() =~= s.take(i as int));
        assert(s[i as int] == v@[i as int]@);
        i = i + 1;
    }
    assert(s.take(v.len() as int) =~= s);
}

/// An encoding error of the prefix of a list stays the error of every
/// longer prefix.
proof fn lemma_items_error_persists(s: Seq<IpldValue>, i: int, j: int)
    requires
        0 <= i <= j <= s.len(),
        items_encoding(s.take(i)) is Err,
    ensures
        items_encoding(s.take(j)) == items_encoding(s.take(i)),
    decreases j - i,
{
    if j > i {
        lemma_items_error_persists(s, i, j - 1);
        assert(s.take(j).drop_last() =~= s.take(j - 1));
    }
}

/// An encoding error of a prefix of a map stays the error of every longer
/// prefix.
proof fn lemma_entries_error_persists(s: Seq<(Seq<char>, IpldValue)>, i: int, j: int)
    requires
        0 <= i <= j <= s.len(),
        entries_encoding(s.take(i)) is Err,
    ensures
        entries_encoding(s.take(j)) == entries_encoding(s.take(i)),
    decreases j - i,
{
    if j > i {
        lemma_entries_error_persists(s, i, j - 1);
        assert(s.take(j).drop_last() =~= s.take(j - 1));
    }
}

/// The byte view of a vector of key/value byte buffers.
pub open spec fn pairs_view(p: Seq<(Vec<u8>, Vec<u8>)>) -> Seq<(Seq<u8>, Seq<u8>)> {
    Seq::new(p.len(), |i: int| (p[i].0@, p[i].1@))
}

/// Whether key `a` sorts before key `b` in the canonical key order.
fn key_lt_exec(a: &Vec<u8>, b: &Vec<u8>) -> (r: bool)
    ensures
        r == key_lt(a@, b@),
{
    a.len() < b.len() || (a.len() == b.len() && bytes_lt(a.as_slice(), b.as_slice()))
}

/// The index of the first pair whose key is least.
fn min_key_index_exec(p: &Vec<(Vec<u8>, Vec<u8>)>) -> (k: usize)
    requires
        p.len() > 0,
    ensures
        k as int == min_key_index(pairs_view(p@), p.len() as nat),
        k < p.len(),
{
    let ghost pv = pairs_view(p@);
    let mut m: usize = 0;
    let mut j: usize = 1;
    while j < p.len()
        invariant
            1 <= j <= p.len(),
            pv == pairs_view(p@),
            m as int == min_key_index(pv, j as nat),
            m < j,
        decreases p.len() - j,
    {
        if key_lt_exec(&p[j].0, &p[m].0) {
            m = j;
        }
        j = j + 1;
    }
    m
}

/// Appends the pairs in the canonical key order, consuming them.
fn push_sorted_entries(out: &mut Vec<u8>, pairs: Vec<(Vec<u8>, Vec<u8>)>)
    ensures
        final(out)@ == old(out)@ + sorted_entries_encoding(pairs_view(pairs@)),
{
    let ghost start = out@;
    let ghost all = pairs_view(pairs@);
    let mut rest = pairs;
    while rest.len() > 0
        invariant
            start + sorted_entries_encoding(all) == out@ + sorted_entries_encoding(
                pairs_view(rest@),
            ),
        decreases rest.len(),
    {
        let ghost rv = pairs_view(rest@);
        let k = min_key_index_exec(&rest);
        let (key, val) = rest.remove(k);
        push_head(out, 3, key.len() as u64);
        push_all(out, key.as_slice());
        push_all(out, val.as_slice());
        proof {
            assert(pairs_view(rest@) =~= rv.remove(k as int));
            assert(rv[k as int] == (key@, val@));
        }
    }
    assert(pairs_view(rest@) =~= Seq::<(Seq<u8>, Seq<u8>)>::empty());
}

/// Appends the dag-cbor encoding of `v`; fails, with what the encoding names,
/// when `v` has none (what was appended before the failure is unspecified).
pub fn encode_ipld(v: &Ipld, out: &mut Vec<u8>) -> (r: Result<(), EncodeError>)
    ensures
        match value_encoding(v@) {
            Ok(b) => r is Ok && final(out)@ == old(out)@ + b,
            Err(e) => r == Err::<(), EncodeError>(e),
        },
    decreases v, 1nat,
{
    match v {
        Ipld::Null => {
            out.push(0xf6);
            Ok(())
        },
        Ipld::Bool(b) => {
            out.push(if *b { 0xf5 } else { 0xf4 });
            Ok(())
        },
        Ipld::Integer(i) => {
            let i = *i;
            if 0 <= i && i <= 0xffff_ffff_ffff_ffff {
                push_head(out, 0, i as u64);
                Ok(())
            } else if -0x1_0000_0000_0000_0000 <= i && i < 0 {
                push_head(out, 1, (-1 - i) as u64);
                Ok(())
            } else {
                Err(EncodeError::IntegerOutOfRange)
            }
        },
        Ipld::Float(bits) => {
            if (*bits / 0x10_0000_0000_0000) % 0x800 != 0x7ff {
                out.push(0xfb);
                push_be(out, *bits, 8);
                Ok(())
            } else {
                Err(EncodeError::NonFiniteFloat)
            }
        },
        Ipld::String(s) => {
            push_text(out, s.as_str());
            Ok(())
        },
        Ipld::Bytes(b) => {
            push_head(out, 2, b.len() as u64);
            push_all(out, b.as_slice());
            Ok(())
        },
        Ipld::List(items) => {
            proof {
                assert(decreases_to!(*v => *items));
            }
            encode_list(items, out)
        },
        Ipld::Mapping(entries) => {
            proof {
                assert(decreases_to!(*v => *entries));
            }
            encode_map(entries, out)
        },
        Ipld::Link(c) => {
            let mut body: Vec<u8> = Vec::new();
            body.push(0);
            push_all(&mut body, c.as_slice());
            out.push(0xd8);
            out.push(0x2a);
            push_head(out, 2, body.len() as u64);
            push_all(out, body.as_slice());
            assert(body@ =~= seq![0u8] + c@);
            Ok(())
        },
    }
}

/// Appends the dag-cbor encoding of a list with these items.
fn encode_list(items: &Vec<Ipld>, out: &mut Vec<u8>) -> (r: Result<(), EncodeError>)
    ensures
        match value_encoding(IpldValue::List(list_value(items@))) {
            Ok(b) => r is Ok && final(out)@ == old(out)@ + b,
            Err(e) => r == Err::<(), EncodeError>(e),
        },
    decreases *items, 0nat,
{
    let ghost lv = list_value(items@);
    proof {
        lemma_list_value(items@);
    }
    push_head(out, 4, items.len() as u64);
    let ghost with_head = out@;
    let mut i: usize = 0;
    assert(lv.take(0) =~= Seq::<IpldValue>::empty());
    assert(out@.skip(with_head.len() as int) =~= Seq::<u8>::empty());
    while i < items.len()
        invariant
            i <= items.len(),
            lv == list_value(items@),
            lv.len() == items.len(),
            forall|k: int| 0 <= k < items.len() ==> #[trigger] lv[k] == items@[k]@,
            items_encoding(lv.take(i as int)) == Ok::<Seq<u8>, EncodeError>(
                out@.skip(with_head.len() as int),
            ),
            with_head.len() <= out@.len(),
            out@.take(with_head.len() as int) == with_head,
        decreases items.len() - i,
    {
        proof {
            assert(decreases_to!(*items => items@));
            assert(decreases_to!(items@ => items@[i as int]));
        }
        let ghost before = out@;
        let r = encode_ipld(&items[i], out);
        assert(lv.take(i + 1).drop_last() =~= lv.take(i as int));
        assert(lv.take(i + 1).last() == items@[i as int]@);
        match r {
            Err(e) => {
                proof {
                    lemma_items_error_persists(lv, i + 1, lv.len() as int);
                    assert(lv.take(lv.len() as int) =~= lv);
                }
                return Err(e);
            },
            Ok(()) => {},
        }
        assert(out@.skip(with_head.len() as int) =~= before.skip(with_head.len() as int)
            + value_encoding(items@[i as int]@)->Ok_0);
        assert(out@.take(with_head.len() as int) =~= before.take(with_head.len() as int));
        i = i + 1;
    }
    assert(lv.take(items.len() as int) =~= lv);
    assert(out@ =~= with_head + out@.skip(with_head.len() as int));
    Ok(())
}

/// Appends the dag-cbor encoding of a map with these entries.
fn encode_map(entries: &Vec<(String, Ipld)>, out: &mut Vec<u8>) -> (r: Result<(), EncodeError>)
    ensures
        match value_encoding(IpldValue::Mapping(map_value(entries@))) {
            Ok(b) => r is Ok && final(out)@ == old(out)@ + b,
            Err(e) => r == Err::<(), EncodeError>(e),
        },
    decreases *entries, 0nat,
{
    let ghost mv = map_value(entries@);
    proof {
        lemma_map_value(entries@);
    }
    let mut pairs: Vec<(Vec<u8>, Vec<u8>)> = Vec::new();
    let mut i: usize = 0;
    assert(mv.take(0) =~= Seq::<(Seq<char>, IpldValue)>::empty());
    assert(pairs_view(pairs@) =~= Seq::<(Seq<u8>, Seq<u8>)>::empty());
    while i < entries.len()
        invariant
            i <= entries.len(),
            mv == map_value(entries@),
            mv.len() == entries.len(),
            forall|k: int|
                0 <= k < entries.len() ==> #[trigger] mv[k] == (
                    entries@[k].0@,
                    entries@[k].1@,
                ),
            entries_encoding(mv.take(i as int)) == Ok::<Seq<(Seq<u8>, Seq<u8>)>, EncodeError>(
                pairs_view(pairs@),
            ),
        decreases entries.len() - i,
    {
        proof {
            assert(decreases_to!(*entries => entries@));
            assert(decreases_to!(entries@ => entries@[i as int]));
            assert(decreases_to!(entries@[i as int] => entries@[i as int].1));
        }
        let mut val: Vec<u8> = Vec::new();
        let r = encode_ipld(&entries[i].1, &mut val);
        assert(mv.take(i + 1).drop_last() =~= mv.take(i as int));
        assert(mv.take(i + 1).last() == (entries@[i as int].0@, entries@[i as int].1@));
        match r {
            Err(e) => {
                proof {
                    lemma_entries_error_persists(mv, i + 1, mv.len() as int);
                    assert(mv.take(mv.len() as int) =~= mv);
                }
                return Err(e);
            },
            Ok(()) => {},
        }
        let mut key: Vec<u8> = Vec::new();
        push_all(&mut key, entries[i].0.as_str().as_bytes());
        let ghost old_pairs = pairs@;
        pairs.push((key, val));
        assert(pairs_view(pairs@) =~= pairs_view(old_pairs).push((key@, val@)));
        assert(val@ =~= value_encoding(entries@[i as int].1@)->Ok_0);
        assert(key@ =~= encode_utf8(entries@[i as int].0@));
        i = i + 1;
    }
    assert(mv.take(entries.len() as int) =~= mv);
    let mut a: usize = 0;
    while a < entries.len()
        invariant
            a <= entries.len(),
            mv == map_value(entries@),
            mv.len() == entries.len(),
            forall|k: int|
                0 <= k < entries.len() ==> #[trigger] mv[k] == (
                    entries@[k].0@,
                    entries@[k].1@,
                ),
            forall|x: int, y: int| 0 <= x < a && 0 <= y < a && x != y ==> mv[x].0 != mv[y].0,
            entries_encoding(mv) == Ok::<Seq<(Seq<u8>, Seq<u8>)>, EncodeError>(pairs_view(pairs@)),
        decreases entries.len() - a,
    {
        let mut b: usize = 0;
        while b < a
            invariant
                b <= a < entries.len(),
                mv == map_value(entries@),
                mv.len() == entries.len(),
                forall|k: int|
                    0 <= k < entries.len() ==> #[trigger] mv[k] == (
                        entries@[k].0@,
                        entries@[k].1@,
                    ),
                forall|y: int| 0 <= y < b ==> mv[a as int].0 != mv[y].0,
                entries_encoding(mv) is Ok,
            decreases a - b,
        {
            if entries[a].0 == entries[b].0 {
                assert(!keys_distinct(mv)) by {
                    assert(mv[a as int].0 == mv[b as int].0);
                }
                return Err(EncodeError::DuplicateMapKey);
            }
            b = b + 1;
        }
        a = a + 1;
    }
    push_head(out, 5, entries.len() as u64);
    push_sorted_entries(out, pairs);
    Ok(())
}

} // verus!
