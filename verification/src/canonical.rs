//! An entry, and its signed projection, are encoded as the canonical
//! dag-cbor maps of their fields.

use vstd::prelude::*;
use vstd::utf8::{encode_utf8, is_ascii_chars, is_ascii_chars_encode_utf8};
use crate::bytes::{
    lex_lt, lemma_lex_irreflexive, lemma_lex_asymmetric, lemma_lex_transitive, lemma_lex_total,
    lemma_utf8_injective, lemma_lex_lt_by_bytes,
};
use vstd::seq_lib::group_to_multiset_ensures;
use crate::cbor::{
    EncodeError, value_encoding, entries_encoding, keys_distinct, keys_sorted, key_lt,
    sorted_entries_encoding, chunks_in_order, min_key_index, lemma_min_key_index_bounds, entry_chunk, string_items, text_encoding,
    texts_encoding, text_list_encoding, cbor_head, lemma_sorted_entries_in_order,
    lemma_entries_encoding_all_ok, lemma_entries_encoding_first_error, lemma_string_list_encoding,
};
use crate::entry::{EntryView, ClockView, entry_encoding, signed_encoding, clock_encoding, name};
use crate::ipld::IpldValue;

verus! {

/// A clock as an IPLD map.
pub open spec fn clock_value(c: ClockView) -> IpldValue {
    IpldValue::Mapping(
        seq![
            (seq!['i', 'd'], IpldValue::String(c.id)),
            (seq!['t', 'i', 'm', 'e'], IpldValue::Integer(c.time as int)),
        ],
    )
}

/// The fields of the signed projection, as IPLD map entries.
pub open spec fn signed_fields(e: EntryView) -> Seq<(Seq<char>, IpldValue)> {
    seq![
        (seq!['v'], IpldValue::Integer(e.v as int)),
        (seq!['i', 'd'], IpldValue::String(e.id)),
        (seq!['n', 'e', 'x', 't'], IpldValue::List(string_items(e.next))),
        (seq!['r', 'e', 'f', 's'], IpldValue::List(string_items(e.refs))),
        (seq!['c', 'l', 'o', 'c', 'k'], clock_value(e.clock)),
        (seq!['p', 'a', 'y', 'l', 'o', 'a', 'd'], e.payload),
    ]
}

/// The fields of a full entry, as IPLD map entries.
pub open spec fn entry_fields(e: EntryView) -> Seq<(Seq<char>, IpldValue)> {
    seq![
        (seq!['v'], IpldValue::Integer(e.v as int)),
        (seq!['i', 'd'], IpldValue::String(e.id)),
        (seq!['k', 'e', 'y'], IpldValue::String(e.key)),
        (seq!['s', 'i', 'g'], IpldValue::String(e.sig)),
        (seq!['n', 'e', 'x', 't'], IpldValue::List(string_items(e.next))),
        (seq!['r', 'e', 'f', 's'], IpldValue::List(string_items(e.refs))),
        (seq!['c', 'l', 'o', 'c', 'k'], clock_value(e.clock)),
        (seq!['p', 'a', 'y', 'l', 'o', 'a', 'd'], e.payload),
        (seq!['i', 'd', 'e', 'n', 't', 'i', 't', 'y'], IpldValue::String(e.identity)),
    ]
}

/// The UTF-8 bytes of an ASCII field name are its chars.
proof fn lemma_ascii_name(k: Seq<char>)
    requires
        is_ascii_chars(k),
    ensures
        encode_utf8(k).len() == k.len(),
        forall|i: int| 0 <= i < k.len() ==> encode_utf8(k)[i] == k[i] as u8,
{
    is_ascii_chars_encode_utf8(k);
}

/// A clock is encoded as the canonical map of its two fields.
pub proof fn lemma_clock_is_canonical_map(c: ClockView)
    ensures
        value_encoding(clock_value(c)) == Ok::<Seq<u8>, EncodeError>(clock_encoding(c)),
{
    let f = clock_value(c)->Mapping_0;
    let k0 = seq!['i', 'd'];
    let k1 = seq!['t', 'i', 'm', 'e'];
    lemma_ascii_name(k0);
    lemma_ascii_name(k1);
    assert(value_encoding(f[0].1) is Ok);
    assert(value_encoding(f[1].1) == Ok::<Seq<u8>, EncodeError>(cbor_head(0, c.time)));
    lemma_entries_encoding_all_ok(f);
    let pairs = entries_encoding(f)->Ok_0;
    assert(keys_distinct(f)) by {
        assert(f[0].0.len() != f[1].0.len());
    }
    assert(keys_sorted(pairs)) by {
        assert(pairs[0].0.len() < pairs[1].0.len());
    }
    lemma_sorted_entries_in_order(pairs);
    reveal_with_fuel(chunks_in_order, 3);
    assert(pairs.drop_first().drop_first() =~= Seq::<(Seq<u8>, Seq<u8>)>::empty());
    assert(cbor_head(5, 2) == seq![0xa2u8]);
    assert(value_encoding(clock_value(c))->Ok_0 =~= clock_encoding(c));
}

/// Each field's name as UTF-8 bytes, with its value's encoding.
pub open spec fn field_pairs(f: Seq<(Seq<char>, IpldValue)>) -> Seq<(Seq<u8>, Seq<u8>)> {
    Seq::new(f.len(), |i: int| (encode_utf8(f[i].0), value_encoding(f[i].1)->Ok_0))
}

/// Map entries whose values all encode and whose keys come in strictly
/// increasing canonical order are written out in the order listed.
pub proof fn lemma_map_in_key_order(f: Seq<(Seq<char>, IpldValue)>)
    requires
        forall|i: int| 0 <= i < f.len() ==> (#[trigger] value_encoding(f[i].1)) is Ok,
        forall|i: int, j: int|
            0 <= i < j < f.len() ==> key_lt(encode_utf8(#[trigger] f[i].0), encode_utf8(#[trigger] f[j].0)),
    ensures
        value_encoding(IpldValue::Mapping(f)) == Ok::<Seq<u8>, EncodeError>(
            cbor_head(5, f.len() as u64) + chunks_in_order(field_pairs(f)),
        ),
{
    lemma_entries_encoding_all_ok(f);
    let pairs = entries_encoding(f)->Ok_0;
    assert(keys_distinct(f)) by {
        assert forall|i: int, j: int|
            0 <= i < f.len() && 0 <= j < f.len() && i != j implies f[i].0 != f[j].0 by {
            if i < j {
                assert(key_lt(encode_utf8(f[i].0), encode_utf8(f[j].0)));
                if f[i].0 == f[j].0 {
                    lemma_lex_irreflexive(encode_utf8(f[i].0));
                }
            } else {
                assert(key_lt(encode_utf8(f[j].0), encode_utf8(f[i].0)));
                if f[i].0 == f[j].0 {
                    lemma_lex_irreflexive(encode_utf8(f[i].0));
                }
            }
        }
    }
    assert(keys_sorted(pairs)) by {
        assert forall|i: int, j: int| 0 <= i < j < pairs.len() implies key_lt(
            #[trigger] pairs[i].0,
            #[trigger] pairs[j].0,
        ) by {
            assert(key_lt(encode_utf8(f[i].0), encode_utf8(f[j].0)));
        }
    }
    lemma_sorted_entries_in_order(pairs);
}

/// The names of the signed projection's fields, in canonical order.
pub open spec fn signed_names() -> Seq<Seq<char>> {
    seq![
        seq!['v'],
        seq!['i', 'd'],
        seq!['n', 'e', 'x', 't'],
        seq!['r', 'e', 'f', 's'],
        seq!['c', 'l', 'o', 'c', 'k'],
        seq!['p', 'a', 'y', 'l', 'o', 'a', 'd'],
    ]
}

proof fn lemma_signed_names_in_key_order()
    ensures
        forall|i: int, j: int|
            0 <= i < j < 6 ==> key_lt(
                encode_utf8(#[trigger] signed_names()[i]),
                encode_utf8(#[trigger] signed_names()[j]),
            ),
{
    let n = signed_names();
    lemma_ascii_name(n[0]);
    lemma_ascii_name(n[1]);
    lemma_ascii_name(n[2]);
    lemma_ascii_name(n[3]);
    lemma_ascii_name(n[4]);
    lemma_ascii_name(n[5]);
    assert(encode_utf8(n[2])[0] == 0x6eu8);
    assert(encode_utf8(n[3])[0] == 0x72u8);
    assert(lex_lt(encode_utf8(n[2]), encode_utf8(n[3])));
}

/// Appending a pair appends its chunk.
proof fn lemma_chunks_push(p: Seq<(Seq<u8>, Seq<u8>)>, x: (Seq<u8>, Seq<u8>))
    ensures
        chunks_in_order(p.push(x)) == chunks_in_order(p) + entry_chunk(x),
    decreases p.len(),
{
    if p.len() == 0 {
        assert(p.push(x).drop_first() =~= Seq::<(Seq<u8>, Seq<u8>)>::empty());
        assert(chunks_in_order(p.push(x).drop_first()) == Seq::<u8>::empty());
        assert(chunks_in_order(p) == Seq::<u8>::empty());
        assert(chunks_in_order(p.push(x)) =~= entry_chunk(x));
    } else {
        assert(p.push(x).drop_first() =~= p.drop_first().push(x));
        lemma_chunks_push(p.drop_first(), x);
        assert(chunks_in_order(p.push(x)) =~= chunks_in_order(p) + entry_chunk(x));
    }
}

/// The chunks of six pairs, one after the other.
proof fn lemma_chunks_of_six(pairs: Seq<(Seq<u8>, Seq<u8>)>)
    requires
        pairs.len() == 6,
    ensures
        chunks_in_order(pairs) == entry_chunk(pairs[0]) + entry_chunk(pairs[1]) + entry_chunk(
            pairs[2],
        ) + entry_chunk(pairs[3]) + entry_chunk(pairs[4]) + entry_chunk(pairs[5]),
{
    let s0 = Seq::<(Seq<u8>, Seq<u8>)>::empty();
    let s1 = s0.push(pairs[0]);
    let s2 = s1.push(pairs[1]);
    let s3 = s2.push(pairs[2]);
    let s4 = s3.push(pairs[3]);
    let s5 = s4.push(pairs[4]);
    let s6 = s5.push(pairs[5]);
    assert(pairs =~= s6);
    lemma_chunks_push(s0, pairs[0]);
    lemma_chunks_push(s1, pairs[1]);
    lemma_chunks_push(s2, pairs[2]);
    lemma_chunks_push(s3, pairs[3]);
    lemma_chunks_push(s4, pairs[4]);
    lemma_chunks_push(s5, pairs[5]);
    assert(chunks_in_order(s0) == Seq::<u8>::empty());
    assert(chunks_in_order(s1) =~= entry_chunk(pairs[0]));
}

/// Regrouping the concatenation of six name/value chunks as
/// `signed_encoding` groups them.
proof fn lemma_regroup_six(
    h: Seq<u8>,
    x0: Seq<u8>,
    y0: Seq<u8>,
    x1: Seq<u8>,
    y1: Seq<u8>,
    x2: Seq<u8>,
    y2: Seq<u8>,
    x3: Seq<u8>,
    y3: Seq<u8>,
    x4: Seq<u8>,
    y4: Seq<u8>,
    x5: Seq<u8>,
    y5: Seq<u8>,
)
    ensures
        h + ((x0 + y0) + (x1 + y1) + (x2 + y2) + (x3 + y3) + (x4 + y4) + (x5 + y5)) == h + ((x0
            + y0 + x1 + y1) + Seq::<u8>::empty() + (x2 + y2 + x3 + y3 + x4 + y4 + x5)) + y5,
{
    assert(h + ((x0 + y0) + (x1 + y1) + (x2 + y2) + (x3 + y3) + (x4 + y4) + (x5 + y5)) =~= h + ((x0
        + y0 + x1 + y1) + Seq::<u8>::empty() + (x2 + y2 + x3 + y3 + x4 + y4 + x5)) + y5);
}

/// The encodings of the signed projection's fields other than the payload.
proof fn lemma_signed_field_values(e: EntryView)
    ensures
        value_encoding(signed_fields(e)[0].1) == Ok::<Seq<u8>, EncodeError>(
            cbor_head(0, e.v as u64),
        ),
        value_encoding(signed_fields(e)[1].1) == Ok::<Seq<u8>, EncodeError>(text_encoding(e.id)),
        value_encoding(signed_fields(e)[2].1) == Ok::<Seq<u8>, EncodeError>(
            text_list_encoding(e.next),
        ),
        value_encoding(signed_fields(e)[3].1) == Ok::<Seq<u8>, EncodeError>(
            text_list_encoding(e.refs),
        ),
        value_encoding(signed_fields(e)[4].1) == Ok::<Seq<u8>, EncodeError>(
            clock_encoding(e.clock),
        ),
        signed_fields(e)[5].1 == e.payload,
        signed_fields(e).len() == 6,
        forall|i: int| 0 <= i < 6 ==> #[trigger] signed_fields(e)[i].0 == signed_names()[i],
{
    lemma_string_list_encoding(e.next);
    lemma_string_list_encoding(e.refs);
    lemma_clock_is_canonical_map(e.clock);
}

/// When the payload of an entry encodes, the signed projection's map is
/// written out in the order its fields are listed.
proof fn lemma_signed_map_in_order(e: EntryView)
    requires
        value_encoding(e.payload) is Ok,
    ensures
        value_encoding(IpldValue::Mapping(signed_fields(e))) == Ok::<Seq<u8>, EncodeError>(
            cbor_head(5, 6) + chunks_in_order(field_pairs(signed_fields(e))),
        ),
{
    let f = signed_fields(e);
    lemma_signed_field_values(e);
    assert forall|i: int| 0 <= i < f.len() implies (#[trigger] value_encoding(f[i].1)) is Ok by {
        if i == 0 {
        } else if i == 1 {
        } else if i == 2 {
        } else if i == 3 {
        } else if i == 4 {
        } else {
        }
    }
    lemma_signed_names_in_key_order();
    assert forall|i: int, j: int| 0 <= i < j < f.len() implies key_lt(
        encode_utf8(#[trigger] f[i].0),
        encode_utf8(#[trigger] f[j].0),
    ) by {
        assert(key_lt(encode_utf8(signed_names()[i]), encode_utf8(signed_names()[j])));
    }
    lemma_map_in_key_order(f);
}

/// The chunks of the signed projection's fields, in the order listed, are
/// the bytes that follow the map head in `signed_encoding`.
proof fn lemma_signed_chunks(e: EntryView, p: Seq<u8>)
    requires
        value_encoding(e.payload) == Ok::<Seq<u8>, EncodeError>(p),
    ensures
        signed_encoding(e) == Ok::<Seq<u8>, EncodeError>(
            cbor_head(5, 6) + chunks_in_order(field_pairs(signed_fields(e))),
        ),
{
    let pairs = field_pairs(signed_fields(e));
    lemma_signed_field_values(e);
    lemma_chunks_of_six(pairs);
    assert(entry_chunk(pairs[0]) == name(seq!['v']) + cbor_head(0, e.v as u64));
    assert(entry_chunk(pairs[1]) == name(seq!['i', 'd']) + text_encoding(e.id));
    assert(entry_chunk(pairs[2]) == name(seq!['n', 'e', 'x', 't']) + text_list_encoding(e.next));
    assert(entry_chunk(pairs[3]) == name(seq!['r', 'e', 'f', 's']) + text_list_encoding(e.refs));
    assert(entry_chunk(pairs[4]) == name(seq!['c', 'l', 'o', 'c', 'k']) + clock_encoding(
        e.clock,
    ));
    assert(entry_chunk(pairs[5]) == name(seq!['p', 'a', 'y', 'l', 'o', 'a', 'd']) + p);
    assert(cbor_head(5, 6) == seq![0xa6u8]);
    lemma_regroup_six(
        seq![0xa6u8],
        name(seq!['v']),
        cbor_head(0, e.v as u64),
        name(seq!['i', 'd']),
        text_encoding(e.id),
        name(seq!['n', 'e', 'x', 't']),
        text_list_encoding(e.next),
        name(seq!['r', 'e', 'f', 's']),
        text_list_encoding(e.refs),
        name(seq!['c', 'l', 'o', 'c', 'k']),
        clock_encoding(e.clock),
        name(seq!['p', 'a', 'y', 'l', 'o', 'a', 'd']),
        p,
    );
}

/// The signed projection is encoded as the canonical dag-cbor map of its six
/// fields; when the payload has no encoding, neither has the projection, for
/// the same reason.
pub proof fn lemma_signed_is_canonical_map(e: EntryView)
    ensures
        signed_encoding(e) == value_encoding(IpldValue::Mapping(signed_fields(e))),
{
    let f = signed_fields(e);
    lemma_signed_field_values(e);
    match value_encoding(e.payload) {
        Err(err) => {
            assert forall|i: int| 0 <= i < 5 implies (#[trigger] value_encoding(f[i].1)) is Ok by {
                if i == 0 {
                } else if i == 1 {
                } else if i == 2 {
                } else if i == 3 {
                } else {
                }
            }
            lemma_entries_encoding_first_error(f, 5);
        },
        Ok(p) => {
            lemma_signed_map_in_order(e);
            lemma_signed_chunks(e, p);
        },
    }
}

/// The names of a full entry's fields, in canonical order.
pub open spec fn entry_names() -> Seq<Seq<char>> {
    seq![
        seq!['v'],
        seq!['i', 'd'],
        seq!['k', 'e', 'y'],
        seq!['s', 'i', 'g'],
        seq!['n', 'e', 'x', 't'],
        seq!['r', 'e', 'f', 's'],
        seq!['c', 'l', 'o', 'c', 'k'],
        seq!['p', 'a', 'y', 'l', 'o', 'a', 'd'],
        seq!['i', 'd', 'e', 'n', 't', 'i', 't', 'y'],
    ]
}

proof fn lemma_entry_names_in_key_order()
    ensures
        forall|i: int, j: int|
            0 <= i < j < 9 ==> key_lt(
                encode_utf8(#[trigger] entry_names()[i]),
                encode_utf8(#[trigger] entry_names()[j]),
            ),
{
    let n = entry_names();
    lemma_ascii_name(n[0]);
    lemma_ascii_name(n[1]);
    lemma_ascii_name(n[2]);
    lemma_ascii_name(n[3]);
    lemma_ascii_name(n[4]);
    lemma_ascii_name(n[5]);
    lemma_ascii_name(n[6]);
    lemma_ascii_name(n[7]);
    lemma_ascii_name(n[8]);
    assert(encode_utf8(n[2])[0] == 0x6bu8);
    assert(encode_utf8(n[3])[0] == 0x73u8);
    assert(lex_lt(encode_utf8(n[2]), encode_utf8(n[3])));
    assert(encode_utf8(n[4])[0] == 0x6eu8);
    assert(encode_utf8(n[5])[0] == 0x72u8);
    assert(lex_lt(encode_utf8(n[4]), encode_utf8(n[5])));
}

/// The encodings of a full entry's fields other than the payload.
proof fn lemma_entry_field_values(e: EntryView)
    ensures
        value_encoding(entry_fields(e)[0].1) == Ok::<Seq<u8>, EncodeError>(
            cbor_head(0, e.v as u64),
        ),
        value_encoding(entry_fields(e)[1].1) == Ok::<Seq<u8>, EncodeError>(text_encoding(e.id)),
        value_encoding(entry_fields(e)[2].1) == Ok::<Seq<u8>, EncodeError>(text_encoding(e.key)),
        value_encoding(entry_fields(e)[3].1) == Ok::<Seq<u8>, EncodeError>(text_encoding(e.sig)),
        value_encoding(entry_fields(e)[4].1) == Ok::<Seq<u8>, EncodeError>(
            text_list_encoding(e.next),
        ),
        value_encoding(entry_fields(e)[5].1) == Ok::<Seq<u8>, EncodeError>(
            text_list_encoding(e.refs),
        ),
        value_encoding(entry_fields(e)[6].1) == Ok::<Seq<u8>, EncodeError>(
            clock_encoding(e.clock),
        ),
        entry_fields(e)[7].1 == e.payload,
        value_encoding(entry_fields(e)[8].1) == Ok::<Seq<u8>, EncodeError>(
            text_encoding(e.identity),
        ),
        entry_fields(e).len() == 9,
        forall|i: int| 0 <= i < 9 ==> #[trigger] entry_fields(e)[i].0 == entry_names()[i],
{
    lemma_string_list_encoding(e.next);
    lemma_string_list_encoding(e.refs);
    lemma_clock_is_canonical_map(e.clock);
}

/// The chunks of nine pairs, one after the other.
proof fn lemma_chunks_of_nine(pairs: Seq<(Seq<u8>, Seq<u8>)>)
    requires
        pairs.len() == 9,
    ensures
        chunks_in_order(pairs) == entry_chunk(pairs[0]) + entry_chunk(pairs[1]) + entry_chunk(
            pairs[2],
        ) + entry_chunk(pairs[3]) + entry_chunk(pairs[4]) + entry_chunk(pairs[5]) + entry_chunk(
            pairs[6],
        ) + entry_chunk(pairs[7]) + entry_chunk(pairs[8]),
{
    let s0 = Seq::<(Seq<u8>, Seq<u8>)>::empty();
    let s1 = s0.push(pairs[0]);
    let s2 = s1.push(pairs[1]);
    let s3 = s2.push(pairs[2]);
    let s4 = s3.push(pairs[3]);
    let s5 = s4.push(pairs[4]);
    let s6 = s5.push(pairs[5]);
    let s7 = s6.push(pairs[6]);
    let s8 = s7.push(pairs[7]);
    let s9 = s8.push(pairs[8]);
    assert(pairs =~= s9);
    lemma_chunks_push(s0, pairs[0]);
    lemma_chunks_push(s1, pairs[1]);
    lemma_chunks_push(s2, pairs[2]);
    lemma_chunks_push(s3, pairs[3]);
    lemma_chunks_push(s4, pairs[4]);
    lemma_chunks_push(s5, pairs[5]);
    lemma_chunks_push(s6, pairs[6]);
    lemma_chunks_push(s7, pairs[7]);
    lemma_chunks_push(s8, pairs[8]);
    assert(chunks_in_order(s0) == Seq::<u8>::empty());
    assert(chunks_in_order(s1) =~= entry_chunk(pairs[0]));
}

/// When the payload of an entry encodes, the full entry's map is written out
/// in the order its fields are listed.
proof fn lemma_entry_map_in_order(e: EntryView)
    requires
        value_encoding(e.payload) is Ok,
    ensures
        value_encoding(IpldValue::Mapping(entry_fields(e))) == Ok::<Seq<u8>, EncodeError>(
            cbor_head(5, 9) + chunks_in_order(field_pairs(entry_fields(e))),
        ),
{
    let f = entry_fields(e);
    lemma_entry_field_values(e);
    assert forall|i: int| 0 <= i < f.len() implies (#[trigger] value_encoding(f[i].1)) is Ok by {
        if i == 0 {
        } else if i == 1 {
        } else if i == 2 {
        } else if i == 3 {
        } else if i == 4 {
        } else if i == 5 {
        } else if i == 6 {
        } else if i == 7 {
        } else {
        }
    }
    lemma_entry_names_in_key_order();
    assert forall|i: int, j: int| 0 <= i < j < f.len() implies key_lt(
        encode_utf8(#[trigger] f[i].0),
        encode_utf8(#[trigger] f[j].0),
    ) by {
        assert(key_lt(encode_utf8(entry_names()[i]), encode_utf8(entry_names()[j])));
    }
    lemma_map_in_key_order(f);
}

/// Regrouping the concatenation of nine name/value chunks as
/// `entry_encoding` groups them.
proof fn lemma_regroup_nine(
    h: Seq<u8>,
    x0: Seq<u8>,
    y0: Seq<u8>,
    x1: Seq<u8>,
    y1: Seq<u8>,
    x2: Seq<u8>,
    y2: Seq<u8>,
    x3: Seq<u8>,
    y3: Seq<u8>,
    x4: Seq<u8>,
    y4: Seq<u8>,
    x5: Seq<u8>,
    y5: Seq<u8>,
    x6: Seq<u8>,
    y6: Seq<u8>,
    x7: Seq<u8>,
    y7: Seq<u8>,
    x8: Seq<u8>,
    y8: Seq<u8>,
)
    ensures
        h + ((x0 + y0) + (x1 + y1) + (x2 + y2) + (x3 + y3) + (x4 + y4) + (x5 + y5) + (x6 + y6) + (x7
            + y7) + (x8 + y8)) == h + ((x0 + y0 + x1 + y1) + (x2 + y2 + x3 + y3) + (x4 + y4 + x5
            + y5 + x6 + y6 + x7)) + y7 + x8 + y8,
{
    assert(h + ((x0 + y0) + (x1 + y1) + (x2 + y2) + (x3 + y3) + (x4 + y4) + (x5 + y5) + (x6 + y6)
        + (x7 + y7) + (x8 + y8)) =~= h + ((x0 + y0 + x1 + y1) + (x2 + y2 + x3 + y3) + (x4 + y4
        + x5 + y5 + x6 + y6 + x7)) + y7 + x8 + y8);
}

/// The chunks of a full entry's fields, in the order listed, are the bytes
/// that follow the map head in `entry_encoding`.
proof fn lemma_entry_chunks(e: EntryView, p: Seq<u8>)
    requires
        value_encoding(e.payload) == Ok::<Seq<u8>, EncodeError>(p),
    ensures
        entry_encoding(e) == Ok::<Seq<u8>, EncodeError>(
            cbor_head(5, 9) + chunks_in_order(field_pairs(entry_fields(e))),
        ),
{
    let pairs = field_pairs(entry_fields(e));
    lemma_entry_field_values(e);
    lemma_chunks_of_nine(pairs);
    assert(entry_chunk(pairs[0]) == name(seq!['v']) + cbor_head(0, e.v as u64));
    assert(entry_chunk(pairs[1]) == name(seq!['i', 'd']) + text_encoding(e.id));
    assert(entry_chunk(pairs[2]) == name(seq!['k', 'e', 'y']) + text_encoding(e.key));
    assert(entry_chunk(pairs[3]) == name(seq!['s', 'i', 'g']) + text_encoding(e.sig));
    assert(entry_chunk(pairs[4]) == name(seq!['n', 'e', 'x', 't']) + text_list_encoding(e.next));
    assert(entry_chunk(pairs[5]) == name(seq!['r', 'e', 'f', 's']) + text_list_encoding(e.refs));
    assert(entry_chunk(pairs[6]) == name(seq!['c', 'l', 'o', 'c', 'k']) + clock_encoding(
        e.clock,
    ));
    assert(entry_chunk(pairs[7]) == name(seq!['p', 'a', 'y', 'l', 'o', 'a', 'd']) + p);
    assert(entry_chunk(pairs[8]) == name(seq!['i', 'd', 'e', 'n', 't', 'i', 't', 'y'])
        + text_encoding(e.identity));
    assert(cbor_head(5, 9) == seq![0xa9u8]);
    lemma_regroup_nine(
        seq![0xa9u8],
        name(seq!['v']),
        cbor_head(0, e.v as u64),
        name(seq!['i', 'd']),
        text_encoding(e.id),
        name(seq!['k', 'e', 'y']),
        text_encoding(e.key),
        name(seq!['s', 'i', 'g']),
        text_encoding(e.sig),
        name(seq!['n', 'e', 'x', 't']),
        text_list_encoding(e.next),
        name(seq!['r', 'e', 'f', 's']),
        text_list_encoding(e.refs),
        name(seq!['c', 'l', 'o', 'c', 'k']),
        clock_encoding(e.clock),
        name(seq!['p', 'a', 'y', 'l', 'o', 'a', 'd']),
        p,
        name(seq!['i', 'd', 'e', 'n', 't', 'i', 't', 'y']),
        text_encoding(e.identity),
    );
}

/// A full entry is encoded as the canonical dag-cbor map of its nine fields;
/// when the payload has no encoding, neither has the entry, for the same
/// reason.
pub proof fn lemma_entry_is_canonical_map(e: EntryView)
    ensures
        entry_encoding(e) == value_encoding(IpldValue::Mapping(entry_fields(e))),
{
    let f = entry_fields(e);
    lemma_entry_field_values(e);
    match value_encoding(e.payload) {
        Err(err) => {
            assert forall|i: int| 0 <= i < 7 implies (#[trigger] value_encoding(f[i].1)) is Ok by {
                if i == 0 {
                } else if i == 1 {
                } else if i == 2 {
                } else if i == 3 {
                } else if i == 4 {
                } else if i == 5 {
                } else {
                }
            }
            lemma_entries_encoding_first_error(f, 7);
        },
        Ok(p) => {
            lemma_entry_map_in_order(e);
            lemma_entry_chunks(e, p);
        },
    }
}

/// The canonical key order is transitive.
proof fn lemma_key_lt_transitive(a: Seq<u8>, b: Seq<u8>, c: Seq<u8>)
    requires
        key_lt(a, b),
        key_lt(b, c),
    ensures
        key_lt(a, c),
{
    if a.len() == b.len() && b.len() == c.len() {
        lemma_lex_transitive(a, b, c);
    }
}

/// Of two distinct keys, one sorts before the other.
proof fn lemma_key_lt_total(a: Seq<u8>, b: Seq<u8>)
    requires
        a != b,
    ensures
        key_lt(a, b) || key_lt(b, a),
{
    if a.len() == b.len() {
        lemma_lex_total(a, b);
    }
}

/// No key sorts before itself.
proof fn lemma_key_lt_irreflexive(a: Seq<u8>)
    ensures
        !key_lt(a, a),
{
    lemma_lex_irreflexive(a);
}

/// The pair that `min_key_index` picks has a key that no other pair's key
/// sorts before.
proof fn lemma_min_key_index_least(p: Seq<(Seq<u8>, Seq<u8>)>, n: nat)
    requires
        1 <= n <= p.len(),
    ensures
        0 <= min_key_index(p, n) < n,
        forall|j: int| 0 <= j < n ==> !key_lt(#[trigger] p[j].0, p[min_key_index(p, n)].0),
    decreases n,
{
    lemma_min_key_index_bounds(p, n);
    if n == 1 {
        lemma_key_lt_irreflexive(p[0].0);
    } else {
        lemma_min_key_index_least(p, (n - 1) as nat);
        let m = min_key_index(p, (n - 1) as nat);
        if key_lt(p[n - 1].0, p[m].0) {
            assert forall|j: int| 0 <= j < n implies !key_lt(#[trigger] p[j].0, p[n - 1].0) by {
                if j == n - 1 {
                    lemma_key_lt_irreflexive(p[j].0);
                } else if key_lt(p[j].0, p[n - 1].0) {
                    lemma_key_lt_transitive(p[j].0, p[n - 1].0, p[m].0);
                }
            }
        }
    }
}

/// Whether every value of the map has an encoding.
pub open spec fn values_encode(m: Seq<(Seq<char>, IpldValue)>) -> bool {
    forall|i: int| 0 <= i < m.len() ==> (#[trigger] value_encoding(m[i].1)) is Ok
}

/// When the entries of a map encode, so does every value.
proof fn lemma_entries_ok_values_ok(m: Seq<(Seq<char>, IpldValue)>)
    requires
        entries_encoding(m) is Ok,
    ensures
        values_encode(m),
    decreases m.len(),
{
    if m.len() > 0 {
        lemma_entries_ok_values_ok(m.drop_last());
        assert forall|i: int| 0 <= i < m.len() implies (#[trigger] value_encoding(m[i].1)) is Ok by {
            if i < m.len() - 1 {
                assert(m.drop_last()[i] == m[i]);
            }
        }
    }
}

/// Two sequences with the same multiset of elements contain the same elements.
proof fn lemma_same_elements<A>(s1: Seq<A>, s2: Seq<A>, x: A)
    requires
        s1.to_multiset() == s2.to_multiset(),
        s2.contains(x),
    ensures
        s1.contains(x),
{
    broadcast use group_to_multiset_ensures;

    assert(s2.to_multiset().count(x) > 0);
    assert(s1.to_multiset().count(x) > 0);
}

/// A reordering of a map whose keys are distinct has distinct keys too.
proof fn lemma_reordered_keys_distinct(m1: Seq<(Seq<char>, IpldValue)>, m2: Seq<(Seq<char>, IpldValue)>)
    requires
        m1.to_multiset() == m2.to_multiset(),
        keys_distinct(m1),
    ensures
        keys_distinct(m2),
{
    broadcast use group_to_multiset_ensures;

    assert(m1.no_duplicates());
    m1.lemma_multiset_has_no_duplicates();
    m2.lemma_multiset_has_no_duplicates_conv();
    assert forall|i: int, j: int|
        0 <= i < m2.len() && 0 <= j < m2.len() && i != j implies m2[i].0 != m2[j].0 by {
        assert(m2.contains(m2[i]));
        assert(m2.contains(m2[j]));
        lemma_same_elements(m1, m2, m2[i]);
        lemma_same_elements(m1, m2, m2[j]);
        let a = choose|a: int| 0 <= a < m1.len() && m1[a] == m2[i];
        let b = choose|b: int| 0 <= b < m1.len() && m1[b] == m2[j];
        assert(a != b);
    }
}

/// Reordering the entries of a map whose keys are distinct and whose values
/// all encode does not change how its pairs are written out.
proof fn lemma_sorted_encoding_reordered(
    m1: Seq<(Seq<char>, IpldValue)>,
    m2: Seq<(Seq<char>, IpldValue)>,
)
    requires
        m1.to_multiset() == m2.to_multiset(),
        keys_distinct(m1),
        keys_distinct(m2),
        values_encode(m1),
        values_encode(m2),
    ensures
        sorted_entries_encoding(field_pairs(m1)) == sorted_entries_encoding(field_pairs(m2)),
    decreases m1.len(),
{
    broadcast use group_to_multiset_ensures;

    let p1 = field_pairs(m1);
    let p2 = field_pairs(m2);
    assert(m1.len() == m2.len()) by {
        assert(m1.len() == m1.to_multiset().len());
        assert(m2.len() == m2.to_multiset().len());
    }
    if m1.len() > 0 {
        lemma_min_key_index_least(p1, p1.len());
        lemma_min_key_index_least(p2, p2.len());
        let i1 = min_key_index(p1, p1.len());
        let i2 = min_key_index(p2, p2.len());
        let x = m1[i1];
        let y = m2[i2];
        assert(m1.contains(x));
        lemma_same_elements(m2, m1, x);
        assert(m2.contains(y));
        lemma_same_elements(m1, m2, y);
        let k = choose|k: int| 0 <= k < m2.len() && m2[k] == x;
        let l = choose|l: int| 0 <= l < m1.len() && m1[l] == y;
        assert(p2[k].0 == encode_utf8(x.0));
        assert(p1[l].0 == encode_utf8(y.0));
        assert(!key_lt(encode_utf8(x.0), encode_utf8(y.0)));
        assert(!key_lt(encode_utf8(y.0), encode_utf8(x.0)));
        if x.0 != y.0 {
            lemma_utf8_injective(x.0, y.0);
            lemma_key_lt_total(encode_utf8(x.0), encode_utf8(y.0));
        }
        assert(k == i2);
        assert(x == y);
        let r1 = m1.remove(i1);
        let r2 = m2.remove(i2);
        assert(r1.to_multiset() == r2.to_multiset());
        assert(keys_distinct(r1)) by {
            assert forall|a: int, b: int|
                0 <= a < r1.len() && 0 <= b < r1.len() && a != b implies r1[a].0 != r1[b].0 by {
                let a1 = if a < i1 { a } else { a + 1 };
                let b1 = if b < i1 { b } else { b + 1 };
                assert(r1[a] == m1[a1]);
                assert(r1[b] == m1[b1]);
            }
        }
        assert(keys_distinct(r2)) by {
            assert forall|a: int, b: int|
                0 <= a < r2.len() && 0 <= b < r2.len() && a != b implies r2[a].0 != r2[b].0 by {
                let a1 = if a < i2 { a } else { a + 1 };
                let b1 = if b < i2 { b } else { b + 1 };
                assert(r2[a] == m2[a1]);
                assert(r2[b] == m2[b1]);
            }
        }
        assert(values_encode(r1)) by {
            assert forall|a: int| 0 <= a < r1.len() implies (#[trigger] value_encoding(r1[a].1)) is Ok by {
                let a1 = if a < i1 { a } else { a + 1 };
                assert(r1[a] == m1[a1]);
            }
        }
        assert(values_encode(r2)) by {
            assert forall|a: int| 0 <= a < r2.len() implies (#[trigger] value_encoding(r2[a].1)) is Ok by {
                let a1 = if a < i2 { a } else { a + 1 };
                assert(r2[a] == m2[a1]);
            }
        }
        lemma_sorted_encoding_reordered(r1, r2);
        assert(p1.remove(i1) =~= field_pairs(r1));
        assert(p2.remove(i2) =~= field_pairs(r2));
        assert(p1[i1] == p2[i2]);
    }
}

/// The encoding of a map does not depend on the order its entries are listed
/// in: listing the same entries in another order gives the same bytes, or
/// (when some value has no encoding) again no encoding.
pub proof fn lemma_map_encoding_ignores_entry_order(
    m1: Seq<(Seq<char>, IpldValue)>,
    m2: Seq<(Seq<char>, IpldValue)>,
)
    requires
        m1.to_multiset() == m2.to_multiset(),
    ensures
        value_encoding(IpldValue::Mapping(m1)) is Ok <==> value_encoding(IpldValue::Mapping(m2)) is Ok,
        value_encoding(IpldValue::Mapping(m1)) is Ok ==> value_encoding(IpldValue::Mapping(m1))
            == value_encoding(IpldValue::Mapping(m2)),
{
    lemma_map_encoding_reordered_one_way(m1, m2);
    lemma_map_encoding_reordered_one_way(m2, m1);
}

proof fn lemma_map_encoding_reordered_one_way(
    m1: Seq<(Seq<char>, IpldValue)>,
    m2: Seq<(Seq<char>, IpldValue)>,
)
    requires
        m1.to_multiset() == m2.to_multiset(),
    ensures
        value_encoding(IpldValue::Mapping(m1)) is Ok ==> value_encoding(IpldValue::Mapping(m1))
            == value_encoding(IpldValue::Mapping(m2)),
{
    broadcast use group_to_multiset_ensures;

    if value_encoding(IpldValue::Mapping(m1)) is Ok {
        lemma_entries_ok_values_ok(m1);
        lemma_reordered_keys_distinct(m1, m2);
        assert(values_encode(m2)) by {
            assert forall|i: int| 0 <= i < m2.len() implies (#[trigger] value_encoding(m2[i].1)) is Ok by {
                assert(m2.contains(m2[i]));
                lemma_same_elements(m1, m2, m2[i]);
                let a = choose|a: int| 0 <= a < m1.len() && m1[a] == m2[i];
                assert(value_encoding(m1[a].1) is Ok);
            }
        }
        lemma_entries_encoding_all_ok(m1);
        lemma_entries_encoding_all_ok(m2);
        assert(entries_encoding(m1)->Ok_0 == field_pairs(m1));
        assert(entries_encoding(m2)->Ok_0 == field_pairs(m2));
        lemma_sorted_encoding_reordered(m1, m2);
        assert(m1.len() == m2.len()) by {
            assert(m1.len() == m1.to_multiset().len());
            assert(m2.len() == m2.to_multiset().len());
        }
    }
}

/// The canonical key order in terms of bytes: a shorter key comes first,
/// and of two keys of one length, the one with the smaller byte where they
/// first differ comes first.
pub proof fn lemma_key_order_by_bytes(a: Seq<u8>, b: Seq<u8>, i: int)
    ensures
        a.len() < b.len() ==> key_lt(a, b) && !key_lt(b, a),
        a.len() == b.len() && 0 <= i < a.len() && a.take(i) == b.take(i) && a[i] < b[i] ==> key_lt(
            a,
            b,
        ) && !key_lt(b, a),
{
    if a.len() == b.len() && 0 <= i < a.len() && a.take(i) == b.take(i) && a[i] < b[i] {
        lemma_lex_lt_by_bytes(a, b, i);
    }
}

/// A map of two entries is written with the entry whose key comes first in
/// byte terms (shorter, or of one length with the smaller byte at the first
/// difference, `i`) before the other, whichever order the entries are
/// listed in.
pub proof fn lemma_two_entry_map_order(
    k1: Seq<char>,
    v1: IpldValue,
    k2: Seq<char>,
    v2: IpldValue,
    i: int,
)
    requires
        value_encoding(v1) is Ok,
        value_encoding(v2) is Ok,
        encode_utf8(k1).len() < encode_utf8(k2).len() || (encode_utf8(k1).len() == encode_utf8(
            k2,
        ).len() && 0 <= i < encode_utf8(k1).len() && encode_utf8(k1).take(i) == encode_utf8(
            k2,
        ).take(i) && encode_utf8(k1)[i] < encode_utf8(k2)[i]),
    ensures
        value_encoding(IpldValue::Mapping(seq![(k1, v1), (k2, v2)])) == Ok::<Seq<u8>, EncodeError>(
            seq![0xa2u8] + text_encoding(k1) + value_encoding(v1)->Ok_0 + text_encoding(k2)
                + value_encoding(v2)->Ok_0,
        ),
        value_encoding(IpldValue::Mapping(seq![(k2, v2), (k1, v1)])) == value_encoding(
            IpldValue::Mapping(seq![(k1, v1), (k2, v2)]),
        ),
{
    let u1 = encode_utf8(k1);
    let u2 = encode_utf8(k2);
    lemma_key_order_by_bytes(u1, u2, i);
    assert(k1 != k2) by {
        if k1 == k2 {
            lemma_key_lt_irreflexive(u1);
        }
    }
    let e1 = value_encoding(v1)->Ok_0;
    let e2 = value_encoding(v2)->Ok_0;
    let p1 = (u1, e1);
    let p2 = (u2, e2);
    let m1 = seq![(k1, v1), (k2, v2)];
    let m2 = seq![(k2, v2), (k1, v1)];
    reveal_with_fuel(entries_encoding, 3);
    assert(m1.drop_last().drop_last() =~= Seq::<(Seq<char>, IpldValue)>::empty());
    assert(m2.drop_last().drop_last() =~= Seq::<(Seq<char>, IpldValue)>::empty());
    assert(entries_encoding(m1) == Ok::<Seq<(Seq<u8>, Seq<u8>)>, EncodeError>(seq![p1, p2])) by {
        assert(entries_encoding(m1.drop_last()) == Ok::<Seq<(Seq<u8>, Seq<u8>)>, EncodeError>(
            seq![p1],
        )) by {
            assert(Seq::<(Seq<u8>, Seq<u8>)>::empty().push(p1) =~= seq![p1]);
        }
        assert(seq![p1].push(p2) =~= seq![p1, p2]);
    }
    assert(entries_encoding(m2) == Ok::<Seq<(Seq<u8>, Seq<u8>)>, EncodeError>(seq![p2, p1])) by {
        assert(entries_encoding(m2.drop_last()) == Ok::<Seq<(Seq<u8>, Seq<u8>)>, EncodeError>(
            seq![p2],
        )) by {
            assert(Seq::<(Seq<u8>, Seq<u8>)>::empty().push(p2) =~= seq![p2]);
        }
        assert(seq![p2].push(p1) =~= seq![p2, p1]);
    }
    assert(keys_distinct(m1));
    assert(keys_distinct(m2));
    let s1 = seq![p1, p2];
    let s2 = seq![p2, p1];
    reveal_with_fuel(min_key_index, 2);
    assert(s1[0] == p1 && s1[1] == p2 && s2[0] == p2 && s2[1] == p1);
    assert(key_lt(u1, u2) && !key_lt(u2, u1));
    assert(min_key_index(s1, 1) == 0);
    assert(min_key_index(s2, 1) == 0);
    assert(min_key_index(s1, 2) == 0);
    assert(min_key_index(s2, 2) == 1);
    assert(s1.remove(0) =~= seq![p2]);
    assert(s2.remove(1) =~= seq![p2]);
    assert(min_key_index(seq![p2], 1) == 0);
    assert(seq![p2].remove(0) =~= Seq::<(Seq<u8>, Seq<u8>)>::empty());
    reveal_with_fuel(sorted_entries_encoding, 2);
    assert(seq![p2][0] == p2);
    assert(sorted_entries_encoding(Seq::<(Seq<u8>, Seq<u8>)>::empty()) == Seq::<u8>::empty());
    assert(sorted_entries_encoding(seq![p2]) =~= entry_chunk(p2) + Seq::<u8>::empty());
    assert(sorted_entries_encoding(s1) == entry_chunk(p1) + entry_chunk(p2));
    assert(sorted_entries_encoding(s2) == entry_chunk(p1) + entry_chunk(p2));
    assert(cbor_head(5, 2) =~= seq![0xa2u8]);
    assert(entry_chunk(p1) == text_encoding(k1) + e1);
    assert(entry_chunk(p2) == text_encoding(k2) + e2);
    assert(seq![0xa2u8] + (entry_chunk(p1) + entry_chunk(p2)) =~= seq![0xa2u8] + text_encoding(
        k1,
    ) + e1 + text_encoding(k2) + e2);
}

} // verus!
