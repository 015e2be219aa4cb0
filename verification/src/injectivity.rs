//! The canonical encoding loses nothing: equal encodings come only from
//! equal values (equal in the IPLD data model), so distinct entries have
//! distinct encodings, and so do distinct signed projections.

use vstd::prelude::*;
use vstd::utf8::encode_utf8;
use crate::bytes::lemma_utf8_injective;
use crate::cbor::{
    be_bytes, cbor_head, value_encoding, items_encoding, entries_encoding,
    sorted_entries_encoding, chunks_in_order, min_key_index, keys_distinct,
    lemma_min_key_index_bounds, lemma_entries_encoding_all_ok,
};
use crate::canonical::{
    clock_value, entry_fields, signed_fields, lemma_clock_is_canonical_map,
    lemma_entry_is_canonical_map, lemma_signed_is_canonical_map,
};
use crate::cbor::string_items;
use crate::entry::{EntryView, ClockView, entry_encoding, signed_encoding};
use crate::ipld::{IpldValue, ipld_eq, find_last, lemma_find_last_from, map_values_match, map_keys_covered};
use crate::entry::{lemma_be_bytes_len, lemma_head_len};

verus! {

/// The number that big-endian bytes stand for.
pub open spec fn be_value(s: Seq<u8>) -> nat
    decreases s.len(),
{
    if s.len() == 0 {
        0
    } else {
        be_value(s.drop_last()) * 256 + s.last() as nat
    }
}

/// `256` to the power `w`.
pub open spec fn pow256(w: nat) -> nat
    decreases w,
{
    if w == 0 {
        1
    } else {
        256 * pow256((w - 1) as nat)
    }
}

/// `be_bytes` writes a number below `256^w` in `w` bytes that read back as it.
proof fn lemma_be_value(n: u64, w: nat)
    requires
        n < pow256(w),
    ensures
        be_value(be_bytes(n, w)) == n,
    decreases w,
{
    if w > 0 {
        let q = n / 256;
        let p = pow256((w - 1) as nat);
        assert(q < p) by (nonlinear_arith)
            requires
                n < 256 * p,
                q == n / 256,
        ;
        lemma_be_value(q, (w - 1) as nat);
        let s = be_bytes(q, (w - 1) as nat).push((n % 256) as u8);
        assert(s.drop_last() =~= be_bytes(q, (w - 1) as nat));
    }
}

/// The powers of 256 that CBOR heads use.
proof fn lemma_pow256_values()
    ensures
        pow256(2) == 0x1_0000,
        pow256(4) == 0x1_0000_0000,
        pow256(8) == 0x1_0000_0000_0000_0000,
{
    reveal_with_fuel(pow256, 9);
}

/// The low five bits of a head's first byte.
pub open spec fn head_info(n: u64) -> int {
    if n < 24 {
        n as int
    } else if n < 0x100 {
        24
    } else if n < 0x1_0000 {
        25
    } else if n < 0x1_0000_0000 {
        26
    } else {
        27
    }
}

/// A head's first byte carries the major type and the argument's size.
pub proof fn lemma_head_first_byte(major: u8, n: u64)
    requires
        major < 8,
    ensures
        cbor_head(major, n).len() >= 1,
        cbor_head(major, n)[0] == major * 32 + head_info(n),
        cbor_head(major, n)[0] / 32 == major,
{
    lemma_head_len(major, n);
    assert(major * 32 <= 224) by (nonlinear_arith)
        requires
            major < 8,
    ;
    assert((major * 32 + head_info(n)) / 32 == major) by (nonlinear_arith)
        requires
            0 <= head_info(n) < 32,
    ;
}

/// Equal heads of one major type have equal arguments.
proof fn lemma_head_injective(major: u8, n1: u64, n2: u64)
    requires
        major < 8,
        cbor_head(major, n1) == cbor_head(major, n2),
    ensures
        n1 == n2,
{
    lemma_head_first_byte(major, n1);
    lemma_head_first_byte(major, n2);
    lemma_pow256_values();
    let h = cbor_head(major, n1);
    assert(head_info(n1) == head_info(n2));
    let m = (major * 32) as u8;
    if n1 >= 0x100 {
        let w: nat = if n1 < 0x1_0000 {
            2
        } else if n1 < 0x1_0000_0000 {
            4
        } else {
            8
        };
        lemma_be_bytes_len(n1, w);
        lemma_be_bytes_len(n2, w);
        assert(h.subrange(1, h.len() as int) =~= be_bytes(n1, w));
        assert(cbor_head(major, n2).subrange(1, h.len() as int) =~= be_bytes(n2, w));
        lemma_be_value(n1, w);
        lemma_be_value(n2, w);
    } else if n1 >= 24 {
        assert(h[1] == n1 as u8);
        assert(cbor_head(major, n2)[1] == n2 as u8);
    }
}

/// A head followed by more bytes can be read back: the major type, the
/// argument and what follows are determined.
pub proof fn lemma_head_decode(m1: u8, n1: u64, r1: Seq<u8>, m2: u8, n2: u64, r2: Seq<u8>)
    requires
        m1 < 8,
        m2 < 8,
        cbor_head(m1, n1) + r1 == cbor_head(m2, n2) + r2,
    ensures
        m1 == m2,
        n1 == n2,
        r1 == r2,
{
    let s = cbor_head(m1, n1) + r1;
    lemma_head_first_byte(m1, n1);
    lemma_head_first_byte(m2, n2);
    assert(s[0] == cbor_head(m1, n1)[0]);
    assert(s[0] == cbor_head(m2, n2)[0]);
    assert(m1 == m2);
    assert(head_info(n1) == head_info(n2)) by {
        assert(m1 * 32 + head_info(n1) == m2 * 32 + head_info(n2));
    }
    lemma_head_len(m1, n1);
    lemma_head_len(m2, n2);
    let l = cbor_head(m1, n1).len() as int;
    assert(cbor_head(m2, n2).len() == l);
    assert(s.subrange(0, l) =~= cbor_head(m1, n1));
    assert((cbor_head(m2, n2) + r2).subrange(0, l) =~= cbor_head(m2, n2));
    lemma_head_injective(m1, n1, n2);
    assert(s.subrange(l, s.len() as int) =~= r1);
    assert((cbor_head(m2, n2) + r2).subrange(l, s.len() as int) =~= r2);
}

/// Which kind of value an encoding starts with: the variant, and for
/// booleans and integers also the value's sign or truth.
pub open spec fn kind(v: IpldValue) -> int {
    match v {
        IpldValue::Null => 0,
        IpldValue::Bool(b) => if b {
            2
        } else {
            1
        },
        IpldValue::Integer(i) => if i >= 0 {
            3
        } else {
            4
        },
        IpldValue::Float(_) => 5,
        IpldValue::String(_) => 6,
        IpldValue::Bytes(_) => 7,
        IpldValue::List(_) => 8,
        IpldValue::Mapping(_) => 9,
        IpldValue::Link(_) => 10,
    }
}

/// The kind of value a first byte announces.
pub open spec fn byte_kind(b: u8) -> int {
    let major = b / 32;
    let info = b % 32;
    if major == 0 {
        3
    } else if major == 1 {
        4
    } else if major == 2 {
        7
    } else if major == 3 {
        6
    } else if major == 4 {
        8
    } else if major == 5 {
        9
    } else if major == 6 {
        10
    } else if info == 22 {
        0
    } else if info == 20 {
        1
    } else if info == 21 {
        2
    } else if info == 27 {
        5
    } else {
        -1
    }
}

/// An encoding is never empty, and its first byte tells the kind of value.
proof fn lemma_encoding_kind(v: IpldValue)
    requires
        value_encoding(v) is Ok,
    ensures
        value_encoding(v)->Ok_0.len() >= 1,
        byte_kind(value_encoding(v)->Ok_0[0]) == kind(v),
{
    let b = value_encoding(v)->Ok_0;
    match v {
        IpldValue::Integer(i) => {
            if i >= 0 {
                lemma_head_first_byte(0, i as u64);
            } else {
                lemma_head_first_byte(1, (-1 - i) as u64);
            }
        },
        IpldValue::String(x) => {
            lemma_head_first_byte(3, encode_utf8(x).len() as u64);
        },
        IpldValue::Bytes(x) => {
            lemma_head_first_byte(2, x.len() as u64);
        },
        IpldValue::List(x) => {
            lemma_head_first_byte(4, x.len() as u64);
        },
        IpldValue::Mapping(x) => {
            lemma_head_first_byte(5, x.len() as u64);
        },
        _ => {},
    }
}

/// Every value of a map that encodes has an encoding.
proof fn lemma_entries_all_ok(s: Seq<(Seq<char>, IpldValue)>)
    requires
        entries_encoding(s) is Ok,
    ensures
        forall|i: int| 0 <= i < s.len() ==> (#[trigger] value_encoding(s[i].1)) is Ok,
    decreases s.len(),
{
    if s.len() > 0 {
        lemma_entries_all_ok(s.drop_last());
        assert forall|i: int| 0 <= i < s.len() implies (#[trigger] value_encoding(s[i].1)) is Ok by {
            if i < s.len() - 1 {
                assert(s.drop_last()[i] == s[i]);
            }
        }
    }
}

/// The items of a list that encodes: the first item's encoding, then the
/// others'; and the items take at least a byte each.
proof fn lemma_items_front(s: Seq<IpldValue>)
    requires
        items_encoding(s) is Ok,
    ensures
        items_encoding(s)->Ok_0.len() >= s.len(),
        s.len() > 0 ==> value_encoding(s[0]) is Ok && items_encoding(s.drop_first()) is Ok
            && items_encoding(s)->Ok_0 == value_encoding(s[0])->Ok_0 + items_encoding(
            s.drop_first(),
        )->Ok_0,
    decreases s.len(),
{
    if s.len() > 0 {
        lemma_items_front(s.drop_last());
        lemma_encoding_kind(s.last());
        if s.len() == 1 {
            assert(s.drop_last() =~= Seq::<IpldValue>::empty());
            assert(s.drop_first() =~= Seq::<IpldValue>::empty());
            assert(s.last() == s[0]);
            assert(items_encoding(s)->Ok_0 =~= value_encoding(s[0])->Ok_0 + Seq::<u8>::empty());
        } else {
            let d = s.drop_first();
            assert(d.drop_last() =~= s.drop_last().drop_first());
            assert(d.last() == s.last());
            assert(s.drop_last()[0] == s[0]);
            assert(items_encoding(s)->Ok_0 =~= value_encoding(s[0])->Ok_0 + items_encoding(
                d,
            )->Ok_0);
        }
    }
}

/// The entries of a map, listed in the order `sigma` gives.
pub open spec fn listing(
    p: Seq<(Seq<u8>, Seq<u8>)>,
    sigma: Seq<int>,
) -> Seq<(Seq<u8>, Seq<u8>)> {
    Seq::new(sigma.len(), |t: int| p[sigma[t]])
}

/// Whether `sigma` lists each index below `n` once, `tau` giving for each
/// index its place in the listing.
pub open spec fn is_permutation(sigma: Seq<int>, tau: Seq<int>, n: nat) -> bool {
    &&& sigma.len() == n
    &&& tau.len() == n
    &&& forall|t: int| 0 <= t < n ==> 0 <= #[trigger] sigma[t] < n
    &&& forall|i: int| 0 <= i < n ==> 0 <= #[trigger] tau[i] < n && sigma[tau[i]] == i
}

/// The canonical writing of map entries is their chunks in some order that
/// lists each entry once.
proof fn lemma_sorted_listing(p: Seq<(Seq<u8>, Seq<u8>)>) -> (r: (Seq<int>, Seq<int>))
    ensures
        is_permutation(r.0, r.1, p.len()),
        sorted_entries_encoding(p) == chunks_in_order(listing(p, r.0)),
    decreases p.len(),
{
    if p.len() == 0 {
        let sigma = Seq::<int>::empty();
        assert(listing(p, sigma) =~= Seq::<(Seq<u8>, Seq<u8>)>::empty());
        (sigma, Seq::<int>::empty())
    } else {
        let n = p.len() as int;
        let k = min_key_index(p, p.len());
        lemma_min_key_index_bounds(p, p.len());
        let q = p.remove(k);
        let (s1, t1) = lemma_sorted_listing(q);
        let sigma = Seq::new(
            p.len(),
            |t: int|
                if t == 0 {
                    k
                } else if s1[t - 1] < k {
                    s1[t - 1]
                } else {
                    s1[t - 1] + 1
                },
        );
        let tau = Seq::new(
            p.len(),
            |i: int|
                if i == k {
                    0
                } else if i < k {
                    t1[i] + 1
                } else {
                    t1[i - 1] + 1
                },
        );
        assert forall|i: int| 0 <= i < n implies 0 <= #[trigger] tau[i] < n && sigma[tau[i]]
            == i by {
            if i < k {
                assert(0 <= t1[i] < n - 1 && s1[t1[i]] == i);
            } else if i > k {
                assert(0 <= t1[i - 1] < n - 1 && s1[t1[i - 1]] == i - 1);
            }
        }
        assert forall|t: int| 0 <= t < n implies 0 <= #[trigger] sigma[t] < n by {
            if t > 0 {
                assert(0 <= s1[t - 1] < n - 1);
            }
        }
        let l = listing(p, sigma);
        assert(l.drop_first() =~= listing(q, s1)) by {
            assert forall|t: int| 0 <= t < n - 1 implies l.drop_first()[t] == listing(q, s1)[t] by {
                assert(0 <= s1[t] < n - 1);
            }
        }
        assert(l[0] == p[k]);
        (sigma, tau)
    }
}

/// Chunks in order take at least a byte each.
proof fn lemma_chunks_len(l: Seq<(Seq<u8>, Seq<u8>)>)
    ensures
        chunks_in_order(l).len() >= l.len(),
    decreases l.len(),
{
    if l.len() > 0 {
        lemma_chunks_len(l.drop_first());
        lemma_head_len(3, l[0].0.len() as u64);
    }
}

/// Two byte strings that start with parts of one length split alike.
proof fn lemma_split(a1: Seq<u8>, r1: Seq<u8>, a2: Seq<u8>, r2: Seq<u8>)
    requires
        a1 + r1 == a2 + r2,
        a1.len() == a2.len(),
    ensures
        a1 == a2,
        r1 == r2,
{
    let s = a1 + r1;
    assert(s.subrange(0, a1.len() as int) =~= a1);
    assert((a2 + r2).subrange(0, a1.len() as int) =~= a2);
    assert(s.subrange(a1.len() as int, s.len() as int) =~= r1);
    assert((a2 + r2).subrange(a1.len() as int, s.len() as int) =~= r2);
}

/// In a map whose keys are distinct, each entry is the last with its key.
proof fn lemma_distinct_find_last(m: Seq<(Seq<char>, IpldValue)>, j: int)
    requires
        keys_distinct(m),
        0 <= j < m.len(),
    ensures
        find_last(m, m[j].0) == j,
{
    lemma_find_last_from(m, m[j].0, j);
}

/// Two strings with equal UTF-8 bytes are equal.
proof fn lemma_utf8_equal(a: Seq<char>, b: Seq<char>)
    requires
        encode_utf8(a) == encode_utf8(b),
    ensures
        a == b,
{
    if a != b {
        lemma_utf8_injective(a, b);
    }
}

/// An encoded value can be read back from the front of a byte string: when
/// two values' encodings, each followed by more bytes, give the same bytes,
/// the encodings are equal, what follows them is equal, and the values are
/// equal in the IPLD data model. (All lengths fit in 64 bits, as they do in
/// memory.)
#[verifier::spinoff_prover]
#[verifier::rlimit(50)]
pub proof fn lemma_value_decode(v1: IpldValue, v2: IpldValue, r1: Seq<u8>, r2: Seq<u8>)
    requires
        value_encoding(v1) is Ok,
        value_encoding(v2) is Ok,
        value_encoding(v1)->Ok_0 + r1 == value_encoding(v2)->Ok_0 + r2,
        value_encoding(v1)->Ok_0.len() + r1.len() <= u64::MAX,
    ensures
        value_encoding(v1) == value_encoding(v2),
        r1 == r2,
        ipld_eq(v1, v2),
    decreases v1, 0int,
{
    let b1 = value_encoding(v1)->Ok_0;
    let b2 = value_encoding(v2)->Ok_0;
    let s = b1 + r1;
    lemma_encoding_kind(v1);
    lemma_encoding_kind(v2);
    assert(s[0] == b1[0]);
    assert((b2 + r2)[0] == b2[0]);
    assert(kind(v1) == kind(v2));
    match v1 {
        IpldValue::Null => {
            lemma_split(b1, r1, b2, r2);
        },
        IpldValue::Bool(_) => {
            lemma_split(b1, r1, b2, r2);
        },
        IpldValue::Integer(i) => {
            let j = v2->Integer_0;
            if i >= 0 {
                lemma_head_decode(0, i as u64, r1, 0, j as u64, r2);
            } else {
                lemma_head_decode(1, (-1 - i) as u64, r1, 1, (-1 - j) as u64, r2);
            }
        },
        IpldValue::Float(x) => {
            let y = v2->Float_0;
            lemma_be_bytes_len(x, 8);
            lemma_be_bytes_len(y, 8);
            lemma_split(b1, r1, b2, r2);
            assert(b1.subrange(1, 9) =~= be_bytes(x, 8));
            assert(b2.subrange(1, 9) =~= be_bytes(y, 8));
            lemma_pow256_values();
            lemma_be_value(x, 8);
            lemma_be_value(y, 8);
        },
        IpldValue::String(x) => {
            let y = v2->String_0;
            let u1 = encode_utf8(x);
            let u2 = encode_utf8(y);
            assert(s =~= cbor_head(3, u1.len() as u64) + (u1 + r1));
            assert(b2 + r2 =~= cbor_head(3, u2.len() as u64) + (u2 + r2));
            lemma_head_decode(3, u1.len() as u64, u1 + r1, 3, u2.len() as u64, u2 + r2);
            lemma_split(u1, r1, u2, r2);
            lemma_utf8_equal(x, y);
        },
        IpldValue::Bytes(x) => {
            let y = v2->Bytes_0;
            assert(s =~= cbor_head(2, x.len() as u64) + (x + r1));
            assert(b2 + r2 =~= cbor_head(2, y.len() as u64) + (y + r2));
            lemma_head_decode(2, x.len() as u64, x + r1, 2, y.len() as u64, y + r2);
            lemma_split(x, r1, y, r2);
        },
        IpldValue::Link(x) => {
            let y = v2->Link_0;
            let t = seq![0xd8u8, 0x2au8];
            let h1 = cbor_head(2, (x.len() + 1) as u64);
            let h2 = cbor_head(2, (y.len() + 1) as u64);
            assert(s =~= t + (h1 + ((seq![0u8] + x) + r1)));
            assert(b2 + r2 =~= t + (h2 + ((seq![0u8] + y) + r2)));
            lemma_split(t, h1 + ((seq![0u8] + x) + r1), t, h2 + ((seq![0u8] + y) + r2));
            lemma_head_decode(
                2,
                (x.len() + 1) as u64,
                (seq![0u8] + x) + r1,
                2,
                (y.len() + 1) as u64,
                (seq![0u8] + y) + r2,
            );
            lemma_split(seq![0u8] + x, r1, seq![0u8] + y, r2);
            assert(x =~= (seq![0u8] + x).drop_first());
            assert(y =~= (seq![0u8] + y).drop_first());
        },
        IpldValue::List(x) => {
            let y = v2->List_0;
            let i1 = items_encoding(x)->Ok_0;
            let i2 = items_encoding(y)->Ok_0;
            lemma_items_front(x);
            lemma_items_front(y);
            assert(s =~= cbor_head(4, x.len() as u64) + (i1 + r1));
            assert(b2 + r2 =~= cbor_head(4, y.len() as u64) + (i2 + r2));
            lemma_head_decode(4, x.len() as u64, i1 + r1, 4, y.len() as u64, i2 + r2);
            assert(x.skip(0) =~= x);
            assert(y.skip(0) =~= y);
            lemma_items_decode(x, y, 0, r1, r2);
        },
        IpldValue::Mapping(x) => {
            let y = v2->Mapping_0;
            lemma_map_decode(x, y, r1, r2);
        },
    }
}

/// The items of two lists of one length, from index `k` on, read back from
/// the front of a byte string.
#[verifier::spinoff_prover]
#[verifier::rlimit(50)]
proof fn lemma_items_decode(x: Seq<IpldValue>, y: Seq<IpldValue>, k: int, r1: Seq<u8>, r2: Seq<u8>)
    requires
        x.len() == y.len(),
        0 <= k <= x.len(),
        items_encoding(x.skip(k)) is Ok,
        items_encoding(y.skip(k)) is Ok,
        items_encoding(x.skip(k))->Ok_0 + r1 == items_encoding(y.skip(k))->Ok_0 + r2,
        items_encoding(x.skip(k))->Ok_0.len() + r1.len() <= u64::MAX,
    ensures
        items_encoding(x.skip(k)) == items_encoding(y.skip(k)),
        r1 == r2,
        forall|i: int| #![trigger x[i]] k <= i < x.len() ==> ipld_eq(x[i], y[i]),
    decreases x, x.len() - k,
{
    let xs = x.skip(k);
    let ys = y.skip(k);
    if k == x.len() {
        assert(xs =~= Seq::<IpldValue>::empty());
        assert(ys =~= Seq::<IpldValue>::empty());
        lemma_split(Seq::<u8>::empty(), r1, Seq::<u8>::empty(), r2);
    } else {
        lemma_items_front(xs);
        lemma_items_front(ys);
        assert(xs[0] == x[k]);
        assert(ys[0] == y[k]);
        assert(xs.drop_first() =~= x.skip(k + 1));
        assert(ys.drop_first() =~= y.skip(k + 1));
        let e1 = value_encoding(x[k])->Ok_0;
        let e2 = value_encoding(y[k])->Ok_0;
        let t1 = items_encoding(x.skip(k + 1))->Ok_0;
        let t2 = items_encoding(y.skip(k + 1))->Ok_0;
        assert(e1 + (t1 + r1) =~= items_encoding(xs)->Ok_0 + r1);
        assert(e2 + (t2 + r2) =~= items_encoding(ys)->Ok_0 + r2);
        assert(decreases_to!(x => x[k]));
        lemma_value_decode(x[k], y[k], t1 + r1, t2 + r2);
        lemma_items_decode(x, y, k + 1, r1, r2);
    }
}

/// The chunks of two maps' entries, listed in the orders `sx` and `sy`,
/// from place `i` on, read back from the front of a byte string: at each
/// place the two entries have the same key and equal values.
#[verifier::spinoff_prover]
#[verifier::rlimit(50)]
proof fn lemma_chunks_decode(
    x: Seq<(Seq<char>, IpldValue)>,
    y: Seq<(Seq<char>, IpldValue)>,
    px: Seq<(Seq<u8>, Seq<u8>)>,
    py: Seq<(Seq<u8>, Seq<u8>)>,
    sx: Seq<int>,
    sy: Seq<int>,
    i: int,
    r1: Seq<u8>,
    r2: Seq<u8>,
)
    requires
        x.len() == y.len(),
        forall|j: int| 0 <= j < x.len() ==> (#[trigger] value_encoding(x[j].1)) is Ok,
        forall|j: int| 0 <= j < y.len() ==> (#[trigger] value_encoding(y[j].1)) is Ok,
        px == Seq::new(x.len(), |j: int| (encode_utf8(x[j].0), value_encoding(x[j].1)->Ok_0)),
        py == Seq::new(y.len(), |j: int| (encode_utf8(y[j].0), value_encoding(y[j].1)->Ok_0)),
        sx.len() == x.len(),
        sy.len() == y.len(),
        forall|t: int| 0 <= t < x.len() ==> 0 <= #[trigger] sx[t] < x.len(),
        forall|t: int| 0 <= t < y.len() ==> 0 <= #[trigger] sy[t] < y.len(),
        0 <= i <= x.len(),
        chunks_in_order(listing(px, sx).skip(i)) + r1 == chunks_in_order(listing(py, sy).skip(i))
            + r2,
        chunks_in_order(listing(px, sx).skip(i)).len() + r1.len() <= u64::MAX,
    ensures
        chunks_in_order(listing(px, sx).skip(i)) == chunks_in_order(listing(py, sy).skip(i)),
        r1 == r2,
        forall|t: int|
            #![trigger sx[t]]
            i <= t < x.len() ==> x[sx[t]].0 == y[sy[t]].0 && ipld_eq(x[sx[t]].1, y[sy[t]].1),
    decreases x, x.len() - i,
{
    let lx = listing(px, sx).skip(i);
    let ly = listing(py, sy).skip(i);
    if i == x.len() {
        assert(lx =~= Seq::<(Seq<u8>, Seq<u8>)>::empty());
        assert(ly =~= Seq::<(Seq<u8>, Seq<u8>)>::empty());
        lemma_split(Seq::<u8>::empty(), r1, Seq::<u8>::empty(), r2);
    } else {
        let a = sx[i];
        let b = sy[i];
        assert(0 <= a < x.len() && 0 <= b < y.len());
        assert(lx[0] == px[a]);
        assert(ly[0] == py[b]);
        assert(lx.drop_first() =~= listing(px, sx).skip(i + 1));
        assert(ly.drop_first() =~= listing(py, sy).skip(i + 1));
        let k1 = encode_utf8(x[a].0);
        let k2 = encode_utf8(y[b].0);
        let e1 = value_encoding(x[a].1)->Ok_0;
        let e2 = value_encoding(y[b].1)->Ok_0;
        let t1 = chunks_in_order(listing(px, sx).skip(i + 1));
        let t2 = chunks_in_order(listing(py, sy).skip(i + 1));
        assert(chunks_in_order(lx) + r1 =~= cbor_head(3, k1.len() as u64) + (k1 + (e1 + (t1
            + r1))));
        assert(chunks_in_order(ly) + r2 =~= cbor_head(3, k2.len() as u64) + (k2 + (e2 + (t2
            + r2))));
        lemma_head_decode(3, k1.len() as u64, k1 + (e1 + (t1 + r1)), 3, k2.len() as u64, k2 + (
        e2 + (t2 + r2)));
        lemma_split(k1, e1 + (t1 + r1), k2, e2 + (t2 + r2));
        lemma_utf8_equal(x[a].0, y[b].0);
        assert(decreases_to!(x => x[a]));
        lemma_value_decode(x[a].1, y[b].1, t1 + r1, t2 + r2);
        lemma_chunks_decode(x, y, px, py, sx, sy, i + 1, r1, r2);
    }
}

/// Two maps whose encodings, each followed by more bytes, give the same
/// bytes: the encodings are equal, what follows is equal, and the maps are
/// equal in the IPLD data model.
#[verifier::spinoff_prover]
#[verifier::rlimit(50)]
proof fn lemma_map_decode(
    x: Seq<(Seq<char>, IpldValue)>,
    y: Seq<(Seq<char>, IpldValue)>,
    r1: Seq<u8>,
    r2: Seq<u8>,
)
    requires
        value_encoding(IpldValue::Mapping(x)) is Ok,
        value_encoding(IpldValue::Mapping(y)) is Ok,
        value_encoding(IpldValue::Mapping(x))->Ok_0 + r1 == value_encoding(
            IpldValue::Mapping(y),
        )->Ok_0 + r2,
        value_encoding(IpldValue::Mapping(x))->Ok_0.len() + r1.len() <= u64::MAX,
    ensures
        value_encoding(IpldValue::Mapping(x)) == value_encoding(IpldValue::Mapping(y)),
        r1 == r2,
        ipld_eq(IpldValue::Mapping(x), IpldValue::Mapping(y)),
    decreases x, x.len() + 1,
{
    lemma_entries_all_ok(x);
    lemma_entries_all_ok(y);
    lemma_entries_encoding_all_ok(x);
    lemma_entries_encoding_all_ok(y);
    let px = entries_encoding(x)->Ok_0;
    let py = entries_encoding(y)->Ok_0;
    let (sx, tx) = lemma_sorted_listing(px);
    let (sy, ty) = lemma_sorted_listing(py);
    let cx = chunks_in_order(listing(px, sx));
    let cy = chunks_in_order(listing(py, sy));
    lemma_chunks_len(listing(px, sx));
    lemma_chunks_len(listing(py, sy));
    assert(keys_distinct(x) && keys_distinct(y));
    assert(value_encoding(IpldValue::Mapping(x))->Ok_0 == cbor_head(5, x.len() as u64) + cx);
    assert(value_encoding(IpldValue::Mapping(y))->Ok_0 == cbor_head(5, y.len() as u64) + cy);
    let b1 = value_encoding(IpldValue::Mapping(x))->Ok_0;
    let b2 = value_encoding(IpldValue::Mapping(y))->Ok_0;
    assert(b1 + r1 =~= cbor_head(5, x.len() as u64) + (cx + r1));
    assert(b2 + r2 =~= cbor_head(5, y.len() as u64) + (cy + r2));
    assert((b1 + r1).len() == (b2 + r2).len());
    lemma_head_decode(5, x.len() as u64, cx + r1, 5, y.len() as u64, cy + r2);
    assert(listing(px, sx).skip(0) =~= listing(px, sx));
    assert(listing(py, sy).skip(0) =~= listing(py, sy));
    lemma_chunks_decode(x, y, px, py, sx, sy, 0, r1, r2);
    assert forall|i: int|
        #![trigger x[i]]
        0 <= i < x.len() && find_last(x, x[i].0) == i implies find_last(y, x[i].0) >= 0
            && ipld_eq(x[i].1, y[find_last(y, x[i].0)].1) by {
        let t = tx[i];
        assert(0 <= t < x.len() && sx[t] == i);
        let j = sy[t];
        assert(0 <= j < y.len());
        lemma_distinct_find_last(y, j);
    }
    assert forall|j: int| #![trigger y[j]] 0 <= j < y.len() implies find_last(x, y[j].0)
        >= 0 by {
        let t = ty[j];
        assert(0 <= t < y.len() && sy[t] == j);
        let i = sx[t];
        assert(0 <= i < x.len());
        lemma_distinct_find_last(x, i);
    }
    assert(map_values_match(x, y));
    assert(map_keys_covered(x, y));
}

/// Two equal maps with distinct keys, listed with the same keys in the
/// same places, hold equal values place by place.
proof fn lemma_same_keys_values(f1: Seq<(Seq<char>, IpldValue)>, f2: Seq<(Seq<char>, IpldValue)>)
    requires
        ipld_eq(IpldValue::Mapping(f1), IpldValue::Mapping(f2)),
        keys_distinct(f1),
        keys_distinct(f2),
        f1.len() == f2.len(),
        forall|i: int| 0 <= i < f1.len() ==> #[trigger] f1[i].0 == f2[i].0,
    ensures
        forall|i: int| 0 <= i < f1.len() ==> ipld_eq(#[trigger] f1[i].1, f2[i].1),
{
    assert(map_values_match(f1, f2));
    assert forall|i: int| 0 <= i < f1.len() implies ipld_eq(#[trigger] f1[i].1, f2[i].1) by {
        lemma_distinct_find_last(f1, i);
        lemma_distinct_find_last(f2, i);
        assert(f1[i].0 == f2[i].0);
    }
}

/// Equal lists of strings hold the same strings.
proof fn lemma_string_items_eq(s1: Seq<Seq<char>>, s2: Seq<Seq<char>>)
    requires
        ipld_eq(IpldValue::List(string_items(s1)), IpldValue::List(string_items(s2))),
    ensures
        s1 == s2,
{
    assert forall|i: int| 0 <= i < s1.len() implies s1[i] == s2[i] by {
        assert(ipld_eq(string_items(s1)[i], string_items(s2)[i]));
    }
    assert(s1 =~= s2);
}

/// Equal clocks, as IPLD maps, are the same clock.
proof fn lemma_clock_eq(c1: ClockView, c2: ClockView)
    requires
        ipld_eq(clock_value(c1), clock_value(c2)),
    ensures
        c1 == c2,
{
    lemma_clock_is_canonical_map(c1);
    lemma_clock_is_canonical_map(c2);
    let f1 = clock_value(c1)->Mapping_0;
    let f2 = clock_value(c2)->Mapping_0;
    assert(keys_distinct(f1) && keys_distinct(f2));
    assert(f1[0].0 == f2[0].0 && f1[1].0 == f2[1].0);
    lemma_same_keys_values(f1, f2);
    assert(ipld_eq(f1[0].1, f2[0].1));
    assert(ipld_eq(f1[1].1, f2[1].1));
}

/// Two encodable maps with the same encoding are equal maps.
proof fn lemma_map_encoding_injective(f1: Seq<(Seq<char>, IpldValue)>, f2: Seq<(Seq<char>, IpldValue)>)
    requires
        value_encoding(IpldValue::Mapping(f1)) is Ok,
        value_encoding(IpldValue::Mapping(f2)) == value_encoding(IpldValue::Mapping(f1)),
        value_encoding(IpldValue::Mapping(f1))->Ok_0.len() <= u64::MAX,
    ensures
        ipld_eq(IpldValue::Mapping(f1), IpldValue::Mapping(f2)),
        keys_distinct(f1),
        keys_distinct(f2),
{
    let e = value_encoding(IpldValue::Mapping(f1))->Ok_0;
    assert(e + Seq::<u8>::empty() =~= e);
    lemma_value_decode(
        IpldValue::Mapping(f1),
        IpldValue::Mapping(f2),
        Seq::<u8>::empty(),
        Seq::<u8>::empty(),
    );
}

/// Entries whose full field maps are equal agree on every field, the
/// payloads being equal in the IPLD data model.
proof fn lemma_entry_fields_eq(a: EntryView, b: EntryView)
    requires
        ipld_eq(IpldValue::Mapping(entry_fields(a)), IpldValue::Mapping(entry_fields(b))),
        keys_distinct(entry_fields(a)),
        keys_distinct(entry_fields(b)),
    ensures
        a.v == b.v,
        a.id == b.id,
        a.key == b.key,
        a.sig == b.sig,
        a.next == b.next,
        a.refs == b.refs,
        a.clock == b.clock,
        a.identity == b.identity,
        ipld_eq(a.payload, b.payload),
{
    let fa = entry_fields(a);
    let fb = entry_fields(b);
    assert forall|i: int| 0 <= i < fa.len() implies #[trigger] fa[i].0 == fb[i].0 by {}
    lemma_same_keys_values(fa, fb);
    assert(ipld_eq(fa[0].1, fb[0].1));
    assert(ipld_eq(fa[1].1, fb[1].1));
    assert(ipld_eq(fa[2].1, fb[2].1));
    assert(ipld_eq(fa[3].1, fb[3].1));
    assert(ipld_eq(fa[4].1, fb[4].1));
    lemma_string_items_eq(a.next, b.next);
    assert(ipld_eq(fa[5].1, fb[5].1));
    lemma_string_items_eq(a.refs, b.refs);
    assert(ipld_eq(fa[6].1, fb[6].1));
    lemma_clock_eq(a.clock, b.clock);
    assert(ipld_eq(fa[7].1, fb[7].1));
    assert(ipld_eq(fa[8].1, fb[8].1));
}

/// Entries whose signed field maps are equal agree on `v`, `id`, `next`,
/// `refs` and `clock`, the payloads being equal in the IPLD data model.
proof fn lemma_signed_fields_eq(a: EntryView, b: EntryView)
    requires
        ipld_eq(IpldValue::Mapping(signed_fields(a)), IpldValue::Mapping(signed_fields(b))),
        keys_distinct(signed_fields(a)),
        keys_distinct(signed_fields(b)),
    ensures
        a.v == b.v,
        a.id == b.id,
        a.next == b.next,
        a.refs == b.refs,
        a.clock == b.clock,
        ipld_eq(a.payload, b.payload),
{
    let fa = signed_fields(a);
    let fb = signed_fields(b);
    assert forall|i: int| 0 <= i < fa.len() implies #[trigger] fa[i].0 == fb[i].0 by {}
    lemma_same_keys_values(fa, fb);
    assert(ipld_eq(fa[0].1, fb[0].1));
    assert(ipld_eq(fa[1].1, fb[1].1));
    assert(ipld_eq(fa[2].1, fb[2].1));
    lemma_string_items_eq(a.next, b.next);
    assert(ipld_eq(fa[3].1, fb[3].1));
    lemma_string_items_eq(a.refs, b.refs);
    assert(ipld_eq(fa[4].1, fb[4].1));
    lemma_clock_eq(a.clock, b.clock);
    assert(ipld_eq(fa[5].1, fb[5].1));
}

/// The canonical encoding of a full entry is injective: two entries with
/// the same encoding agree on every field, the payloads being equal in the
/// IPLD data model. So entries that differ have different encodings.
/// (The encoding's length fits in 64 bits, as any byte string in memory.)
pub proof fn lemma_entry_encoding_injective(a: EntryView, b: EntryView)
    requires
        entry_encoding(a) is Ok,
        entry_encoding(b) == entry_encoding(a),
        entry_encoding(a)->Ok_0.len() <= u64::MAX,
    ensures
        a.v == b.v,
        a.id == b.id,
        a.key == b.key,
        a.sig == b.sig,
        a.next == b.next,
        a.refs == b.refs,
        a.clock == b.clock,
        a.identity == b.identity,
        ipld_eq(a.payload, b.payload),
{
    lemma_entry_is_canonical_map(a);
    lemma_entry_is_canonical_map(b);
    lemma_map_encoding_injective(entry_fields(a), entry_fields(b));
    lemma_entry_fields_eq(a, b);
}

/// The canonical encoding of the signed projection is injective: two
/// entries whose signed projections have the same encoding agree on `v`,
/// `id`, `next`, `refs` and `clock`, and their payloads are equal in the
/// IPLD data model. So projections that differ have different encodings.
/// (The encoding's length fits in 64 bits, as any byte string in memory.)
pub proof fn lemma_signed_encoding_injective(a: EntryView, b: EntryView)
    requires
        signed_encoding(a) is Ok,
        signed_encoding(b) == signed_encoding(a),
        signed_encoding(a)->Ok_0.len() <= u64::MAX,
    ensures
        a.v == b.v,
        a.id == b.id,
        a.next == b.next,
        a.refs == b.refs,
        a.clock == b.clock,
        ipld_eq(a.payload, b.payload),
{
    lemma_signed_is_canonical_map(a);
    lemma_signed_is_canonical_map(b);
    lemma_map_encoding_injective(signed_fields(a), signed_fields(b));
    lemma_signed_fields_eq(a, b);
}

} // verus!
