//! The IPLD data model carried in an entry's payload.

use vstd::prelude::*;
use vstd::std_specs::cmp::PartialEqSpecImpl;

verus! {

broadcast use vstd::std_specs::vec::group_vec_axioms;

/// An IPLD value, as held in an entry's payload.
///
/// Floats are carried as their IEEE-754 binary64 bit pattern, links as the
/// binary form of the linked CID. A map lists its entries; in dag-cbor its
/// keys must be distinct (a map that lists a key twice has no encoding),
/// and the encoding orders them itself.
///
/// `==` compares values as the IPLD data model does ([`ipld_eq`]): floats
/// by IEEE equality except that any two NaNs are equal (so `0.0 == -0.0`,
/// though the two encode differently), and maps as maps, by their keys and
/// the values under them (the last entry for a key counts), whatever order
/// their entries are listed in.
#[derive(Debug, Eq)]
pub enum Ipld {
    Null,
    Bool(bool),
    Integer(i128),
    Float(u64),
    String(String),
    Bytes(Vec<u8>),
    List(Vec<Ipld>),
    Mapping(Vec<(String, Ipld)>),
    Link(Vec<u8>),
}

/// The mathematical value of an [`Ipld`].
pub enum IpldValue {
    Null,
    Bool(bool),
    Integer(int),
    Float(u64),
    String(Seq<char>),
    Bytes(Seq<u8>),
    List(Seq<IpldValue>),
    Mapping(Seq<(Seq<char>, IpldValue)>),
    Link(Seq<u8>),
}

/// The value of an [`Ipld`].
pub open spec fn ipld_value(v: Ipld) -> IpldValue
    decreases v, 0int,
{
    match v {
        Ipld::Null => IpldValue::Null,
        Ipld::Bool(b) => IpldValue::Bool(b),
        Ipld::Integer(i) => IpldValue::Integer(i as int),
        Ipld::Float(bits) => IpldValue::Float(bits),
        Ipld::String(s) => IpldValue::String(s@),
        Ipld::Bytes(b) => IpldValue::Bytes(b@),
        Ipld::List(items) => IpldValue::List(list_value(items@)),
        Ipld::Mapping(entries) => IpldValue::Mapping(map_value(entries@)),
        Ipld::Link(c) => IpldValue::Link(c@),
    }
}

/// The values of a sequence of [`Ipld`]s, element by element.
pub open spec fn list_value(s: Seq<Ipld>) -> Seq<IpldValue>
    decreases s, 1int,
{
    if s.len() == 0 {
        Seq::empty()
    } else {
        list_value(s.drop_last()).push(ipld_value(s.last()))
    }
}

/// The values of a sequence of map entries, entry by entry.
pub open spec fn map_value(s: Seq<(String, Ipld)>) -> Seq<(Seq<char>, IpldValue)>
    decreases s, 1int,
{
    if s.len() == 0 {
        Seq::empty()
    } else {
        map_value(s.drop_last()).push((s.last().0@, ipld_value(s.last().1)))
    }
}

impl View for Ipld {
    type V = IpldValue;

    open spec fn view(&self) -> IpldValue {
        ipld_value(*self)
    }
}

/// `list_value` maps each element to its value.
pub proof fn lemma_list_value(s: Seq<Ipld>)
    ensures
        list_value(s).len() == s.len(),
        forall|i: int| 0 <= i < s.len() ==> #[trigger] list_value(s)[i] == ipld_value(s[i]),
    decreases s.len(),
{
    if s.len() > 0 {
        lemma_list_value(s.drop_last());
    }
}

/// `map_value` maps each entry to its key's and value's views.
pub proof fn lemma_map_value(s: Seq<(String, Ipld)>)
    ensures
        map_value(s).len() == s.len(),
        forall|i: int|
            0 <= i < s.len() ==> #[trigger] map_value(s)[i] == (s[i].0@, ipld_value(s[i].1)),
    decreases s.len(),
{
    if s.len() > 0 {
        lemma_map_value(s.drop_last());
    }
}

/// Whether a binary64 bit pattern is a NaN: all exponent bits set and a
/// nonzero fraction.
pub open spec fn float_is_nan(bits: u64) -> bool {
    (bits / 0x10_0000_0000_0000) % 0x800 == 0x7ff && bits % 0x10_0000_0000_0000 != 0
}

/// Whether a binary64 bit pattern is `0.0` or `-0.0`.
pub open spec fn float_is_zero(bits: u64) -> bool {
    bits % 0x8000_0000_0000_0000 == 0
}

/// Float equality in the IPLD data model: IEEE-754 equality (so `0.0` and
/// `-0.0` are equal), except that any two NaNs are equal.
pub open spec fn float_eq(a: u64, b: u64) -> bool {
    (float_is_nan(a) && float_is_nan(b)) || a == b || (float_is_zero(a) && float_is_zero(b))
}

/// The index of the last entry of a map listed with key `k`, or `-1` when
/// no entry has that key.
pub open spec fn find_last(m: Seq<(Seq<char>, IpldValue)>, k: Seq<char>) -> int
    decreases m.len(),
{
    if m.len() == 0 {
        -1
    } else if m.last().0 == k {
        m.len() - 1
    } else {
        find_last(m.drop_last(), k)
    }
}

/// `find_last` gives an entry with the key, or `-1`.
pub(crate) proof fn lemma_find_last(m: Seq<(Seq<char>, IpldValue)>, k: Seq<char>)
    ensures
        -1 <= find_last(m, k) < m.len(),
        find_last(m, k) >= 0 ==> m[find_last(m, k)].0 == k,
    decreases m.len(),
{
    if m.len() > 0 && m.last().0 != k {
        lemma_find_last(m.drop_last(), k);
    }
}

/// When entry `l` has the key and no later entry has it, `find_last` is `l`;
/// when no entry has the key, it is `-1`.
pub(crate) proof fn lemma_find_last_from(m: Seq<(Seq<char>, IpldValue)>, k: Seq<char>, l: int)
    requires
        0 <= l <= m.len(),
        l < m.len() ==> m[l].0 == k,
        l == m.len() ==> forall|q: int| 0 <= q < m.len() ==> m[q].0 != k,
        forall|q: int| l < q < m.len() ==> m[q].0 != k,
    ensures
        find_last(m, k) == if l < m.len() {
            l
        } else {
            -1
        },
    decreases m.len(),
{
    if m.len() > 0 && !(l == m.len() - 1) {
        assert(m.last().0 != k) by {
            assert(m.last() == m[m.len() - 1]);
        }
        let d = m.drop_last();
        assert forall|q: int| l < q < d.len() implies d[q].0 != k by {
            assert(d[q] == m[q]);
        }
        if l == m.len() {
            assert forall|q: int| 0 <= q < d.len() implies d[q].0 != k by {
                assert(d[q] == m[q]);
            }
            lemma_find_last_from(d, k, d.len() as int);
        } else {
            assert(d[l] == m[l]);
            lemma_find_last_from(d, k, l);
        }
    }
}

/// Equality of IPLD values: as the data model compares them, floats by
/// [`float_eq`] and maps as maps (same keys, and under each key equal
/// values, taking for each key the last entry listed with it).
pub open spec fn ipld_eq(a: IpldValue, b: IpldValue) -> bool
    decreases a,
{
    match a {
        IpldValue::Null => b is Null,
        IpldValue::Bool(x) => b matches IpldValue::Bool(y) && x == y,
        IpldValue::Integer(x) => b matches IpldValue::Integer(y) && x == y,
        IpldValue::Float(x) => b matches IpldValue::Float(y) && float_eq(x, y),
        IpldValue::String(x) => b matches IpldValue::String(y) && x == y,
        IpldValue::Bytes(x) => b matches IpldValue::Bytes(y) && x == y,
        IpldValue::Link(x) => b matches IpldValue::Link(y) && x == y,
        IpldValue::List(x) => match b {
            IpldValue::List(y) => x.len() == y.len() && forall|i: int|
                #![trigger x[i]]
                0 <= i < x.len() ==> ipld_eq(x[i], y[i]),
            _ => false,
        },
        IpldValue::Mapping(x) => match b {
            IpldValue::Mapping(y) => map_values_match(x, y) && map_keys_covered(x, y),
            _ => false,
        },
    }
}

/// Under each key of map `x` (its last entry), `y` has the key, with an
/// equal value under its own last entry for it.
pub open spec fn map_values_match(x: Seq<(Seq<char>, IpldValue)>, y: Seq<(Seq<char>, IpldValue)>) -> bool
    decreases x,
{
    forall|i: int|
        #![trigger x[i]]
        0 <= i < x.len() && find_last(x, x[i].0) == i ==> find_last(y, x[i].0) >= 0 && ipld_eq(
            x[i].1,
            y[find_last(y, x[i].0)].1,
        )
}

/// Every key of map `y` is a key of map `x`.
pub open spec fn map_keys_covered(x: Seq<(Seq<char>, IpldValue)>, y: Seq<(Seq<char>, IpldValue)>) -> bool {
    forall|j: int| #![trigger y[j]] 0 <= j < y.len() ==> find_last(x, y[j].0) >= 0
}

/// Equality of IPLD values is reflexive: every value equals itself.
pub proof fn lemma_ipld_eq_reflexive(a: IpldValue)
    ensures
        ipld_eq(a, a),
    decreases a,
{
    match a {
        IpldValue::List(x) => {
            assert forall|i: int| #![trigger x[i]] 0 <= i < x.len() implies ipld_eq(x[i], x[i]) by {
                lemma_ipld_eq_reflexive(x[i]);
            }
        },
        IpldValue::Mapping(x) => {
            assert forall|i: int|
                #![trigger x[i]]
                0 <= i < x.len() && find_last(x, x[i].0) == i implies find_last(x, x[i].0) >= 0
                && ipld_eq(x[i].1, x[find_last(x, x[i].0)].1) by {
                lemma_ipld_eq_reflexive(x[i].1);
            }
            assert forall|j: int| #![trigger x[j]] 0 <= j < x.len() implies find_last(x, x[j].0)
                >= 0 by {
                lemma_find_last(x, x[j].0);
                if find_last(x, x[j].0) < 0 {
                    lemma_find_last_none(x, x[j].0, j);
                }
            }
            assert(map_values_match(x, x));
        },
        _ => {},
    }
}

/// `find_last` finds a key that some entry has.
proof fn lemma_find_last_none(m: Seq<(Seq<char>, IpldValue)>, k: Seq<char>, j: int)
    requires
        0 <= j < m.len(),
        m[j].0 == k,
    ensures
        find_last(m, k) >= j,
    decreases m.len(),
{
    if m.last().0 != k {
        assert(j < m.len() - 1);
        assert(m.drop_last()[j] == m[j]);
        lemma_find_last_none(m.drop_last(), k, j);
    }
}

/// Equality of IPLD values is symmetric: `a` equals `b` exactly when `b`
/// equals `a`. For maps this means both have the same keys.
pub proof fn lemma_ipld_eq_symmetric(a: IpldValue, b: IpldValue)
    requires
        ipld_eq(a, b),
    ensures
        ipld_eq(b, a),
    decreases a,
{
    match a {
        IpldValue::List(x) => {
            let y = b->List_0;
            assert forall|i: int| #![trigger y[i]] 0 <= i < y.len() implies ipld_eq(y[i], x[i]) by {
                assert(ipld_eq(x[i], y[i]));
                lemma_ipld_eq_symmetric(x[i], y[i]);
            }
        },
        IpldValue::Mapping(x) => {
            let y = b->Mapping_0;
            assert(map_values_match(x, y) && map_keys_covered(x, y));
            assert forall|j: int|
                #![trigger y[j]]
                0 <= j < y.len() && find_last(y, y[j].0) == j implies find_last(x, y[j].0) >= 0
                && ipld_eq(y[j].1, x[find_last(x, y[j].0)].1) by {
                let k = y[j].0;
                let i = find_last(x, k);
                lemma_find_last(x, k);
                assert(x[i].0 == k);
                lemma_find_last_none(x, k, i);
                assert(find_last(x, x[i].0) == i);
                assert(find_last(y, x[i].0) >= 0 && ipld_eq(x[i].1, y[find_last(y, x[i].0)].1));
                lemma_ipld_eq_symmetric(x[i].1, y[j].1);
            }
            assert forall|i: int| #![trigger x[i]] 0 <= i < x.len() implies find_last(y, x[i].0)
                >= 0 by {
                let k = x[i].0;
                let i2 = find_last(x, k);
                lemma_find_last(x, k);
                lemma_find_last_none(x, k, i);
                assert(x[i2].0 == k);
                assert(find_last(x, x[i2].0) == i2);
            }
            assert(map_values_match(y, x));
            assert(map_keys_covered(y, x));
        },
        _ => {},
    }
}

/// Two equal maps have the same keys: a key is listed in one exactly when
/// it is listed in the other.
pub proof fn lemma_equal_maps_have_same_keys(
    x: Seq<(Seq<char>, IpldValue)>,
    y: Seq<(Seq<char>, IpldValue)>,
    k: Seq<char>,
)
    requires
        ipld_eq(IpldValue::Mapping(x), IpldValue::Mapping(y)),
    ensures
        (exists|i: int| 0 <= i < x.len() && #[trigger] x[i].0 == k) <==> (exists|j: int|
            0 <= j < y.len() && #[trigger] y[j].0 == k),
{
    lemma_ipld_eq_symmetric(IpldValue::Mapping(x), IpldValue::Mapping(y));
    if exists|i: int| 0 <= i < x.len() && #[trigger] x[i].0 == k {
        let i = choose|i: int| 0 <= i < x.len() && #[trigger] x[i].0 == k;
        assert(map_keys_covered(y, x));
        assert(find_last(y, x[i].0) >= 0);
        lemma_find_last(y, k);
        assert(y[find_last(y, k)].0 == k);
    }
    if exists|j: int| 0 <= j < y.len() && #[trigger] y[j].0 == k {
        let j = choose|j: int| 0 <= j < y.len() && #[trigger] y[j].0 == k;
        assert(map_keys_covered(x, y));
        assert(find_last(x, y[j].0) >= 0);
        lemma_find_last(x, k);
        assert(x[find_last(x, k)].0 == k);
    }
}

/// Comparing two IPLD values gives the same answer either way round, and a
/// value compares equal to itself.
pub proof fn lemma_ipld_eq_exec_symmetric(a: &Ipld, b: &Ipld, r1: bool, r2: bool)
    requires
        call_ensures(ipld_eq_exec, (a, b), r1),
        call_ensures(ipld_eq_exec, (b, a), r2),
    ensures
        r1 == r2,
{
    if r1 {
        lemma_ipld_eq_symmetric(a@, b@);
    }
    if r2 {
        lemma_ipld_eq_symmetric(b@, a@);
    }
}

/// A value compares equal to itself.
pub proof fn lemma_ipld_eq_exec_reflexive(a: &Ipld, r: bool)
    requires
        call_ensures(ipld_eq_exec, (a, a), r),
    ensures
        r,
{
    lemma_ipld_eq_reflexive(a@);
}

/// Whether the float bit pattern is a NaN.
fn float_is_nan_exec(bits: u64) -> (r: bool)
    ensures
        r == float_is_nan(bits),
{
    (bits / 0x10_0000_0000_0000) % 0x800 == 0x7ff && bits % 0x10_0000_0000_0000 != 0
}

/// The index of the last entry of the map with this key, if any.
fn last_index_of(m: &Vec<(String, Ipld)>, key: &String) -> (r: Option<usize>)
    ensures
        match r {
            Some(j) => j as int == find_last(map_value(m@), key@),
            None => find_last(map_value(m@), key@) == -1,
        },
{
    proof {
        lemma_map_value(m@);
    }
    let ghost mv = map_value(m@);
    let mut l: usize = m.len();
    while l > 0
        invariant
            l <= m.len(),
            mv == map_value(m@),
            mv.len() == m.len(),
            forall|k: int| 0 <= k < m.len() ==> #[trigger] mv[k] == (m@[k].0@, m@[k].1@),
            forall|k: int| l <= k < m.len() ==> #[trigger] mv[k].0 != key@,
        decreases l,
    {
        l = l - 1;
        if m[l].0 == *key {
            proof {
                assert(mv[l as int].0 == key@);
                lemma_find_last_from(mv, key@, l as int);
            }
            return Some(l);
        }
    }
    proof {
        lemma_find_last_from(mv, key@, mv.len() as int);
    }
    None
}

/// Whether two IPLD values are equal in the data model.
pub fn ipld_eq_exec(a: &Ipld, b: &Ipld) -> (r: bool)
    ensures
        r == ipld_eq(a@, b@),
    decreases a,
{
    match (a, b) {
        (Ipld::Null, Ipld::Null) => true,
        (Ipld::Bool(x), Ipld::Bool(y)) => *x == *y,
        (Ipld::Integer(x), Ipld::Integer(y)) => *x == *y,
        (Ipld::Float(x), Ipld::Float(y)) => {
            let x = *x;
            let y = *y;
            (float_is_nan_exec(x) && float_is_nan_exec(y)) || x == y || (x
                % 0x8000_0000_0000_0000 == 0 && y % 0x8000_0000_0000_0000 == 0)
        },
        (Ipld::String(x), Ipld::String(y)) => *x == *y,
        (Ipld::Bytes(x), Ipld::Bytes(y)) => bytes_equal(x, y),
        (Ipld::Link(x), Ipld::Link(y)) => bytes_equal(x, y),
        (Ipld::List(x), Ipld::List(y)) => {
            proof {
                assert(decreases_to!(*a => *x));
            }
            lists_equal(x, y)
        },
        (Ipld::Mapping(x), Ipld::Mapping(y)) => {
            proof {
                assert(decreases_to!(*a => *x));
            }
            maps_equal(x, y)
        },
        _ => false,
    }
}

/// Whether two byte strings are equal.
fn bytes_equal(x: &Vec<u8>, y: &Vec<u8>) -> (r: bool)
    ensures
        r == (x@ == y@),
{
    if x.len() != y.len() {
        return false;
    }
    let mut i: usize = 0;
    while i < x.len()
        invariant
            i <= x.len() == y.len(),
            forall|k: int| 0 <= k < i ==> x@[k] == y@[k],
        decreases x.len() - i,
    {
        if x[i] != y[i] {
            return false;
        }
        i = i + 1;
    }
    assert(x@ =~= y@);
    true
}

/// Whether two lists hold equal values, element by element.
fn lists_equal(x: &Vec<Ipld>, y: &Vec<Ipld>) -> (r: bool)
    ensures
        r == ipld_eq(IpldValue::List(list_value(x@)), IpldValue::List(list_value(y@))),
    decreases *x, 0nat,
{
    proof {
        lemma_list_value(x@);
        lemma_list_value(y@);
    }
    let ghost lx = list_value(x@);
    let ghost ly = list_value(y@);
    if x.len() != y.len() {
        return false;
    }
    let mut i: usize = 0;
    while i < x.len()
        invariant
            i <= x.len() == y.len(),
            lx == list_value(x@),
            ly == list_value(y@),
            lx.len() == x.len(),
            ly.len() == y.len(),
            forall|k: int| 0 <= k < x.len() ==> #[trigger] lx[k] == x@[k]@,
            forall|k: int| 0 <= k < y.len() ==> #[trigger] ly[k] == y@[k]@,
            forall|k: int| 0 <= k < i ==> ipld_eq(#[trigger] lx[k], ly[k]),
        decreases x.len() - i,
    {
        proof {
            assert(decreases_to!(*x => x@));
            assert(decreases_to!(x@ => x@[i as int]));
        }
        if !ipld_eq_exec(&x[i], &y[i]) {
            assert(!ipld_eq(lx[i as int], ly[i as int]));
            return false;
        }
        i = i + 1;
    }
    true
}

/// Whether two maps have the same keys and equal values under each key.
fn maps_equal(x: &Vec<(String, Ipld)>, y: &Vec<(String, Ipld)>) -> (r: bool)
    ensures
        r == ipld_eq(IpldValue::Mapping(map_value(x@)), IpldValue::Mapping(map_value(y@))),
    decreases *x, 0nat,
{
    proof {
        lemma_map_value(x@);
        lemma_map_value(y@);
    }
    let ghost mx = map_value(x@);
    let ghost my = map_value(y@);
    let mut i: usize = 0;
    while i < x.len()
        invariant
            i <= x.len(),
            mx == map_value(x@),
            my == map_value(y@),
            mx.len() == x.len(),
            my.len() == y.len(),
            forall|k: int| 0 <= k < x.len() ==> #[trigger] mx[k] == (x@[k].0@, x@[k].1@),
            forall|k: int| 0 <= k < y.len() ==> #[trigger] my[k] == (y@[k].0@, y@[k].1@),
            forall|k: int|
                #![trigger mx[k]]
                0 <= k < i && find_last(mx, mx[k].0) == k ==> find_last(my, mx[k].0) >= 0
                    && ipld_eq(mx[k].1, my[find_last(my, mx[k].0)].1),
        decreases x.len() - i,
    {
        assert(mx[i as int] == (x@[i as int].0@, x@[i as int].1@));
        if last_index_of(x, &x[i].0) == Some(i) {
            match last_index_of(y, &x[i].0) {
                None => {
                    assert(!map_values_match(mx, my));
                    return false;
                },
                Some(j) => {
                    proof {
                        lemma_find_last(my, mx[i as int].0);
                        assert(decreases_to!(*x => x@));
                        assert(decreases_to!(x@ => x@[i as int]));
                        assert(decreases_to!(x@[i as int] => x@[i as int].1));
                    }
                    if !ipld_eq_exec(&x[i].1, &y[j].1) {
                        assert(my[j as int] == (y@[j as int].0@, y@[j as int].1@));
                        assert(!map_values_match(mx, my));
                        return false;
                    }
                    assert(my[j as int] == (y@[j as int].0@, y@[j as int].1@));
                },
            }
        }
        i = i + 1;
    }
    assert(map_values_match(mx, my));
    let mut j: usize = 0;
    while j < y.len()
        invariant
            j <= y.len(),
            mx == map_value(x@),
            my == map_value(y@),
            mx.len() == x.len(),
            my.len() == y.len(),
            forall|k: int| 0 <= k < y.len() ==> #[trigger] my[k] == (y@[k].0@, y@[k].1@),
            forall|k: int| #![trigger my[k]] 0 <= k < j ==> find_last(mx, my[k].0) >= 0,
            map_values_match(mx, my),
        decreases y.len() - j,
    {
        assert(my[j as int] == (y@[j as int].0@, y@[j as int].1@));
        if last_index_of(x, &y[j].0).is_none() {
            assert(!map_keys_covered(mx, my));
            return false;
        }
        j = j + 1;
    }
    assert(map_keys_covered(mx, my));
    true
}

impl PartialEq for Ipld {
    fn eq(&self, other: &Self) -> (r: bool) {
        ipld_eq_exec(self, other)
    }
}

impl PartialEqSpecImpl for Ipld {
    open spec fn obeys_eq_spec() -> bool {
        true
    }

    open spec fn eq_spec(&self, other: &Self) -> bool {
        ipld_eq(self@, other@)
    }
}

/// A copy of `v` with the same value.
#[verifier::loop_isolation(false)]
pub fn copy_ipld(v: &Ipld) -> (r: Ipld)
    ensures
        r@ == v@,
    decreases v,
{
    match v {
        Ipld::Null => Ipld::Null,
        Ipld::Bool(b) => Ipld::Bool(*b),
        Ipld::Integer(i) => Ipld::Integer(*i),
        Ipld::Float(bits) => Ipld::Float(*bits),
        Ipld::String(s) => Ipld::String(s.clone()),
        Ipld::Bytes(b) => {
            let mut out: Vec<u8> = Vec::new();
            crate::bytes::push_all(&mut out, b.as_slice());
            Ipld::Bytes(out)
        },
        Ipld::List(items) => {
            let mut out: Vec<Ipld> = Vec::new();
            let mut i: usize = 0;
            while i < items.len()
                invariant
                    i <= items.len(),
                    list_value(out@) == list_value(items@.take(i as int)),
                decreases items.len() - i,
            {
                proof {
                    assert(*items == (*v)->List_0);
                    assert(decreases_to!(*v => (*v)->List_0));
                    assert(decreases_to!(*items => items@));
                    assert(decreases_to!(items@ => items@[i as int]));
                }
                let c = copy_ipld(&items[i]);
                proof {
                    assert(items@.take(i + 1).drop_last() =~= items@.take(i as int));
                    assert(out@.push(c).drop_last() =~= out@);
                }
                out.push(c);
                i = i + 1;
            }
            assert(items@.take(items.len() as int) =~= items@);
            Ipld::List(out)
        },
        Ipld::Mapping(entries) => {
            let mut out: Vec<(String, Ipld)> = Vec::new();
            let mut i: usize = 0;
            while i < entries.len()
                invariant
                    i <= entries.len(),
                    map_value(out@) == map_value(entries@.take(i as int)),
                decreases entries.len() - i,
            {
                proof {
                    assert(*entries == (*v)->Mapping_0);
                    assert(decreases_to!(*v => (*v)->Mapping_0));
                    assert(decreases_to!(*entries => entries@));
                    assert(decreases_to!(entries@ => entries@[i as int]));
                    assert(decreases_to!(entries@[i as int] => entries@[i as int].1));
                }
                let k = entries[i].0.clone();
                let c = copy_ipld(&entries[i].1);
                proof {
                    assert(entries@.take(i + 1).drop_last() =~= entries@.take(i as int));
                    assert(out@.push((k, c)).drop_last() =~= out@);
                }
                out.push((k, c));
                i = i + 1;
            }
            assert(entries@.take(entries.len() as int) =~= entries@);
            Ipld::Mapping(out)
        },
        Ipld::Link(c) => {
            let mut out: Vec<u8> = Vec::new();
            crate::bytes::push_all(&mut out, c.as_slice());
            Ipld::Link(out)
        },
    }
}

impl Clone for Ipld {
    fn clone(&self) -> (r: Self)
        ensures
            r@ == self@,
    {
        copy_ipld(self)
    }
}

} // verus!
