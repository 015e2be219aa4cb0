//! The order of clocks and of entries that settles conflicts, as
//! `@orbitdb/core` orders them.

use vstd::prelude::*;
use vstd::utf8::{encode_utf8, is_ascii_chars};
use std::cmp::Ordering;
use crate::bytes::{
    lex_lt, bytes_lt, lemma_lex_irreflexive, lemma_lex_asymmetric, lemma_lex_transitive,
    lemma_lex_total, chars_lt, lemma_ascii_byte_order_is_char_order, lemma_utf8_injective,
    lemma_lex_lt_by_bytes, lemma_lex_lt_by_prefix,
};
use crate::entry::{Clock, ClockView, Entry};

verus! {

/// Whether clock `a` sorts before clock `b`: by `time`, then by `id`
/// compared bytewise (as UTF-8).
pub open spec fn clock_lt(a: ClockView, b: ClockView) -> bool {
    a.time < b.time || (a.time == b.time && lex_lt(encode_utf8(a.id), encode_utf8(b.id)))
}

/// How `compare_clocks` orders two clocks: `Equal` for identical clocks,
/// `Less` when `a` sorts before `b`, `Greater` otherwise.
pub open spec fn clock_order(a: ClockView, b: ClockView) -> Ordering {
    if clock_lt(a, b) {
        Ordering::Less
    } else if a == b {
        Ordering::Equal
    } else {
        Ordering::Greater
    }
}

/// The opposite of an ordering.
pub open spec fn reversed(o: Ordering) -> Ordering {
    match o {
        Ordering::Less => Ordering::Greater,
        Ordering::Equal => Ordering::Equal,
        Ordering::Greater => Ordering::Less,
    }
}

/// How `last_write_wins` orders two entries: by their clocks, and when the
/// clocks are identical the first entry wins.
pub open spec fn lww_order(a: ClockView, b: ClockView) -> Ordering {
    match clock_order(a, b) {
        Ordering::Equal => Ordering::Greater,
        o => o,
    }
}

/// No clock sorts before itself.
pub proof fn lemma_clock_irreflexive(a: ClockView)
    ensures
        !clock_lt(a, a),
{
    lemma_lex_irreflexive(encode_utf8(a.id));
}

/// Of two distinct clocks, exactly one sorts before the other.
pub proof fn lemma_clock_total(a: ClockView, b: ClockView)
    requires
        a != b,
    ensures
        clock_lt(a, b) != clock_lt(b, a),
{
    if a.time == b.time {
        assert(a.id != b.id);
        lemma_utf8_injective(a.id, b.id);
        lemma_lex_total(encode_utf8(a.id), encode_utf8(b.id));
        if lex_lt(encode_utf8(a.id), encode_utf8(b.id)) {
            lemma_lex_asymmetric(encode_utf8(a.id), encode_utf8(b.id));
        }
    }
}

/// The clock order is transitive.
pub proof fn lemma_clock_transitive(a: ClockView, b: ClockView, c: ClockView)
    requires
        clock_lt(a, b),
        clock_lt(b, c),
    ensures
        clock_lt(a, c),
{
    if a.time == b.time && b.time == c.time {
        lemma_lex_transitive(encode_utf8(a.id), encode_utf8(b.id), encode_utf8(c.id));
    }
}

/// Comparing two clocks one way gives the opposite of comparing them the
/// other way.
pub proof fn lemma_clock_order_antisymmetric(a: ClockView, b: ClockView)
    ensures
        clock_order(a, b) == reversed(clock_order(b, a)),
{
    lemma_clock_irreflexive(a);
    lemma_clock_irreflexive(b);
    if a != b {
        lemma_clock_total(a, b);
    }
}

/// Two clocks compare `Equal` exactly when they are identical, and `Greater`
/// exactly when the second sorts before the first.
pub proof fn lemma_clock_order_cases(a: ClockView, b: ClockView)
    ensures
        (clock_order(a, b) == Ordering::Equal) == (a == b),
        (clock_order(a, b) == Ordering::Greater) == clock_lt(b, a),
{
    lemma_clock_irreflexive(a);
    if a != b {
        lemma_clock_total(a, b);
    }
}

/// OrbitDB clock ids are ASCII hex, and for ASCII ids the bytewise order is
/// the order JavaScript compares strings in: by time, then by the ids' chars.
pub proof fn lemma_ascii_clock_order(a: ClockView, b: ClockView)
    requires
        is_ascii_chars(a.id),
        is_ascii_chars(b.id),
    ensures
        clock_lt(a, b) == (a.time < b.time || (a.time == b.time && chars_lt(a.id, b.id))),
{
    lemma_ascii_byte_order_is_char_order(a.id, b.id);
}

/// Compares two clocks the way `@orbitdb/core` `compareClocks` does: primary by
/// `time`, secondary by `id` (bytewise). Returns `Equal` only when both clocks
/// are identical.
pub fn compare_clocks(a: &Clock, b: &Clock) -> (r: Ordering)
    ensures
        r == clock_order(a@, b@),
{
    if a.time < b.time {
        Ordering::Less
    } else if a.time > b.time {
        proof {
            lemma_clock_irreflexive(a@);
        }
        Ordering::Greater
    } else if a.id == b.id {
        proof {
            lemma_clock_irreflexive(a@);
            assert(a@ == b@);
        }
        Ordering::Equal
    } else if bytes_lt(a.id.as_str().as_bytes(), b.id.as_str().as_bytes()) {
        Ordering::Less
    } else {
        Ordering::Greater
    }
}

/// Returned when a conflict comparator yields `Equal` for two entries:
/// OrbitDB's `NoZeroes` guard throws in this case, because the log requires a
/// strict total order over distinct entries.
#[derive(Debug, Clone, Copy, PartialEq, Eq, Structural)]
pub struct NoZeroError;

/// Last-Write-Wins entry ordering, matching `@orbitdb/core`: order by clock
/// (time then id); if the clocks are identical, the first (left) entry is
/// the winner. Never returns `Equal`.
pub fn last_write_wins(a: &Entry, b: &Entry) -> (r: Ordering)
    ensures
        r == lww_order(a@.clock, b@.clock),
        r != Ordering::Equal,
{
    match compare_clocks(&a.clock, &b.clock) {
        Ordering::Equal => Ordering::Greater,
        o => o,
    }
}

/// Wraps a conflict comparator with OrbitDB's `NoZeroes` invariant: an
/// `Equal` result is an error, not a silent tie.
pub fn no_zeroes<F>(cmp: F, a: &Entry, b: &Entry) -> (r: Result<Ordering, NoZeroError>) where
    F: Fn(&Entry, &Entry) -> Ordering,

    requires
        cmp.requires((a, b)),
    ensures
        r matches Ok(o) ==> cmp.ensures((a, b), o) && o != Ordering::Equal,
        r is Err ==> cmp.ensures((a, b), Ordering::Equal),
{
    match cmp(a, b) {
        Ordering::Equal => Err(NoZeroError),
        o => Ok(o),
    }
}

/// The clock order in terms of times and id bytes.
proof fn lemma_clock_bytes_order(a: ClockView, b: ClockView)
    ensures
        a.time < b.time ==> clock_order(a, b) == Ordering::Less,
        a.time > b.time ==> clock_order(a, b) == Ordering::Greater,
        a.time == b.time && a.id == b.id ==> clock_order(a, b) == Ordering::Equal,
        forall|i: int|
            #![trigger encode_utf8(a.id).take(i), encode_utf8(b.id).take(i)]
            a.time == b.time && 0 <= i < encode_utf8(a.id).len() && i < encode_utf8(b.id).len()
                && encode_utf8(a.id).take(i) == encode_utf8(b.id).take(i) ==> (encode_utf8(a.id)[i]
                < encode_utf8(b.id)[i] ==> clock_order(a, b) == Ordering::Less) && (encode_utf8(
                a.id,
            )[i] > encode_utf8(b.id)[i] ==> clock_order(a, b) == Ordering::Greater),
        a.time == b.time && encode_utf8(a.id).len() < encode_utf8(b.id).len() && (forall|k: int|
            0 <= k < encode_utf8(a.id).len() ==> encode_utf8(a.id)[k] == encode_utf8(b.id)[k])
            ==> clock_order(a, b) == Ordering::Less,
        a.time == b.time && encode_utf8(b.id).len() < encode_utf8(a.id).len() && (forall|k: int|
            0 <= k < encode_utf8(b.id).len() ==> encode_utf8(b.id)[k] == encode_utf8(a.id)[k])
            ==> clock_order(a, b) == Ordering::Greater,
{
    let ea = encode_utf8(a.id);
    let eb = encode_utf8(b.id);
    lemma_clock_irreflexive(a);
    lemma_clock_irreflexive(b);
    assert forall|i: int|
        #![trigger encode_utf8(a.id).take(i), encode_utf8(b.id).take(i)]
        a.time == b.time && 0 <= i < ea.len() && i < eb.len() && ea.take(i) == eb.take(i) implies (
        ea[i] < eb[i] ==> clock_order(a, b) == Ordering::Less) && (ea[i] > eb[i] ==> clock_order(
        a,
        b,
    ) == Ordering::Greater) by {
        if ea[i] < eb[i] {
            lemma_lex_lt_by_bytes(ea, eb, i);
        } else if ea[i] > eb[i] {
            lemma_lex_lt_by_bytes(eb, ea, i);
            assert(a != b);
        }
    }
    if a.time == b.time && ea.len() < eb.len() && (forall|k: int|
        0 <= k < ea.len() ==> ea[k] == eb[k]) {
        lemma_lex_lt_by_prefix(ea, eb);
    }
    if a.time == b.time && eb.len() < ea.len() && (forall|k: int|
        0 <= k < eb.len() ==> eb[k] == ea[k]) {
        lemma_lex_lt_by_prefix(eb, ea);
        assert(a != b);
    }
}

/// `compare_clocks` in terms of the clocks' fields: the earlier time comes
/// first; at equal times the ids decide byte by byte (the first differing
/// byte, or the shorter id when one is a prefix of the other); identical
/// clocks compare `Equal`.
pub proof fn lemma_compare_clocks_law(a: &Clock, b: &Clock, r: Ordering)
    requires
        call_ensures(compare_clocks, (a, b), r),
    ensures
        a.time < b.time ==> r == Ordering::Less,
        a.time > b.time ==> r == Ordering::Greater,
        a.time == b.time && a.id@ == b.id@ ==> r == Ordering::Equal,
        forall|i: int|
            #![trigger encode_utf8(a.id@).take(i), encode_utf8(b.id@).take(i)]
            a.time == b.time && 0 <= i < encode_utf8(a.id@).len() && i < encode_utf8(
                b.id@,
            ).len() && encode_utf8(a.id@).take(i) == encode_utf8(b.id@).take(i) ==> (encode_utf8(
                a.id@,
            )[i] < encode_utf8(b.id@)[i] ==> r == Ordering::Less) && (encode_utf8(a.id@)[i]
                > encode_utf8(b.id@)[i] ==> r == Ordering::Greater),
        a.time == b.time && encode_utf8(a.id@).len() < encode_utf8(b.id@).len()
            && (forall|k: int| 0 <= k < encode_utf8(a.id@).len() ==> encode_utf8(a.id@)[k] == encode_utf8(b.id@)[k])
            ==> r == Ordering::Less,
        a.time == b.time && encode_utf8(b.id@).len() < encode_utf8(a.id@).len()
            && (forall|k: int| 0 <= k < encode_utf8(b.id@).len() ==> encode_utf8(b.id@)[k] == encode_utf8(a.id@)[k])
            ==> r == Ordering::Greater,
{
    lemma_clock_bytes_order(a@, b@);
}

/// `last_write_wins` in terms of the entries' clocks: the earlier time comes
/// first; at equal times the ids decide byte by byte (the first differing
/// byte, or the shorter id when one is a prefix of the other); only when
/// the clocks are identical does the first entry win (`Greater`).
pub proof fn lemma_last_write_wins_law(a: &Entry, b: &Entry, r: Ordering)
    requires
        call_ensures(last_write_wins, (a, b), r),
    ensures
        a.clock.time < b.clock.time ==> r == Ordering::Less,
        a.clock.time > b.clock.time ==> r == Ordering::Greater,
        a.clock.time == b.clock.time && a.clock.id@ == b.clock.id@ ==> r == Ordering::Greater,
        forall|i: int|
            #![trigger encode_utf8(a.clock.id@).take(i), encode_utf8(b.clock.id@).take(i)]
            a.clock.time == b.clock.time && 0 <= i < encode_utf8(a.clock.id@).len() && i < encode_utf8(
                b.clock.id@,
            ).len() && encode_utf8(a.clock.id@).take(i) == encode_utf8(b.clock.id@).take(i) ==> (encode_utf8(
                a.clock.id@,
            )[i] < encode_utf8(b.clock.id@)[i] ==> r == Ordering::Less) && (encode_utf8(a.clock.id@)[i]
                > encode_utf8(b.clock.id@)[i] ==> r == Ordering::Greater),
        a.clock.time == b.clock.time && encode_utf8(a.clock.id@).len() < encode_utf8(b.clock.id@).len()
            && (forall|k: int| 0 <= k < encode_utf8(a.clock.id@).len() ==> encode_utf8(a.clock.id@)[k] == encode_utf8(b.clock.id@)[k])
            ==> r == Ordering::Less,
        a.clock.time == b.clock.time && encode_utf8(b.clock.id@).len() < encode_utf8(a.clock.id@).len()
            && (forall|k: int| 0 <= k < encode_utf8(b.clock.id@).len() ==> encode_utf8(b.clock.id@)[k] == encode_utf8(a.clock.id@)[k])
            ==> r == Ordering::Greater,
{
    lemma_clock_bytes_order(a.clock@, b.clock@);
}

/// `last_write_wins` never answers `Equal`, so `no_zeroes` never refuses it.
pub proof fn lemma_last_write_wins_never_ties(a: &Entry, b: &Entry)
    ensures
        forall|o: Ordering| #[trigger] call_ensures(last_write_wins, (a, b), o) ==> o != Ordering::Equal,
{
}

} // verus!
