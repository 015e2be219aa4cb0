use rust_orbitdb_core::{compare_clocks, last_write_wins, no_zeroes, Clock, Entry, Ipld, NoZeroError};
use std::cmp::Ordering;

fn clock(id: &str, time: u64) -> Clock {
    Clock {
        id: id.to_string(),
        time,
    }
}

fn entry_with_clock(id: &str, time: u64) -> Entry {
    Entry {
        v: 2,
        id: "log-1".to_string(),
        key: String::new(),
        sig: String::new(),
        next: vec![],
        refs: vec![],
        clock: Clock {
            id: id.to_string(),
            time,
        },
        payload: Ipld::Null,
        identity: String::new(),
    }
}

#[test]
fn no_zeroes_rejects_equal_for_distinct_entries() {
    let a = entry_with_clock("x", 1);
    let b = entry_with_clock("y", 2);
    // A deliberately-bad comparator that ties must be rejected (mirrors OrbitDB).
    assert!(no_zeroes(|_, _| Ordering::Equal, &a, &b).is_err());
    // last_write_wins never ties, so the guarded call always succeeds.
    assert!(no_zeroes(last_write_wins, &a, &b).is_ok());
}

#[test]
fn no_zeroes_passes_on_the_comparator_answer() {
    let a = entry_with_clock("x", 1);
    let b = entry_with_clock("y", 2);
    assert_eq!(no_zeroes(|_, _| Ordering::Less, &a, &b), Ok(Ordering::Less));
    assert_eq!(no_zeroes(|_, _| Ordering::Greater, &a, &b), Ok(Ordering::Greater));
    assert_eq!(no_zeroes(|_, _| Ordering::Equal, &a, &b), Err(NoZeroError));
    assert_eq!(no_zeroes(last_write_wins, &a, &b), Ok(Ordering::Less));
    assert_eq!(no_zeroes(last_write_wins, &b, &a), Ok(Ordering::Greater));
}

#[test]
fn clocks_order_by_time_first() {
    assert_eq!(compare_clocks(&clock("b", 1), &clock("a", 2)), Ordering::Less);
    assert_eq!(compare_clocks(&clock("a", 2), &clock("b", 1)), Ordering::Greater);
    assert_eq!(compare_clocks(&clock("zzz", 0), &clock("a", 1)), Ordering::Less);
}

#[test]
fn clocks_with_equal_time_order_by_id_bytes() {
    assert_eq!(compare_clocks(&clock("a", 5), &clock("b", 5)), Ordering::Less);
    assert_eq!(compare_clocks(&clock("b", 5), &clock("a", 5)), Ordering::Greater);
    // A proper prefix sorts first.
    assert_eq!(compare_clocks(&clock("ab", 5), &clock("abc", 5)), Ordering::Less);
    // Bytewise: uppercase sorts before lowercase.
    assert_eq!(compare_clocks(&clock("Z", 5), &clock("a", 5)), Ordering::Less);
    // Multi-byte UTF-8 sorts after ASCII.
    assert_eq!(compare_clocks(&clock("\u{e9}", 5), &clock("z", 5)), Ordering::Greater);
    // Hex ids, as OrbitDB writes them.
    assert_eq!(
        compare_clocks(&clock("02a1", 3), &clock("03a0", 3)),
        Ordering::Less
    );
}

#[test]
fn clocks_equal_only_when_identical() {
    assert_eq!(compare_clocks(&clock("a", 5), &clock("a", 5)), Ordering::Equal);
    assert_eq!(compare_clocks(&clock("", 0), &clock("", 0)), Ordering::Equal);
    assert_ne!(compare_clocks(&clock("a", 5), &clock("a", 6)), Ordering::Equal);
    assert_ne!(compare_clocks(&clock("a", 5), &clock("b", 5)), Ordering::Equal);
}

const SAMPLE_IDS: [&str; 7] = ["", "a", "b", "ab", "ba", "zz", "\u{e9}"];

#[test]
fn clock_compare_is_antisymmetric() {
    for t1 in 0..3u64 {
        for t2 in 0..3u64 {
            for id1 in SAMPLE_IDS.iter() {
                for id2 in SAMPLE_IDS.iter() {
                    let a = clock(id1, t1);
                    let b = clock(id2, t2);
                    assert_eq!(compare_clocks(&a, &b), compare_clocks(&b, &a).reverse());
                    assert_eq!(compare_clocks(&a, &b), (t1, id1.as_bytes()).cmp(&(t2, id2.as_bytes())));
                }
            }
        }
    }
}

#[test]
fn clock_equal_iff_identical() {
    for t1 in 0..3u64 {
        for t2 in 0..3u64 {
            for id1 in SAMPLE_IDS.iter() {
                for id2 in SAMPLE_IDS.iter() {
                    let a = clock(id1, t1);
                    let b = clock(id2, t2);
                    let is_equal = compare_clocks(&a, &b) == Ordering::Equal;
                    assert_eq!(is_equal, t1 == t2 && id1 == id2);
                }
            }
        }
    }
}

#[test]
fn lww_never_ties() {
    let ids = ["a", "b", "ab"];
    for t1 in 0..3u64 {
        for t2 in 0..3u64 {
            for id1 in ids.iter() {
                for id2 in ids.iter() {
                    let a = entry_with_clock(id1, t1);
                    let b = entry_with_clock(id2, t2);
                    assert_ne!(last_write_wins(&a, &b), Ordering::Equal);
                    assert!(no_zeroes(last_write_wins, &a, &b).is_ok());
                }
            }
        }
    }
    // Identical clocks: the first entry wins.
    let a = entry_with_clock("a", 1);
    let b = entry_with_clock("a", 1);
    assert_eq!(last_write_wins(&a, &b), Ordering::Greater);
    assert_eq!(last_write_wins(&b, &a), Ordering::Greater);
}
