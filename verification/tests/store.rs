use rust_orbitdb_core::{Clock, Entry, EntryStore, Ipld, MemoryStore};

fn entry(payload: &str, time: u64) -> Entry {
    Entry {
        v: 2,
        id: "log-1".to_string(),
        key: "k".to_string(),
        sig: "s".to_string(),
        next: vec![],
        refs: vec![],
        clock: Clock {
            id: "c".to_string(),
            time,
        },
        payload: Ipld::String(payload.to_string()),
        identity: "i".to_string(),
    }
}

#[test]
fn new_store_is_empty() {
    let s = MemoryStore::new();
    assert_eq!(s.len(), 0);
    assert!(s.is_empty());
    assert_eq!(s.get("zdpuA"), None);
    assert!(!s.has("zdpuA"));
    let d = MemoryStore::default();
    assert!(d.is_empty());
}

#[test]
fn get_after_put_returns_the_entry() {
    let mut s = MemoryStore::new();
    let e = entry("a", 1);
    let cid = e.cid().unwrap();
    s.put(&cid, entry("a", 1));
    assert_eq!(s.get(&cid), Some(e));
    assert!(s.has(&cid));
    assert_eq!(s.len(), 1);
    assert!(!s.is_empty());
    assert_eq!(s.get("other"), None);
}

#[test]
fn put_replaces_and_counts_distinct_cids() {
    let mut s = MemoryStore::new();
    s.put("x", entry("a", 1));
    s.put("y", entry("b", 2));
    assert_eq!(s.len(), 2);
    s.put("x", entry("c", 3));
    assert_eq!(s.len(), 2);
    assert_eq!(s.get("x"), Some(entry("c", 3)));
    assert_eq!(s.get("y"), Some(entry("b", 2)));
}

#[test]
fn puts_keep_the_last_entry_per_cid() {
    let ops = [("a", 1u64), ("b", 2), ("a", 3), ("c", 4), ("b", 5), ("a", 6)];
    let mut s = MemoryStore::new();
    for (cid, t) in ops.iter() {
        let before = s.len();
        let had = s.has(cid);
        s.put(cid, entry("p", *t));
        assert_eq!(s.len(), before + if had { 0 } else { 1 });
    }
    assert_eq!(s.len(), 3);
    assert_eq!(s.get("a"), Some(entry("p", 6)));
    assert_eq!(s.get("b"), Some(entry("p", 5)));
    assert_eq!(s.get("c"), Some(entry("p", 4)));
    assert_eq!(s.get("d"), None);
    assert_eq!(s.len(), 3);
}
