//! Entry storage seam: the log depends on this trait, not on a concrete
//! store, so an in-memory store or a persistent one can be swapped in without
//! touching log semantics.

use vstd::prelude::*;
use vstd::hash_map::StringHashMap;
use crate::entry::{Entry, EntryView};

verus! {

/// Content-addressed entry storage, keyed by entry CID.
pub trait EntryStore {
    /// The entries held, by CID.
    spec fn stored(&self) -> Map<Seq<char>, EntryView>;

    /// Fetch an entry by CID, if present.
    fn get(&self, cid: &str) -> (r: Option<Entry>)
        ensures
            match r {
                Some(e) => self.stored().contains_key(cid@) && e@ == self.stored()[cid@],
                None => !self.stored().contains_key(cid@),
            },
    ;

    /// Store an entry under its CID.
    fn put(&mut self, cid: &str, entry: Entry)
        ensures
            final(self).stored() == old(self).stored().insert(cid@, entry@),
    ;

    /// Whether an entry with this CID is present.
    fn has(&self, cid: &str) -> (r: bool)
        ensures
            r == self.stored().contains_key(cid@),
    {
        self.get(cid).is_some()
    }
}

/// A read gives back what the last write wrote: after `put(cid, entry)`,
/// the store holds `entry` under `cid`, and every other CID keeps what it
/// held (or its absence).
pub proof fn lemma_get_after_put<S: EntryStore>(
    before: &S,
    after: &S,
    cid: Seq<char>,
    entry: EntryView,
    other: Seq<char>,
)
    requires
        after.stored() == before.stored().insert(cid, entry),
    ensures
        after.stored().contains_key(cid),
        after.stored()[cid] == entry,
        other != cid ==> after.stored().contains_key(other) == before.stored().contains_key(other),
        other != cid && before.stored().contains_key(other) ==> after.stored()[other]
            == before.stored()[other],
{
}

/// The stores a sequence of puts passes through, starting from an empty one:
/// `states[0]` is empty and `states[i + 1]` is `states[i]` after
/// `put(ops[i].0, ops[i].1)`.
pub open spec fn puts_from_empty(
    states: Seq<Map<Seq<char>, EntryView>>,
    ops: Seq<(Seq<char>, EntryView)>,
) -> bool {
    &&& states.len() == ops.len() + 1
    &&& states[0] == Map::<Seq<char>, EntryView>::empty()
    &&& forall|i: int|
        0 <= i < ops.len() ==> #[trigger] states[i + 1] == states[i].insert(ops[i].0, ops[i].1)
}

/// The CIDs that a sequence of puts stores under.
pub open spec fn put_cids(ops: Seq<(Seq<char>, EntryView)>) -> Set<Seq<char>> {
    Set::new(|c: Seq<char>| exists|i: int| 0 <= i < ops.len() && ops[i].0 == c)
}

/// After a sequence of puts into an empty store, the store holds exactly the
/// CIDs that were put, as many entries as there are distinct CIDs among
/// them, and under each CID the entry of the last put with that CID.
pub proof fn lemma_puts_from_empty(
    states: Seq<Map<Seq<char>, EntryView>>,
    ops: Seq<(Seq<char>, EntryView)>,
)
    requires
        puts_from_empty(states, ops),
    ensures
        states.last().dom() == put_cids(ops),
        states.last().dom().finite(),
        states.last().len() == put_cids(ops).len(),
        forall|c: Seq<char>|
            #[trigger] states.last().contains_key(c) ==> exists|i: int|
                0 <= i < ops.len() && ops[i].0 == c && states.last()[c] == ops[i].1 && forall|
                    j: int,
                | i < j < ops.len() ==> ops[j].0 != c,
    decreases ops.len(),
{
    let last = states.last();
    if ops.len() == 0 {
        assert(put_cids(ops) =~= Set::<Seq<char>>::empty());
        assert(last.dom() =~= put_cids(ops));
    } else {
        let n = ops.len() - 1;
        let prev_states = states.drop_last();
        let prev_ops = ops.drop_last();
        assert forall|i: int| 0 <= i < prev_ops.len() implies #[trigger] prev_states[i + 1]
            == prev_states[i].insert(prev_ops[i].0, prev_ops[i].1) by {
            assert(states[i + 1] == states[i].insert(ops[i].0, ops[i].1));
        }
        lemma_puts_from_empty(prev_states, prev_ops);
        let prev = prev_states.last();
        assert(prev == states[n]);
        assert(last == prev.insert(ops[n].0, ops[n].1));
        assert(last.dom() =~= put_cids(ops)) by {
            assert forall|c: Seq<char>| last.dom().contains(c) implies put_cids(ops).contains(
                c,
            ) by {
                if c != ops[n].0 {
                    let i = choose|i: int| 0 <= i < prev_ops.len() && prev_ops[i].0 == c;
                    assert(ops[i].0 == c);
                }
            }
            assert forall|c: Seq<char>| put_cids(ops).contains(c) implies last.dom().contains(
                c,
            ) by {
                let i = choose|i: int| 0 <= i < ops.len() && ops[i].0 == c;
                if i < n {
                    assert(prev_ops[i].0 == c);
                    assert(put_cids(prev_ops).contains(c));
                }
            }
        }
        assert forall|c: Seq<char>| #[trigger] last.contains_key(c) implies exists|i: int|
            0 <= i < ops.len() && ops[i].0 == c && last[c] == ops[i].1 && forall|j: int|
                i < j < ops.len() ==> ops[j].0 != c by {
            if c == ops[n].0 {
                assert(last[c] == ops[n].1);
            } else {
                assert(prev.contains_key(c));
                let i = choose|i: int|
                    0 <= i < prev_ops.len() && prev_ops[i].0 == c && prev[c] == prev_ops[i].1
                        && forall|j: int| i < j < prev_ops.len() ==> prev_ops[j].0 != c;
                assert(ops[i].0 == c && last[c] == ops[i].1);
                assert forall|j: int| i < j < ops.len() implies ops[j].0 != c by {
                    if j < n {
                        assert(prev_ops[j] == ops[j]);
                    }
                }
            }
        }
    }
}

/// Simple in-memory entry store.
pub struct MemoryStore {
    entries: StringHashMap<Entry>,
}

impl MemoryStore {
    /// The store holds finitely many entries.
    #[verifier::type_invariant]
    spec fn finite_entries(self) -> bool {
        self.entries@.dom().finite()
    }
}

impl MemoryStore {
    pub fn new() -> (s: Self)
        ensures
            s.stored() == Map::<Seq<char>, EntryView>::empty(),
            s.stored().dom().finite(),
    {
        let s = MemoryStore { entries: StringHashMap::new() };
        assert(s.stored() =~= Map::<Seq<char>, EntryView>::empty());
        s
    }

    /// Number of stored entries.
    pub fn len(&self) -> (r: usize)
        ensures
            r == self.stored().len(),
            self.stored().dom().finite(),
    {
        proof {
            use_type_invariant(self);
        }
        assert(self.stored().dom() =~= self.entries@.dom());
        self.entries.len()
    }

    /// Whether the store holds no entries.
    pub fn is_empty(&self) -> (r: bool)
        ensures
            r == (self.stored().len() == 0),
    {
        self.len() == 0
    }
}

impl Default for MemoryStore {
    fn default() -> (s: Self)
        ensures
            s.stored() == Map::<Seq<char>, EntryView>::empty(),
    {
        MemoryStore::new()
    }
}

impl EntryStore for MemoryStore {
    closed spec fn stored(&self) -> Map<Seq<char>, EntryView> {
        self.entries@.map_values(|e: Entry| e@)
    }

    fn get(&self, cid: &str) -> (r: Option<Entry>) {
        match self.entries.get(cid) {
            Some(e) => Some(e.clone()),
            None => None,
        }
    }

    /// Store an entry under its CID: the store keeps finitely many entries,
    /// and holds one more exactly when the CID was not there before.
    fn put(&mut self, cid: &str, entry: Entry)
        ensures
            final(self).stored().dom().finite(),
            final(self).stored().len() == old(self).stored().len() + if old(
                self,
            ).stored().contains_key(cid@) {
                0int
            } else {
                1int
            },
    {
        proof {
            use_type_invariant(&*self);
        }
        assert(old(self).stored().dom() =~= old(self).entries@.dom());
        let mut entries: StringHashMap<Entry> = StringHashMap::new();
        std::mem::swap(&mut entries, &mut self.entries);
        entries.insert(cid.to_string(), entry);
        std::mem::swap(&mut entries, &mut self.entries);
        assert(self.stored() =~= old(self).stored().insert(cid@, entry@));
    }
}

} // verus!
