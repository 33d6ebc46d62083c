//! A small map keyed by [`Key`], kept as a list of entries in which no key occurs
//! twice.
use crate::key::Key;
use vstd::prelude::*;

verus! {

/// No key occurs twice among the entries.
pub open spec fn distinct_keys<V>(entries: Seq<(Key, V)>) -> bool {
    forall|i: int, j: int|
        0 <= i < entries.len() && 0 <= j < entries.len() && i != j ==> (#[trigger] entries[i]).0
            != (#[trigger] entries[j]).0
}

/// The place of `k` among the entries, if it has one.
pub open spec fn index_of<V>(entries: Seq<(Key, V)>, k: Key) -> int {
    choose|i: int| 0 <= i < entries.len() && (#[trigger] entries[i]).0 == k
}

/// `k` has an entry.
pub open spec fn has_key<V>(entries: Seq<(Key, V)>, k: Key) -> bool {
    exists|i: int| 0 <= i < entries.len() && (#[trigger] entries[i]).0 == k
}

/// The map that the entries spell out.
pub open spec fn entries_map<V>(entries: Seq<(Key, V)>) -> Map<Key, V> {
    Map::new(|k: Key| has_key(entries, k), |k: Key| entries[index_of(entries, k)].1)
}

/// The entries spell out a finite map with one key per entry.
pub proof fn lemma_entries_map_len<V>(entries: Seq<(Key, V)>)
    requires
        distinct_keys(entries),
    ensures
        entries_map(entries).dom().finite(),
        entries_map(entries).dom().len() == entries.len(),
    decreases entries.len(),
{
    let m = entries_map(entries);
    if entries.len() == 0 {
        assert(m.dom() =~= Set::<Key>::empty());
    } else {
        let front = entries.drop_last();
        let last = entries.last();
        assert forall|i: int, j: int|
            0 <= i < front.len() && 0 <= j < front.len() && i != j implies (#[trigger] front[i]).0
            != (#[trigger] front[j]).0 by {
            assert(front[i] == entries[i]);
            assert(front[j] == entries[j]);
        }
        lemma_entries_map_len(front);
        let fm = entries_map(front);
        assert forall|k: Key| m.dom().contains(k) <==> fm.dom().insert(last.0).contains(k) by {
            if has_key(entries, k) {
                let i = index_of(entries, k);
                if i < front.len() {
                    assert(front[i].0 == k);
                }
            }
            if has_key(front, k) {
                let i = index_of(front, k);
                assert(entries[i].0 == k);
            }
            if k == last.0 {
                assert(entries[entries.len() - 1].0 == k);
            }
        }
        assert(m.dom() =~= fm.dom().insert(last.0));
        if fm.dom().contains(last.0) {
            let i = index_of(front, last.0);
            assert(entries[i].0 == entries[entries.len() - 1].0);
        }
    }
}

/// A map from keys to values of type `V`.
pub struct KeyMap<V> {
    entries: Vec<(Key, V)>,
}

impl<V> View for KeyMap<V> {
    type V = Map<Key, V>;

    closed spec fn view(&self) -> Map<Key, V> {
        entries_map(self.entries@)
    }
}

impl<V> KeyMap<V> {
    #[verifier::type_invariant]
    spec fn inv(self) -> bool {
        distinct_keys(self.entries@)
    }

    /// An empty map.
    pub fn new() -> (m: Self)
        ensures
            m@ == Map::<Key, V>::empty(),
    {
        let m = KeyMap { entries: Vec::new() };
        assert(m@ =~= Map::<Key, V>::empty());
        m
    }

    /// The number of keys in the map.
    pub fn len(&self) -> (n: usize)
        ensures
            n == self@.dom().len(),
            self@.dom().finite(),
    {
        proof {
            use_type_invariant(self);
            lemma_entries_map_len(self.entries@);
        }
        self.entries.len()
    }

    fn find(&self, k: &Key) -> (at: Option<usize>)
        ensures
            match at {
                Some(i) => i < self.entries@.len() && self.entries@[i as int].0 == *k,
                None => !has_key(self.entries@, *k),
            },
    {
        let mut i: usize = 0;
        while i < self.entries.len()
            invariant
                i <= self.entries@.len(),
                forall|j: int| 0 <= j < i ==> (#[trigger] self.entries@[j]).0 != *k,
            decreases self.entries@.len() - i,
        {
            if self.entries[i].0.equals(k) {
                return Some(i);
            }
            i += 1;
        }
        None
    }

    /// Tells whether the map has the key.
    pub fn contains_key(&self, k: &Key) -> (found: bool)
        ensures
            found == self@.dom().contains(*k),
    {
        self.find(k).is_some()
    }

    /// The value of the key, if the map has it.
    pub fn get(&self, k: &Key) -> (found: Option<&V>)
        ensures
            match found {
                Some(v) => self@.dom().contains(*k) && *v == self@[*k],
                None => !self@.dom().contains(*k),
            },
    {
        match self.find(k) {
            Some(i) => {
                proof {
                    use_type_invariant(self);
                    let j = index_of(self.entries@, *k);
                    assert(self.entries@[i as int].0 == self.entries@[j].0);
                }
                Some(&self.entries[i].1)
            },
            None => None,
        }
    }

    /// Gives the key the value `v`, whether or not it had one.
    pub fn insert(&mut self, k: Key, v: V)
        ensures
            final(self)@ == old(self)@.insert(k, v),
    {
        proof {
            use_type_invariant(&*self);
        }
        let ghost before = self.entries@;
        let found = self.find(&k);
        let mut entries: Vec<(Key, V)> = Vec::new();
        core::mem::swap(&mut self.entries, &mut entries);
        match found {
            Some(i) => {
                entries.set(i, (k, v));
                proof {
                    let after = entries@;
                    assert forall|a: int, b: int|
                        0 <= a < after.len() && 0 <= b < after.len() && a != b implies (
                    #[trigger] after[a]).0 != (#[trigger] after[b]).0 by {
                        assert(after[a].0 == before[a].0);
                        assert(after[b].0 == before[b].0);
                    }
                    lemma_update_map(before, i as int, v);
                }
            },
            None => {
                entries.push((k, v));
                proof {
                    let after = entries@;
                    assert forall|a: int, b: int|
                        0 <= a < after.len() && 0 <= b < after.len() && a != b implies (
                    #[trigger] after[a]).0 != (#[trigger] after[b]).0 by {
                        if a < before.len() {
                            assert(after[a] == before[a]);
                        }
                        if b < before.len() {
                            assert(after[b] == before[b]);
                        }
                    }
                    lemma_push_map(before, k, v);
                }
            },
        }
        self.entries = entries;
    }
}

proof fn lemma_update_map<V>(before: Seq<(Key, V)>, i: int, v: V)
    requires
        distinct_keys(before),
        0 <= i < before.len(),
    ensures
        entries_map(before.update(i, (before[i].0, v))) == entries_map(before).insert(
            before[i].0,
            v,
        ),
{
    let k = before[i].0;
    let after = before.update(i, (k, v));
    let m = entries_map(before).insert(k, v);
    let n = entries_map(after);
    assert forall|x: Key| n.dom().contains(x) <==> m.dom().contains(x) by {
        if has_key(after, x) {
            let j = index_of(after, x);
            assert(before[j].0 == x);
        }
        if has_key(before, x) {
            let j = index_of(before, x);
            assert(after[j].0 == x);
        }
        if x == k {
            assert(after[i].0 == x);
        }
    }
    assert forall|x: Key| n.dom().contains(x) implies n[x] == m[x] by {
        let j = index_of(after, x);
        assert(before[j].0 == x);
        if x != k {
            let j2 = index_of(before, x);
            assert(before[j2].0 == before[j].0);
        } else {
            assert(before[j].0 == before[i].0);
        }
    }
    assert(n =~= m);
}

proof fn lemma_push_map<V>(before: Seq<(Key, V)>, k: Key, v: V)
    requires
        distinct_keys(before),
        !has_key(before, k),
    ensures
        entries_map(before.push((k, v))) == entries_map(before).insert(k, v),
{
    let after = before.push((k, v));
    let m = entries_map(before).insert(k, v);
    let n = entries_map(after);
    assert forall|x: Key| n.dom().contains(x) <==> m.dom().contains(x) by {
        if has_key(after, x) {
            let j = index_of(after, x);
            if j < before.len() {
                assert(before[j].0 == x);
            }
        }
        if has_key(before, x) {
            let j = index_of(before, x);
            assert(after[j].0 == x);
        }
        if x == k {
            assert(after[before.len() as int].0 == x);
        }
    }
    assert forall|x: Key| n.dom().contains(x) implies n[x] == m[x] by {
        let j = index_of(after, x);
        if x != k {
            assert(before[j].0 == x);
            let j2 = index_of(before, x);
            assert(after[j2].0 == after[j].0);
            if j != j2 {
                assert(before[j].0 == before[j2].0);
            }
        }
    }
    assert(n =~= m);
}

} // verus!
