//! Sets of keys, kept in ascending order so that equal sets are equal lists.
use crate::key::{lemma_key_order_total, Key};
use vstd::prelude::*;

verus! {

/// Each key of the list precedes every later one.
pub open spec fn ascending(keys: Seq<Key>) -> bool {
    forall|i: int, j: int|
        0 <= i < j < keys.len() ==> (#[trigger] keys[i]).precedes(#[trigger] keys[j])
}

/// The keys of the set `s` in ascending order. A set has at most one such list
/// ([`lemma_ascending_unique`]); a set without one, an infinite set, gets an
/// arbitrary list.
pub open spec fn ascending_keys(s: Set<Key>) -> Seq<Key> {
    choose|q: Seq<Key>| ascending(q) && q.to_set() == s
}

proof fn lemma_last_is_greatest(p: Seq<Key>, x: Key)
    requires
        ascending(p),
        p.len() > 0,
        p.contains(x),
    ensures
        x == p.last() || x.precedes(p.last()),
        p.drop_last().contains(x) <==> x != p.last(),
        ascending(p.drop_last()),
{
    let i = choose|i: int| 0 <= i < p.len() && p[i] == x;
    let n = p.len() - 1;
    if i < n {
        assert(p[i].precedes(p[n]));
        lemma_key_order_total(x, x, x);
        assert(p.drop_last()[i] == x);
    }
    if p.drop_last().contains(x) {
        let j = choose|j: int| 0 <= j < p.drop_last().len() && p.drop_last()[j] == x;
        assert(p[j].precedes(p[n]));
        lemma_key_order_total(p.last(), p.last(), p.last());
    }
    assert forall|a: int, b: int| 0 <= a < b < p.drop_last().len() implies (
    #[trigger] p.drop_last()[a]).precedes(#[trigger] p.drop_last()[b]) by {
        assert(p[a].precedes(p[b]));
    }
}

/// **One list per set.** Two ascending lists with the same keys are the same list.
pub proof fn lemma_ascending_unique(p: Seq<Key>, q: Seq<Key>)
    requires
        ascending(p),
        ascending(q),
        p.to_set() == q.to_set(),
    ensures
        p == q,
    decreases p.len(),
{
    if p.len() == 0 {
        if q.len() > 0 {
            assert(q.contains(q[0]));
            assert(q.to_set().contains(q[0]));
            assert(p.contains(q[0]));
        }
        assert(p =~= q);
    } else if q.len() == 0 {
        assert(p.contains(p[0]));
        assert(p.to_set().contains(p[0]));
        assert(q.contains(p[0]));
    } else {
        let a = p.last();
        let b = q.last();
        assert(p.contains(a)) by {
            assert(p[p.len() - 1] == a);
        }
        assert(q.contains(b)) by {
            assert(q[q.len() - 1] == b);
        }
        assert(q.to_set().contains(a));
        assert(p.to_set().contains(b));
        lemma_last_is_greatest(q, a);
        lemma_last_is_greatest(p, b);
        lemma_key_order_total(a, b, a);
        assert(a == b);
        assert forall|x: Key| p.drop_last().to_set().contains(x) <==> q.drop_last().to_set().contains(
            x,
        ) by {
            if p.drop_last().contains(x) {
                assert(p.drop_last()[p.drop_last().index_of(x)] == x);
                assert(p[p.drop_last().index_of(x)] == x);
                assert(p.contains(x));
                assert(p.to_set().contains(x));
                lemma_last_is_greatest(p, x);
                lemma_last_is_greatest(q, x);
            }
            if q.drop_last().contains(x) {
                assert(q.drop_last()[q.drop_last().index_of(x)] == x);
                assert(q[q.drop_last().index_of(x)] == x);
                assert(q.contains(x));
                assert(q.to_set().contains(x));
                lemma_last_is_greatest(q, x);
                lemma_last_is_greatest(p, x);
            }
        }
        assert(p.drop_last().to_set() =~= q.drop_last().to_set());
        lemma_last_is_greatest(p, a);
        lemma_last_is_greatest(q, b);
        lemma_ascending_unique(p.drop_last(), q.drop_last());
        assert(p =~= p.drop_last().push(a));
        assert(q =~= q.drop_last().push(b));
    }
}

/// An ascending list is the list of the keys of its set.
pub proof fn lemma_ascending_keys(q: Seq<Key>)
    requires
        ascending(q),
    ensures
        ascending_keys(q.to_set()) == q,
{
    let found = ascending_keys(q.to_set());
    lemma_ascending_unique(found, q);
}

/// A set of keys.
#[derive(Debug, PartialEq, Eq)]
pub struct KeySet {
    keys: Vec<Key>,
}

impl View for KeySet {
    type V = Set<Key>;

    closed spec fn view(&self) -> Set<Key> {
        self.keys@.to_set()
    }
}

impl Clone for KeySet {
    fn clone(&self) -> (copy: Self)
        ensures
            copy@ == self@,
            copy.ordered() == self.ordered(),
    {
        KeySet { keys: self.to_vec() }
    }
}

impl KeySet {
    #[verifier::type_invariant]
    spec fn inv(self) -> bool {
        ascending(self.keys@)
    }

    /// The keys of the set in ascending order.
    pub closed spec fn ordered(&self) -> Seq<Key> {
        self.keys@
    }

    /// The empty set.
    pub fn new() -> (s: Self)
        ensures
            s@ == Set::<Key>::empty(),
            s.ordered() == Seq::<Key>::empty(),
    {
        let s = KeySet { keys: Vec::new() };
        assert(s@ =~= Set::<Key>::empty());
        s
    }

    /// The set of the keys of a list, if the list is in ascending order.
    pub fn from_ordered(keys: Vec<Key>) -> (r: Option<KeySet>)
        ensures
            match r {
                Some(s) => ascending(keys@) && s.ordered() == keys@ && s@ == keys@.to_set(),
                None => !ascending(keys@),
            },
    {
        if keys.len() == 0 {
            return Some(KeySet { keys });
        }
        let mut i: usize = 1;
        while i < keys.len()
            invariant
                1 <= i <= keys@.len(),
                ascending(keys@.take(i as int)),
            decreases keys@.len() - i,
        {
            if !keys[i - 1].less_than(&keys[i]) {
                return None;
            }
            proof {
                let done = keys@.take(i as int);
                let next = keys@.take(i + 1);
                assert forall|a: int, b: int| 0 <= a < b < next.len() implies (
                #[trigger] next[a]).precedes(#[trigger] next[b]) by {
                    if b < i {
                        assert(done[a].precedes(done[b]));
                    } else if a < i - 1 {
                        assert(done[a].precedes(done[i - 1]));
                        lemma_key_order_total(keys@[a], keys@[i - 1], keys@[i as int]);
                    }
                }
            }
            i += 1;
        }
        assert(keys@.take(i as int) =~= keys@);
        Some(KeySet { keys })
    }

    /// The number of keys in the set.
    pub fn len(&self) -> (n: usize)
        ensures
            n == self.ordered().len(),
            ascending(self.ordered()),
            self.ordered().to_set() == self@,
            self.ordered() == ascending_keys(self@),
            self@.finite(),
            self@.len() == n,
    {
        proof {
            use_type_invariant(self);
            lemma_ascending_keys(self.keys@);
            lemma_ascending_no_duplicates(self.keys@);
            self.keys@.unique_seq_to_set();
            vstd::seq_lib::seq_to_set_is_finite(self.keys@);
        }
        self.keys.len()
    }

    /// The key at place `i` of the ascending order.
    pub fn key_at(&self, i: usize) -> (k: Key)
        requires
            i < self.ordered().len(),
        ensures
            k == self.ordered()[i as int],
            self@.contains(k),
    {
        assert(self.keys@.contains(self.keys@[i as int]));
        self.keys[i]
    }

    /// The place at which `k` is or would be in the ascending order.
    fn position(&self, k: &Key) -> (at: usize)
        ensures
            at <= self.keys@.len(),
            forall|j: int| 0 <= j < at ==> (#[trigger] self.keys@[j]).precedes(*k),
            at < self.keys@.len() ==> !self.keys@[at as int].precedes(*k),
    {
        let mut i: usize = 0;
        while i < self.keys.len()
            invariant
                i <= self.keys@.len(),
                forall|j: int| 0 <= j < i ==> (#[trigger] self.keys@[j]).precedes(*k),
            decreases self.keys@.len() - i,
        {
            if !self.keys[i].less_than(k) {
                return i;
            }
            i += 1;
        }
        i
    }

    /// Tells whether the key is in the set.
    pub fn contains(&self, k: &Key) -> (found: bool)
        ensures
            found == self@.contains(*k),
    {
        proof {
            use_type_invariant(self);
        }
        let at = self.position(k);
        if at < self.keys.len() && self.keys[at].equals(k) {
            assert(self.keys@.contains(self.keys@[at as int]));
            true
        } else {
            proof {
                if self.keys@.contains(*k) {
                    let j = choose|j: int| 0 <= j < self.keys@.len() && self.keys@[j] == *k;
                    lemma_key_order_total(*k, self.keys@[at as int], *k);
                    if j < at {
                        assert(self.keys@[j].precedes(*k));
                    } else if j > at {
                        assert(self.keys@[at as int].precedes(self.keys@[j]));
                    }
                }
            }
            false
        }
    }

    /// Puts the key into the set, if it is not in it yet.
    pub fn insert(&mut self, k: Key)
        ensures
            final(self)@ == old(self)@.insert(k),
    {
        proof {
            use_type_invariant(&*self);
        }
        let at = self.position(&k);
        let ghost before = self.keys@;
        if at < self.keys.len() && self.keys[at].equals(&k) {
            assert(before.contains(before[at as int]));
            assert(before.to_set().insert(k) =~= before.to_set());
        } else {
            let mut keys: Vec<Key> = Vec::new();
            core::mem::swap(&mut self.keys, &mut keys);
            keys.insert(at, k);
            proof {
                let after = keys@;
                assert forall|i: int, j: int| 0 <= i < j < after.len() implies (
                #[trigger] after[i]).precedes(#[trigger] after[j]) by {
                    let a = after[i];
                    let b = after[j];
                    if j < at {
                        assert(before[i].precedes(before[j]));
                    } else if j == at {
                        assert(before[i].precedes(k));
                    } else if i == at {
                        lemma_key_order_total(k, before[at as int], before[j - 1]);
                        if j - 1 > at {
                            assert(before[at as int].precedes(before[j - 1]));
                        }
                    } else if i < at {
                        assert(before[i].precedes(before[j - 1]));
                    } else {
                        assert(before[i - 1].precedes(before[j - 1]));
                    }
                }
                assert forall|x: Key| after.to_set().contains(x) <==> before.to_set().insert(
                    k,
                ).contains(x) by {
                    if after.contains(x) {
                        let j = choose|j: int| 0 <= j < after.len() && after[j] == x;
                        if j < at {
                            assert(before[j] == x);
                        } else if j > at {
                            assert(before[j - 1] == x);
                        }
                    }
                    if before.contains(x) {
                        let j = choose|j: int| 0 <= j < before.len() && before[j] == x;
                        if j < at {
                            assert(after[j] == x);
                        } else {
                            assert(after[j + 1] == x);
                        }
                    }
                    if x == k {
                        assert(after[at as int] == x);
                    }
                }
                assert(after.to_set() =~= before.to_set().insert(k));
            }
            self.keys = keys;
        }
    }

    /// Puts every key of the list into the set.
    pub fn insert_all(&mut self, keys: &[Key])
        ensures
            final(self)@ == old(self)@.union(keys@.to_set()),
    {
        let mut i: usize = 0;
        while i < keys.len()
            invariant
                i <= keys@.len(),
                self@ == old(self)@.union(keys@.take(i as int).to_set()),
            decreases keys@.len() - i,
        {
            let ghost done = keys@.take(i as int);
            self.insert(keys[i]);
            proof {
                let next = keys@.take(i + 1);
                assert forall|x: Key| next.to_set().contains(x) <==> done.to_set().insert(
                    keys@[i as int],
                ).contains(x) by {
                    if next.contains(x) {
                        let j = choose|j: int| 0 <= j < next.len() && next[j] == x;
                        if j < done.len() {
                            assert(done[j] == x);
                        }
                    }
                    if done.contains(x) {
                        let j = choose|j: int| 0 <= j < done.len() && done[j] == x;
                        assert(next[j] == x);
                    }
                    if x == keys@[i as int] {
                        assert(next[i as int] == x);
                    }
                }
                assert(self@ =~= old(self)@.union(next.to_set()));
            }
            i += 1;
        }
        assert(keys@.take(i as int) =~= keys@);
    }

    /// The set of the keys of a list, in whatever order they come and however often.
    pub fn from_keys(keys: &[Key]) -> (s: KeySet)
        ensures
            s@ == keys@.to_set(),
    {
        let mut s = KeySet::new();
        s.insert_all(keys);
        assert(s@ =~= keys@.to_set());
        s
    }

    /// The keys of the set as a list in ascending order.
    pub fn to_vec(&self) -> (keys: Vec<Key>)
        ensures
            keys@ == self.ordered(),
            ascending(keys@),
            keys@.to_set() == self@,
    {
        proof {
            use_type_invariant(self);
        }
        let mut keys: Vec<Key> = Vec::new();
        let mut i: usize = 0;
        while i < self.keys.len()
            invariant
                i <= self.keys@.len(),
                keys@ == self.keys@.take(i as int),
            decreases self.keys@.len() - i,
        {
            keys.push(self.keys[i]);
            assert(keys@ =~= self.keys@.take(i + 1));
            i += 1;
        }
        assert(keys@ =~= self.keys@);
        keys
    }

    /// The set of the keys that are in this set or in the other.
    pub fn union(&self, other: &KeySet) -> (both: KeySet)
        ensures
            both@ == self@.union(other@),
    {
        let mut both = self.clone();
        both.insert_all(other.keys.as_slice());
        both
    }

    /// Tells whether the two sets hold the same keys.
    pub fn equals(&self, other: &KeySet) -> (same: bool)
        ensures
            same == (self@ == other@),
    {
        proof {
            use_type_invariant(self);
            use_type_invariant(other);
            if self@ == other@ {
                lemma_ascending_unique(self.keys@, other.keys@);
            }
        }
        if self.keys.len() != other.keys.len() {
            return false;
        }
        let mut i: usize = 0;
        while i < self.keys.len()
            invariant
                i <= self.keys@.len(),
                self.keys@.len() == other.keys@.len(),
                self@ == other@ ==> self.keys@ == other.keys@,
                forall|j: int| 0 <= j < i ==> self.keys@[j] == other.keys@[j],
            decreases self.keys@.len() - i,
        {
            if !self.keys[i].equals(&other.keys[i]) {
                return false;
            }
            i += 1;
        }
        assert(self.keys@ =~= other.keys@);
        true
    }
}

/// No key occurs twice in an ascending list.
pub proof fn lemma_ascending_no_duplicates(q: Seq<Key>)
    requires
        ascending(q),
    ensures
        q.no_duplicates(),
{
    assert forall|i: int, j: int| 0 <= i < q.len() && 0 <= j < q.len() && i != j implies q[i]
        != q[j] by {
        lemma_key_order_total(q[i], q[j], q[i]);
        if i < j {
            assert(q[i].precedes(q[j]));
        } else {
            assert(q[j].precedes(q[i]));
        }
    }
}

} // verus!
