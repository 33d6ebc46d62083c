//! Global state kept in memory, in a store with room for a fixed number of keys.
//!
//! Values are kept as their encoded bytes, as a durable store keeps them: a write
//! encodes, a read decodes. A batch is written whole or not at all.
use crate::bytesrepr::parse_value;
use crate::error::Error;
use crate::gs::tracking_copy::TrackingCopy;
use crate::gs::{decode_found, lookup, resolve, resolve_effect, write_all, DbReader, GlobalState};
use crate::key::Key;
use crate::key_map::KeyMap;
use crate::transform::Transform;
use crate::value::{outcome_view, Value, ValueView};
use vstd::prelude::*;

verus! {

/// Every blob of the store is the encoding of a value.
pub open spec fn all_decodable(raw: Map<Key, Vec<u8>>) -> bool {
    forall|k: Key| raw.dom().contains(k) ==> parse_value(#[trigger] raw[k]@) is Some
}

/// The values that the blobs of the store encode.
pub open spec fn decoded(raw: Map<Key, Vec<u8>>) -> Map<Key, ValueView> {
    Map::new(|k: Key| raw.dom().contains(k), |k: Key| parse_value(raw[k]@)->0)
}

/// A batch as the values it holds.
pub open spec fn batch_view(batch: Seq<(Key, &Value)>) -> Seq<(Key, ValueView)> {
    batch.map_values(|p: (Key, &Value)| (p.0, p.1@))
}

/// The keys of a state with a batch written into it are the keys of the state and
/// the keys of the batch.
pub proof fn lemma_write_all_dom(m: Map<Key, ValueView>, batch: Seq<(Key, ValueView)>, k: Key)
    ensures
        write_all(m, batch).dom().contains(k) <==> (m.dom().contains(k) || exists|i: int|
            0 <= i < batch.len() && (#[trigger] batch[i]).0 == k),
        m.dom().finite() ==> write_all(m, batch).dom().finite(),
    decreases batch.len(),
{
    if batch.len() > 0 {
        let front = batch.drop_last();
        lemma_write_all_dom(m, front, k);
        if exists|i: int| 0 <= i < front.len() && (#[trigger] front[i]).0 == k {
            let i = choose|i: int| 0 <= i < front.len() && (#[trigger] front[i]).0 == k;
            assert(batch[i].0 == k);
        }
        if exists|i: int| 0 <= i < batch.len() && (#[trigger] batch[i]).0 == k {
            let i = choose|i: int| 0 <= i < batch.len() && (#[trigger] batch[i]).0 == k;
            if i < front.len() {
                assert(front[i].0 == k);
            }
        }
        if batch.last().0 == k {
            assert(batch[batch.len() - 1].0 == k);
        }
    }
}

proof fn lemma_write_all_step(m: Map<Key, ValueView>, batch: Seq<(Key, ValueView)>, i: int)
    requires
        0 <= i < batch.len(),
    ensures
        write_all(m, batch.take(i + 1)) == write_all(m, batch.take(i)).insert(
            batch[i].0,
            batch[i].1,
        ),
{
    assert(batch.take(i + 1).drop_last() =~= batch.take(i));
}

/// Global state in memory.
pub struct InMemGs {
    slots: KeyMap<Vec<u8>>,
    capacity: usize,
}

impl View for InMemGs {
    type V = Map<Key, ValueView>;

    closed spec fn view(&self) -> Map<Key, ValueView> {
        decoded(self.slots@)
    }
}

impl InMemGs {
    #[verifier::type_invariant]
    spec fn inv(self) -> bool {
        &&& self.slots@.dom().finite()
        &&& self.slots@.dom().len() <= self.capacity
        &&& all_decodable(self.slots@)
    }

    /// The number of keys the store has room for.
    pub closed spec fn capacity(&self) -> nat {
        self.capacity as nat
    }

    /// An empty state with room for `capacity` keys.
    pub fn new(capacity: usize) -> (gs: Self)
        ensures
            gs@ == Map::<Key, ValueView>::empty(),
            gs.capacity() == capacity,
    {
        let slots: KeyMap<Vec<u8>> = KeyMap::new();
        assert(slots@.dom() =~= Set::<Key>::empty());
        let gs = InMemGs { slots, capacity };
        assert(gs@ =~= Map::<Key, ValueView>::empty());
        gs
    }

    /// The number of keys that have a value.
    pub fn len(&self) -> (n: usize)
        ensures
            n == self@.dom().len(),
            self@.dom().finite(),
            n <= self.capacity(),
    {
        proof {
            use_type_invariant(self);
            assert(self@.dom() =~= self.slots@.dom());
        }
        self.slots.len()
    }

    /// Reads the value of a key: looks up its bytes and decodes them.
    ///
    /// Gives the value last written under the key, and `KeyNotFound` with the key if
    /// none ever was.
    pub fn read(&self, k: &Key) -> (r: Result<Value, Error>)
        ensures
            outcome_view(r) == lookup(self@, *k),
    {
        proof {
            use_type_invariant(self);
        }
        match self.slots.get(k) {
            Some(bytes) => decode_found(k, Some(bytes.as_slice())),
            None => decode_found(k, None),
        }
    }

    /// Tells whether `k` is a key of the state, or one of the first `upto` keys of
    /// the batch.
    fn known(&self, batch: &[(Key, &Value)], upto: usize, k: &Key) -> (yes: bool)
        requires
            upto <= batch@.len(),
        ensures
            yes == write_all(self@, batch_view(batch@).take(upto as int)).dom().contains(*k),
    {
        let ghost front = batch_view(batch@).take(upto as int);
        proof {
            lemma_write_all_dom(self@, front, *k);
            assert(self@.dom() =~= self.slots@.dom());
        }
        if self.slots.contains_key(k) {
            return true;
        }
        let mut j: usize = 0;
        while j < upto
            invariant
                j <= upto <= batch@.len(),
                front == batch_view(batch@).take(upto as int),
                forall|i: int| 0 <= i < j ==> (#[trigger] front[i]).0 != *k,
            decreases upto - j,
        {
            if batch[j].0.equals(k) {
                proof {
                    assert(front[j as int].0 == *k);
                    lemma_write_all_dom(self@, front, *k);
                }
                return true;
            }
            j += 1;
        }
        false
    }

    /// Writes a batch of values, each under its key, as one unit.
    ///
    /// Either every pair is written, later pairs over earlier ones, or, if the state
    /// with the whole batch in it would hold more keys than the store has room for,
    /// nothing is written and the store reports a failure.
    pub fn write(&mut self, batch: &[(Key, &Value)]) -> (r: Result<(), Error>)
        ensures
            final(self).capacity() == old(self).capacity(),
            final(self)@.dom().finite(),
            ({
                let target = write_all(old(self)@, batch_view(batch@));
                if target.dom().len() <= old(self).capacity() {
                    r == Ok::<(), Error>(()) && final(self)@ == target
                } else {
                    r == Err::<(), Error>(Error::BackingStoreError) && final(self)@ == old(
                        self,
                    )@
                }
            }),
    {
        let ghost m = self@;
        let ghost items = batch_view(batch@);
        let held = self.len();
        let mut fresh: usize = 0;
        let mut i: usize = 0;
        while i < batch.len()
            invariant
                i <= batch@.len(),
                fresh <= i,
                m == self@,
                items == batch_view(batch@),
                m.dom().finite(),
                held == m.dom().len(),
                write_all(m, items.take(i as int)).dom().finite(),
                write_all(m, items.take(i as int)).dom().len() == held + fresh,
            decreases batch@.len() - i,
        {
            let k = batch[i].0;
            let known = self.known(batch, i, &k);
            proof {
                lemma_write_all_step(m, items, i as int);
            }
            if !known {
                fresh += 1;
            }
            i += 1;
        }
        assert(items.take(i as int) =~= items);
        if fresh > self.capacity - held {
            return Err(Error::BackingStoreError);
        }
        let mut slots: KeyMap<Vec<u8>> = KeyMap::new();
        proof {
            use_type_invariant(&*self);
        }
        core::mem::swap(&mut self.slots, &mut slots);
        let mut i: usize = 0;
        while i < batch.len()
            invariant
                i <= batch@.len(),
                items == batch_view(batch@),
                all_decodable(slots@),
                decoded(slots@) == write_all(m, items.take(i as int)),
            decreases batch@.len() - i,
        {
            let bytes = batch[i].1.to_bytes();
            let ghost before = slots@;
            slots.insert(batch[i].0, bytes);
            proof {
                lemma_write_all_step(m, items, i as int);
                assert(decoded(slots@) =~= decoded(before).insert(items[i as int].0, items[i as int].1));
            }
            i += 1;
        }
        proof {
            assert(items.take(i as int) =~= items);
            assert(decoded(slots@).dom() =~= slots@.dom());
        }
        self.slots = slots;
        Ok(())
    }

    /// Writes one value under its key.
    pub fn write_single(&mut self, k: Key, v: &Value) -> (r: Result<(), Error>)
        ensures
            final(self).capacity() == old(self).capacity(),
            final(self)@.dom().finite(),
            if old(self)@.insert(k, v@).dom().len() <= old(self).capacity() {
                r == Ok::<(), Error>(()) && final(self)@ == old(self)@.insert(k, v@)
            } else {
                r == Err::<(), Error>(Error::BackingStoreError) && final(self)@ == old(self)@
            },
    {
        let batch = [(k, v)];
        proof {
            let items = batch_view(batch@);
            assert(items.len() == 1);
            assert(items[0] == (k, v@));
            assert(items.drop_last() =~= Seq::<(Key, ValueView)>::empty());
            assert(write_all(self@, items) == write_all(self@, items.drop_last()).insert(k, v@));
        }
        self.write(batch.as_slice())
    }
}

impl DbReader for InMemGs {
    open spec fn contents(&self) -> Option<Map<Key, ValueView>> {
        Some(self@)
    }

    fn get(&self, k: &Key) -> (r: Result<Value, Error>)
        ensures
            outcome_view(r) == lookup(self@, *k),
    {
        self.read(k)
    }
}

impl GlobalState for InMemGs {
    /// Reports the error of the resolution, if it fails, or a store failure, if the
    /// store has no room for a new key; in both cases the state stays as it was.
    /// Otherwise the resolved value is in place.
    fn apply(&mut self, k: Key, t: Transform) -> (r: Result<(), Error>)
        ensures
            final(self).capacity() == old(self).capacity(),
            final(self)@.dom().finite(),
            match resolve(k, lookup(old(self)@, k), t@) {
                Err(e) => r == Err::<(), Error>(e) && final(self)@ == old(self)@,
                Ok(v) => if old(self)@.insert(k, v).dom().len() <= old(self).capacity() {
                    r == Ok::<(), Error>(()) && final(self)@ == old(self)@.insert(k, v)
                } else {
                    r == Err::<(), Error>(Error::BackingStoreError) && final(self)@ == old(
                        self,
                    )@
                },
            },
    {
        proof {
            use_type_invariant(&*self);
            assert(self@.dom() =~= self.slots@.dom());
        }
        let current = self.read(&k);
        match resolve_effect(k, current, t) {
            Ok(v) => self.write_single(k, &v),
            Err(e) => Err(e),
        }
    }

    fn tracking_copy(&self) -> (r: Result<TrackingCopy<'_, Self>, Error>) {
        Ok(TrackingCopy::new(self))
    }
}

} // verus!
