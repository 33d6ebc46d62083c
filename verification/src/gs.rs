//! Global state: the authoritative map from keys to values, and the point where the
//! effects of execution are merged into it.
//!
//! The rules are stated once, over a plain map from keys to values ([`lookup`],
//! [`resolve`], [`state_after`], [`replay`], [`write_all`]), and every engine answers
//! to them: [`inmem::InMemGs`] keeps the state in memory and shows each rule of its
//! own operations; [`lmdb::LmdbGs`] keeps it in an LMDB environment on disk, where
//! what a read finds is not in the program's hands.
use crate::bytesrepr::{decode_outcome, deserialize};
use crate::gs::tracking_copy::TrackingCopy;
use crate::error::Error;
use crate::key::Key;
use crate::transform::{all_accumulations, settle_all, Transform, TransformView};
use crate::value::{outcome_view, Value, ValueView};
use vstd::prelude::*;

pub mod inmem;
pub mod lmdb;
pub mod tracking_copy;

verus! {

/// The read side of an engine.
pub trait DbReader {
    /// The state that reads observe, where the engine can state it: `Some(m)` if
    /// every read is answered from the map `m`, `None` if the answer rests on
    /// storage that is not in the program's hands.
    spec fn contents(&self) -> Option<Map<Key, ValueView>>;

    /// Reads the value of a key.
    ///
    /// Fails with `KeyNotFound`, naming the key, if the key has no entry; a failure
    /// to decode or to reach the store is a different error. Where the engine states
    /// its contents, the outcome is the [`lookup`] of the key in them.
    fn get(&self, k: &Key) -> (r: Result<Value, Error>)
        ensures
            self.contents() matches Some(m) ==> outcome_view(r) == lookup(m, *k),
            r matches Err(Error::KeyNotFound { key }) ==> key == *k,
            !(r matches Err(Error::MergeTypeError)),
    ;
}

/// An engine: the authoritative state, and the merge point for effects.
pub trait GlobalState: DbReader + Sized {
    /// Applies one effect: reads the key, resolves the transform against what was
    /// read ([`resolve`]), and writes the outcome.
    ///
    /// Where the engine states its contents, they are afterwards the
    /// [`state_after`] the effect and the report is its [`apply_outcome`], unless the
    /// store fails to write, which leaves the contents as they were. A key that is
    /// reported missing is the key of the effect, and only an accumulation is
    /// refused for a missing key or a shape that does not fit.
    fn apply(&mut self, k: Key, t: Transform) -> (r: Result<(), Error>)
        ensures
            old(self).contents() matches Some(m) ==> {
                ||| r == apply_outcome(m, k, t@) && final(self).contents() == Some(
                    state_after(m, k, t@),
                )
                ||| r == Err::<(), Error>(Error::BackingStoreError) && final(self).contents()
                    == Some(m)
            },
            old(self).contents() is None ==> final(self).contents() is None,
            r matches Err(Error::KeyNotFound { key }) ==> key == k && t@.is_accumulation(),
            r == Err::<(), Error>(Error::MergeTypeError) ==> t@.is_accumulation(),
    ;

    /// A new tracking copy over this engine, with nothing read and nothing pending.
    /// Making it does not touch the store.
    fn tracking_copy(&self) -> (r: Result<TrackingCopy<'_, Self>, Error>)
        ensures
            r matches Ok(copy) && copy.reader() == self && copy.log() == Seq::<
                (Key, TransformView),
            >::empty() && copy.cached() == Map::<Key, ValueView>::empty(),
    ;
}

/// What reading `k` from the state `m` gives.
pub open spec fn lookup(m: Map<Key, ValueView>, k: Key) -> Result<ValueView, Error> {
    if m.dom().contains(k) {
        Ok(m[k])
    } else {
        Err(Error::KeyNotFound { key: k })
    }
}

/// What becomes of the bytes found under `k`, if any were found: no entry is a
/// missing key, an entry is whatever its bytes decode to.
pub open spec fn found_outcome(k: Key, found: Option<Seq<u8>>) -> Result<ValueView, Error> {
    match found {
        None => Err(Error::KeyNotFound { key: k }),
        Some(bytes) => decode_outcome(bytes),
    }
}

/// The value that applying `t` to `k` settles on, given what reading `k` gave.
///
/// * A missing key takes a `Write` and refuses every accumulation.
/// * A present value is merged with the transform.
/// * Any other failure to read is passed on as it is.
pub open spec fn resolve(k: Key, current: Result<ValueView, Error>, t: TransformView) -> Result<
    ValueView,
    Error,
> {
    match current {
        Ok(v) => t.merge(v),
        Err(Error::KeyNotFound { .. }) => match t {
            TransformView::Write(v) => Ok(v),
            _ => Err(Error::KeyNotFound { key: k }),
        },
        Err(e) => Err(e),
    }
}

/// The state after `t` was applied to `k`: the resolved value in place if there is
/// one, the state as it was if not.
pub open spec fn state_after(m: Map<Key, ValueView>, k: Key, t: TransformView) -> Map<
    Key,
    ValueView,
> {
    match resolve(k, lookup(m, k), t) {
        Ok(v) => m.insert(k, v),
        Err(_) => m,
    }
}

/// What applying `t` to `k` reports.
pub open spec fn apply_outcome(m: Map<Key, ValueView>, k: Key, t: TransformView) -> Result<
    (),
    Error,
> {
    match resolve(k, lookup(m, k), t) {
        Ok(_) => Ok(()),
        Err(e) => Err(e),
    }
}

/// The state after the effects were applied one after the other, in order.
pub open spec fn replay(m: Map<Key, ValueView>, effects: Seq<(Key, TransformView)>) -> Map<
    Key,
    ValueView,
>
    decreases effects.len(),
{
    if effects.len() == 0 {
        m
    } else {
        state_after(replay(m, effects.drop_last()), effects.last().0, effects.last().1)
    }
}

/// The transforms `ts` as effects on the one key `k`.
pub open spec fn effects_on(k: Key, ts: Seq<TransformView>) -> Seq<(Key, TransformView)> {
    ts.map_values(|t: TransformView| (k, t))
}

/// The state after every pair of the batch was written, in order.
pub open spec fn write_all(m: Map<Key, ValueView>, batch: Seq<(Key, ValueView)>) -> Map<
    Key,
    ValueView,
>
    decreases batch.len(),
{
    if batch.len() == 0 {
        m
    } else {
        write_all(m, batch.drop_last()).insert(batch.last().0, batch.last().1)
    }
}

/// Turns what was found under `k` into the outcome of the read.
pub fn decode_found(k: &Key, found: Option<&[u8]>) -> (r: Result<Value, Error>)
    ensures
        outcome_view(r) == found_outcome(
            *k,
            match found {
                Some(bytes) => Some(bytes@),
                None => None,
            },
        ),
{
    match found {
        None => Err(Error::KeyNotFound { key: *k }),
        Some(bytes) => deserialize(bytes),
    }
}

/// Decides what applying `t` to `k` is to write, given what reading `k` gave: the
/// value to put under `k`, or the error to report without writing anything.
pub fn resolve_effect(k: Key, current: Result<Value, Error>, t: Transform) -> (r: Result<
    Value,
    Error,
>)
    ensures
        outcome_view(r) == resolve(k, outcome_view(current), t@),
{
    match current {
        Ok(v) => t.merge(v),
        Err(Error::KeyNotFound { .. }) => match t {
            Transform::Write(v) => Ok(v),
            _ => Err(Error::KeyNotFound { key: k }),
        },
        Err(e) => Err(e),
    }
}

/// **Write, then read.** Applying a `Write` succeeds whatever the state, and a read
/// of the key then gives the written value.
pub proof fn lemma_write_then_read(m: Map<Key, ValueView>, k: Key, v: ValueView)
    ensures
        apply_outcome(m, k, TransformView::Write(v)) == Ok::<(), Error>(()),
        lookup(state_after(m, k, TransformView::Write(v)), k) == Ok::<ValueView, Error>(v),
{
}

/// **A write stands for itself.** Against a value or a missing key a `Write`
/// resolves to the value it carries, with nothing of what was there: of two writes
/// to a key the later wins whole.
pub proof fn lemma_write_resolves(k: Key, cur: Result<ValueView, Error>, v: ValueView)
    requires
        cur is Ok || cur matches Err(Error::KeyNotFound { .. }),
    ensures
        resolve(k, cur, TransformView::Write(v)) == Ok::<ValueView, Error>(v),
        resolve(k, Ok(v), TransformView::Write(v)) == Ok::<ValueView, Error>(v),
{
}

/// Resolving a transform against a present value is settling the value: the value
/// resolved to is the settled one, and a refusal leaves the value as it was. So what
/// holds of settling a run of accumulations ([`settle_all`]) holds of applying them
/// one after the other, each to what the one before left.
pub proof fn lemma_resolve_settles(k: Key, v: ValueView, t: TransformView)
    ensures
        match resolve(k, Ok(v), t) {
            Ok(w) => w == t.settle(v),
            Err(_) => t.settle(v) == v,
        },
{
}

/// **Missing keys.** A key that was never written reads as not found, and an
/// accumulation against it fails as not found and changes nothing.
pub proof fn lemma_missing_key(m: Map<Key, ValueView>, k: Key, t: TransformView)
    requires
        !m.dom().contains(k),
    ensures
        lookup(m, k) == Err::<ValueView, Error>(Error::KeyNotFound { key: k }),
        t.is_accumulation() ==> apply_outcome(m, k, t) == Err::<(), Error>(
            Error::KeyNotFound { key: k },
        ),
        t.is_accumulation() ==> state_after(m, k, t) == m,
{
}

/// **Shape mismatch.** A transform that does not fit the stored value fails with a
/// merge-type error and leaves the stored value as it was.
pub proof fn lemma_type_mismatch(m: Map<Key, ValueView>, k: Key, t: TransformView)
    requires
        m.dom().contains(k),
        !t.fits(m[k]),
    ensures
        apply_outcome(m, k, t) == Err::<(), Error>(Error::MergeTypeError),
        state_after(m, k, t) == m,
{
}

/// A failed application leaves the state exactly as it was, and an application
/// never touches another key.
pub proof fn lemma_apply_is_local(m: Map<Key, ValueView>, k: Key, t: TransformView, other: Key)
    ensures
        apply_outcome(m, k, t) is Err ==> state_after(m, k, t) == m,
        other != k ==> lookup(state_after(m, k, t), other) == lookup(m, other),
{
}

/// Applying transforms to a key that is present leaves there what the transforms
/// settle on, and nothing else changes.
pub proof fn lemma_replay_on_key(m: Map<Key, ValueView>, k: Key, ts: Seq<TransformView>)
    requires
        m.dom().contains(k),
    ensures
        replay(m, effects_on(k, ts)) == m.insert(k, settle_all(m[k], ts)),
    decreases ts.len(),
{
    let effects = effects_on(k, ts);
    if ts.len() == 0 {
        assert(m.insert(k, m[k]) =~= m);
    } else {
        lemma_replay_on_key(m, k, ts.drop_last());
        assert(effects.drop_last() =~= effects_on(k, ts.drop_last()));
        let before = settle_all(m[k], ts.drop_last());
        let mid = m.insert(k, before);
        assert(effects.last() == (k, ts.last()));
        assert(mid.insert(k, ts.last().settle(before)) =~= m.insert(k, settle_all(m[k], ts)));
        assert(mid.insert(k, before) =~= mid);
    }
}

/// **Order of accumulations.** After a key was written, accumulations applied to it
/// leave the same state in whatever order they come.
pub proof fn lemma_apply_order_irrelevant(
    m: Map<Key, ValueView>,
    k: Key,
    seed: ValueView,
    ts: Seq<TransformView>,
    us: Seq<TransformView>,
)
    requires
        all_accumulations(ts),
        ts.to_multiset() == us.to_multiset(),
    ensures
        replay(state_after(m, k, TransformView::Write(seed)), effects_on(k, ts)) == replay(
            state_after(m, k, TransformView::Write(seed)),
            effects_on(k, us),
        ),
{
    let start = state_after(m, k, TransformView::Write(seed));
    lemma_replay_on_key(start, k, ts);
    lemma_replay_on_key(start, k, us);
    crate::transform::lemma_merge_order_irrelevant(seed, ts, us);
}

/// A batch is written whole: every key of the batch reads as the last value the
/// batch gives it, and every other key reads as before.
pub proof fn lemma_write_all_lookup(m: Map<Key, ValueView>, batch: Seq<(Key, ValueView)>, k: Key)
    ensures
        (forall|i: int| 0 <= i < batch.len() ==> (#[trigger] batch[i]).0 != k) ==> lookup(
            write_all(m, batch),
            k,
        ) == lookup(m, k),
        forall|i: int|
            0 <= i < batch.len() && (#[trigger] batch[i]).0 == k && (forall|j: int|
                i < j < batch.len() ==> (#[trigger] batch[j]).0 != k) ==> lookup(
                write_all(m, batch),
                k,
            ) == Ok::<ValueView, Error>(batch[i].1),
    decreases batch.len(),
{
    if batch.len() > 0 {
        let front = batch.drop_last();
        lemma_write_all_lookup(m, front, k);
        assert forall|i: int|
            0 <= i < batch.len() && (#[trigger] batch[i]).0 == k && (forall|j: int|
                i < j < batch.len() ==> (#[trigger] batch[j]).0 != k) implies lookup(
            write_all(m, batch),
            k,
        ) == Ok::<ValueView, Error>(batch[i].1) by {
            if i < front.len() {
                assert(batch[batch.len() - 1].0 != k);
                assert(front[i] == batch[i]);
                assert forall|j: int| i < j < front.len() implies (#[trigger] front[j]).0
                    != k by {
                    assert(front[j] == batch[j]);
                }
            }
        }
        if forall|i: int| 0 <= i < batch.len() ==> (#[trigger] batch[i]).0 != k {
            assert(batch[batch.len() - 1].0 != k);
            assert forall|i: int| 0 <= i < front.len() implies (#[trigger] front[i]).0 != k by {
                assert(front[i] == batch[i]);
            }
        }
    }
}

} // verus!
