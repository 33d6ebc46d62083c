//! Transforms: how an effect of execution turns the current value of a key into
//! the next one.
//!
//! There are two kinds. `Write` replaces whatever is there, and needs nothing to be
//! there. The accumulations build on a value that must already be there, and must
//! have their own shape: `AddInt32` and `AddUInt64` add to a number and wrap around
//! on overflow, `AddKeys` adds keys to a set of keys. Any number of accumulations
//! can be merged in any order with the same outcome.
use crate::error::Error;
use crate::key::Key;
use crate::key_set::KeySet;
use crate::value::{outcome_view, Value, ValueView};
use vstd::arithmetic::div_mod::lemma_add_mod_noop_right;
use vstd::prelude::*;

verus! {

/// One effect on one key.
#[derive(Debug, PartialEq, Eq)]
pub enum Transform {
    /// Put this value in place of the current one, if any.
    Write(Value),
    /// Add to the current value, which must be an `Int32`.
    AddInt32(i32),
    /// Add to the current value, which must be a `UInt64`.
    AddUInt64(u64),
    /// Add these keys to the current value, which must be a `KeySet`.
    AddKeys(KeySet),
}

/// What a [`Transform`] stands for.
pub enum TransformView {
    Write(ValueView),
    AddInt32(i32),
    AddUInt64(u64),
    AddKeys(Set<Key>),
}

impl View for Transform {
    type V = TransformView;

    open spec fn view(&self) -> TransformView {
        match *self {
            Transform::Write(v) => TransformView::Write(v@),
            Transform::AddInt32(i) => TransformView::AddInt32(i),
            Transform::AddUInt64(u) => TransformView::AddUInt64(u),
            Transform::AddKeys(s) => TransformView::AddKeys(s@),
        }
    }
}

impl Clone for Transform {
    fn clone(&self) -> (copy: Self)
        ensures
            copy@ == self@,
    {
        match self {
            Transform::Write(v) => Transform::Write(v.clone()),
            Transform::AddInt32(i) => Transform::AddInt32(*i),
            Transform::AddUInt64(u) => Transform::AddUInt64(*u),
            Transform::AddKeys(s) => Transform::AddKeys(s.clone()),
        }
    }
}

/// The 64-bit unsigned number that `x` wraps around to.
pub open spec fn wrap_u64(x: int) -> u64 {
    (x % 0x1_0000_0000_0000_0000) as u64
}

/// The 32-bit signed number that `x` wraps around to.
pub open spec fn wrap_i32(x: int) -> i32 {
    ((x + 0x8000_0000) % 0x1_0000_0000 - 0x8000_0000) as i32
}

impl TransformView {
    /// An accumulation builds on the current value; a `Write` does not.
    pub open spec fn is_accumulation(self) -> bool {
        !(self is Write)
    }

    /// The shape of current value that the transform can be merged with.
    pub open spec fn fits(self, current: ValueView) -> bool {
        match self {
            TransformView::Write(_) => true,
            TransformView::AddInt32(_) => current is Int32,
            TransformView::AddUInt64(_) => current is UInt64,
            TransformView::AddKeys(_) => current is KeySet,
        }
    }

    /// The value that results from merging the transform with the current value, or
    /// a merge-type error if the current value has not the shape the transform needs.
    pub open spec fn merge(self, current: ValueView) -> Result<ValueView, Error> {
        match self {
            TransformView::Write(v) => Ok(v),
            TransformView::AddInt32(i) => match current {
                ValueView::Int32(j) => Ok(ValueView::Int32(wrap_i32(j + i))),
                _ => Err(Error::MergeTypeError),
            },
            TransformView::AddUInt64(u) => match current {
                ValueView::UInt64(w) => Ok(ValueView::UInt64(wrap_u64(w + u))),
                _ => Err(Error::MergeTypeError),
            },
            TransformView::AddKeys(more) => match current {
                ValueView::KeySet(keys) => Ok(ValueView::KeySet(keys.union(more))),
                _ => Err(Error::MergeTypeError),
            },
        }
    }

    /// The value a slot holds after the transform was tried on it: the merged value,
    /// or the value as it was if the merge failed.
    pub open spec fn settle(self, current: ValueView) -> ValueView {
        match self.merge(current) {
            Ok(v) => v,
            Err(_) => current,
        }
    }
}

/// The value a slot holds after the transforms `ts` were tried on it one after the
/// other, starting from `current`.
pub open spec fn settle_all(current: ValueView, ts: Seq<TransformView>) -> ValueView
    decreases ts.len(),
{
    if ts.len() == 0 {
        current
    } else {
        ts.last().settle(settle_all(current, ts.drop_last()))
    }
}

/// Every transform in `ts` is an accumulation.
pub open spec fn all_accumulations(ts: Seq<TransformView>) -> bool {
    forall|i: int| 0 <= i < ts.len() ==> (#[trigger] ts[i]).is_accumulation()
}

impl Transform {
    /// Tells whether the transform builds on the current value.
    pub fn is_accumulation(&self) -> (acc: bool)
        ensures
            acc == self@.is_accumulation(),
    {
        match self {
            Transform::Write(_) => false,
            _ => true,
        }
    }

    /// Merges the transform with the current value of a key.
    ///
    /// A `Write` gives its own value. An accumulation gives the sum, wrapped around,
    /// or the union of the sets of keys, if the current value has its shape, and a
    /// merge-type error otherwise.
    pub fn merge(self, current: Value) -> (r: Result<Value, Error>)
        ensures
            outcome_view(r) == self@.merge(current@),
    {
        match self {
            Transform::Write(v) => Ok(v),
            Transform::AddInt32(i) => match current {
                Value::Int32(j) => Ok(Value::Int32(j.wrapping_add(i))),
                _ => Err(Error::MergeTypeError),
            },
            Transform::AddUInt64(u) => match current {
                Value::UInt64(w) => Ok(Value::UInt64(w.wrapping_add(u))),
                _ => Err(Error::MergeTypeError),
            },
            Transform::AddKeys(more) => match current {
                Value::KeySet(keys) => Ok(Value::KeySet(keys.union(&more))),
                _ => Err(Error::MergeTypeError),
            },
        }
    }
}

/// A transform that does not fit the current value fails with a merge-type error,
/// and one that fits succeeds.
pub proof fn lemma_merge_fits(t: TransformView, current: ValueView)
    ensures
        t.fits(current) <==> t.merge(current) is Ok,
        !t.fits(current) <==> t.merge(current) == Err::<ValueView, Error>(Error::MergeTypeError),
        !t.fits(current) ==> t.settle(current) == current,
{
}

/// Wrapping an unsigned sum once is the same as wrapping after each addend.
proof fn lemma_wrap_u64_add(x: int, y: int)
    ensures
        wrap_u64(wrap_u64(x) + y) == wrap_u64(x + y),
{
    let m = 0x1_0000_0000_0000_0000int;
    lemma_add_mod_noop_right(y, x, m);
    assert((y + x % m) % m == (y + x) % m);
    assert(wrap_u64(x) == x % m);
}

/// Wrapping a signed sum once is the same as wrapping after each addend.
proof fn lemma_wrap_i32_add(x: int, y: int)
    ensures
        wrap_i32(wrap_i32(x) + y) == wrap_i32(x + y),
{
    let m = 0x1_0000_0000int;
    let h = 0x8000_0000int;
    lemma_add_mod_noop_right(y, x + h, m);
    assert((y + (x + h) % m) % m == (y + (x + h)) % m);
    assert(wrap_i32(x) == (x + h) % m - h);
}

/// Two accumulations can be merged in either order.
pub proof fn lemma_accumulations_commute(current: ValueView, a: TransformView, b: TransformView)
    requires
        a.is_accumulation(),
        b.is_accumulation(),
    ensures
        b.settle(a.settle(current)) == a.settle(b.settle(current)),
{
    match (current, a, b) {
        (ValueView::Int32(j), TransformView::AddInt32(x), TransformView::AddInt32(y)) => {
            lemma_wrap_i32_add(j + x, y as int);
            lemma_wrap_i32_add(j + y, x as int);
            assert(j + x + y == j + y + x);
        },
        (ValueView::UInt64(w), TransformView::AddUInt64(x), TransformView::AddUInt64(y)) => {
            lemma_wrap_u64_add(w + x, y as int);
            lemma_wrap_u64_add(w + y, x as int);
            assert(w + x + y == w + y + x);
        },
        (ValueView::KeySet(s), TransformView::AddKeys(x), TransformView::AddKeys(y)) => {
            assert(s.union(x).union(y) =~= s.union(y).union(x));
        },
        _ => {},
    }
}

/// Moving one accumulation of a sequence to its end does not change the outcome.
proof fn lemma_settle_all_move_last(current: ValueView, ts: Seq<TransformView>, j: int)
    requires
        all_accumulations(ts),
        0 <= j < ts.len(),
    ensures
        settle_all(current, ts) == ts[j].settle(settle_all(current, ts.remove(j))),
    decreases ts.len(),
{
    if j == ts.len() - 1 {
        assert(ts.remove(j) =~= ts.drop_last());
    } else {
        let front = ts.drop_last();
        let last = ts.last();
        lemma_settle_all_move_last(current, front, j);
        let rest = front.remove(j);
        assert(ts.remove(j).drop_last() =~= rest);
        assert(ts.remove(j).last() == last);
        assert(front[j] == ts[j]);
        lemma_accumulations_commute(settle_all(current, rest), ts[j], last);
    }
}

/// **Order does not matter.** Accumulations merged into a value give the same
/// outcome in whatever order they come: two sequences that hold the same
/// accumulations, each as often as the other, settle to the same value.
pub proof fn lemma_merge_order_irrelevant(
    current: ValueView,
    ts: Seq<TransformView>,
    us: Seq<TransformView>,
)
    requires
        all_accumulations(ts),
        ts.to_multiset() == us.to_multiset(),
    ensures
        settle_all(current, ts) == settle_all(current, us),
    decreases ts.len(),
{
    ts.to_multiset_ensures();
    us.to_multiset_ensures();
    if ts.len() == 0 {
        assert(us.len() == 0);
    } else {
        let x = ts.last();
        assert(ts.contains(x));
        assert(us.to_multiset().count(x) > 0);
        assert(us.contains(x));
        let j = choose|j: int| 0 <= j < us.len() && us[j] == x;
        assert forall|i: int| 0 <= i < us.len() implies (#[trigger] us[i]).is_accumulation() by {
            assert(us.contains(us[i]));
            assert(ts.to_multiset().count(us[i]) > 0);
            assert(ts.contains(us[i]));
        }
        assert(ts.drop_last() =~= ts.remove(ts.len() - 1));
        assert(ts.drop_last().to_multiset() == us.remove(j).to_multiset());
        lemma_merge_order_irrelevant(current, ts.drop_last(), us.remove(j));
        lemma_settle_all_move_last(current, us, j);
    }
}

} // verus!
