use crate::key::Key;
use crate::key_set::KeySet;
use vstd::prelude::*;

verus! {

/// A value that a storage slot can hold.
#[derive(Debug, PartialEq, Eq)]
pub enum Value {
    /// A signed 32-bit number.
    Int32(i32),
    /// An unsigned 64-bit number, such as a balance.
    UInt64(u64),
    /// Uninterpreted bytes, such as the code of a contract.
    ByteArray(Vec<u8>),
    /// A piece of text.
    String(String),
    /// A set of keys, such as the keys that an account or a contract knows.
    KeySet(KeySet),
}

/// What a [`Value`] stands for: the same alternatives over mathematical sequences.
pub enum ValueView {
    Int32(i32),
    UInt64(u64),
    ByteArray(Seq<u8>),
    String(Seq<char>),
    KeySet(Set<Key>),
}

impl View for Value {
    type V = ValueView;

    open spec fn view(&self) -> ValueView {
        match *self {
            Value::Int32(i) => ValueView::Int32(i),
            Value::UInt64(u) => ValueView::UInt64(u),
            Value::ByteArray(b) => ValueView::ByteArray(b@),
            Value::String(s) => ValueView::String(s@),
            Value::KeySet(s) => ValueView::KeySet(s@),
        }
    }
}

impl Clone for Value {
    fn clone(&self) -> (copy: Self)
        ensures
            copy@ == self@,
    {
        match self {
            Value::Int32(i) => Value::Int32(*i),
            Value::UInt64(u) => Value::UInt64(*u),
            Value::ByteArray(b) => {
                let c = b.clone();
                assert(c@ =~= b@);
                Value::ByteArray(c)
            },
            Value::String(s) => Value::String(s.clone()),
            Value::KeySet(s) => Value::KeySet(s.clone()),
        }
    }
}

impl Value {
    /// Tells whether two values stand for the same thing.
    pub fn equals(&self, other: &Value) -> (same: bool)
        ensures
            same == (self@ == other@),
    {
        match (self, other) {
            (Value::Int32(a), Value::Int32(b)) => *a == *b,
            (Value::UInt64(a), Value::UInt64(b)) => *a == *b,
            (Value::ByteArray(a), Value::ByteArray(b)) => {
                if a.len() != b.len() {
                    return false;
                }
                let mut i: usize = 0;
                while i < a.len()
                    invariant
                        i <= a.len(),
                        a.len() == b.len(),
                        self@ == ValueView::ByteArray(a@),
                        other@ == ValueView::ByteArray(b@),
                        forall|j: int| 0 <= j < i ==> a@[j] == b@[j],
                    decreases a.len() - i,
                {
                    if a[i] != b[i] {
                        return false;
                    }
                    i += 1;
                }
                assert(a@ =~= b@);
                true
            },
            (Value::String(a), Value::String(b)) => *a == *b,
            (Value::KeySet(a), Value::KeySet(b)) => a.equals(b),
            _ => false,
        }
    }

    /// The name of the value's shape, for messages.
    pub fn shape_name(&self) -> (name: &'static str)
        ensures
            name@ == (match self@ {
                ValueView::Int32(_) => "Int32"@,
                ValueView::UInt64(_) => "UInt64"@,
                ValueView::ByteArray(_) => "ByteArray"@,
                ValueView::String(_) => "String"@,
                ValueView::KeySet(_) => "KeySet"@,
            }),
    {
        match self {
            Value::Int32(_) => "Int32",
            Value::UInt64(_) => "UInt64",
            Value::ByteArray(_) => "ByteArray",
            Value::String(_) => "String",
            Value::KeySet(_) => "KeySet",
        }
    }
}

/// The view of the outcome of a read: the value's view, or the error as it is.
pub open spec fn outcome_view(r: Result<Value, crate::error::Error>) -> Result<
    ValueView,
    crate::error::Error,
> {
    match r {
        Ok(v) => Ok(v@),
        Err(e) => Err(e),
    }
}

} // verus!
