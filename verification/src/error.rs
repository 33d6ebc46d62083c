use crate::key::Key;
use vstd::prelude::*;

verus! {

/// Everything that can go wrong in the storage layer.
///
/// No operation of this crate recovers from one of these silently: each is handed to
/// the caller, who decides whether it ends one execution or the whole process.
#[derive(Clone, Copy, Debug, PartialEq, Eq)]
pub enum Error {
    /// The key has no entry: a read of it, or an accumulation against it, has nothing
    /// to work on.
    KeyNotFound { key: Key },
    /// Bytes found in the store are not the encoding of a value.
    DecodeError,
    /// A transform asked for a current value of one shape and found another.
    MergeTypeError,
    /// The store underneath could not carry out the request.
    BackingStoreError,
}

impl Error {
    /// A short description of the error, for messages and logs.
    pub fn describe(&self) -> (text: &'static str)
        ensures
            text@ == (match *self {
                Error::KeyNotFound { .. } => "key not found"@,
                Error::DecodeError => "stored bytes are not a valid value"@,
                Error::MergeTypeError => "transform does not fit the current value"@,
                Error::BackingStoreError => "backing store failure"@,
            }),
    {
        match self {
            Error::KeyNotFound { .. } => "key not found",
            Error::DecodeError => "stored bytes are not a valid value",
            Error::MergeTypeError => "transform does not fit the current value",
            Error::BackingStoreError => "backing store failure",
        }
    }
}

} // verus!
