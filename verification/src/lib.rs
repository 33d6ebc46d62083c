//! Persistent global state for a contract-execution engine.
//!
//! The crate stores the key-value world state, merges the effects that contract
//! execution produces into it, and offers each execution an isolated overlay:
//!
//! * [`key`], [`key_set`], [`value`], [`transform`] and [`error`] are the vocabulary
//!   of the store;
//! * [`bytesrepr`] is the canonical byte encoding of values, the format kept on disk;
//! * [`gs`] holds the global state engines and the tracking copy that sits on top of
//!   them;
//! * [`key_map`] is the small map that the in-memory parts are built on.
pub mod bytesrepr;
pub mod error;
pub mod gs;
pub mod key;
pub mod key_map;
pub mod key_set;
pub mod transform;
pub mod value;
