//! Durable local storage for collaborative documents.
//!
//! Every document is identified by an owner id and an object id and owns an
//! append-only log of opaque update payloads plus at most one consolidated
//! snapshot.  The crate provides an ordered, byte-keyed transactional store,
//! an order-preserving key encoding, an update-log engine with snapshot
//! compaction ("flush"), a persistence adapter that mirrors an in-memory
//! document to the store, and a document enumerator.

pub mod bytekey;
pub mod kv;
pub mod frames;
pub mod keyspace;
pub mod engine;
pub mod memdoc;
pub mod adapter;
pub mod notion;

use vstd::prelude::*;

verus! {

/// Errors surfaced by the persistence layer.
///
/// `StorageIOError` reports a failure of the underlying storage medium; it is
/// never produced by the in-memory store of this crate, but callers that put a
/// file or a device behind the store report such failures with it.
/// `DecodeError` reports a stored payload that cannot be parsed during replay
/// or hydration.  `StoreUnavailable` reports an access made after the shared
/// store handle has been released.
#[derive(Clone, Copy, Debug, PartialEq, Eq, Structural)]
pub enum PersistError {
    StorageIOError,
    DecodeError,
    StoreUnavailable,
}

} // verus!
