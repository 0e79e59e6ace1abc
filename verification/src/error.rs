//! The error taxonomy: every fallible operation reports one of these
//! kinds.  The ranker and cache layers never raise; failures originate in
//! storage and the interner and propagate to the facade.

use vstd::prelude::*;

verus! {

use crate::storage_engine::StorageError;

/// Errors reported by the library.
#[derive(Debug)]
pub enum TigerCacheError {
    /// Encoding failure on write, or corrupt bytes on read.
    SerializationError(String),
    /// Malformed textual snapshot.
    JsonError(String),
    /// Filesystem or OS-level failure, reported by the caller's storage.
    IoError(String),
    /// A removal or lookup named an id that is not indexed.
    DocumentNotFound(String),
    /// Ingest-time schema violation.
    InvalidDocument(String),
    /// Reserved; the ranker never produces it today.
    InvalidQuery(String),
    /// Resource exhaustion inside the engine, such as a full id space.
    InternalError(String),
    /// A storage backend failure, normalised into the storage taxonomy.
    Storage(StorageError),
}

} // verus!
