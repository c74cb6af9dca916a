//! A three-tier read-through/write-through cache: a membership filter gates
//! lookups, a weighted in-memory hot cache serves recent data, and a durable
//! sharded record store is the source of truth.

use vstd::prelude::*;

pub mod codec;
pub mod default_cacher;
pub mod filter;
pub mod hot_cache;
pub mod kv;
pub mod store;

verus! {

/// Errors surfaced by the durable record store and the cache orchestrator.
#[derive(Clone, Copy, Debug, PartialEq, Eq, Structural)]
pub enum CacheError {
    /// A value handed to `write` does not have the configured record size.
    InvalidRecordSize,
    /// A committed record's byte length does not match the configured record
    /// size: the store is corrupt at that key.
    CorruptRecord,
    /// `commit_write` was asked to publish a key with no pending temporary
    /// record.
    MissingTemporary,
}

} // verus!
