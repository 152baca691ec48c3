//! The error taxonomy of the store.
//!
//! Per-record corruption (`CorruptData`, `CheckSumMisMatch`) is always scoped
//! to a single record and never aborts a bulk scan; per-partition failures
//! never abort operations on other partitions; construction-time
//! misconfiguration (`Config`, `BloomFilter`) fails immediately.

use vstd::prelude::*;

verus! {

/// All failures the store can report to a caller.
#[derive(Debug, Clone)]
pub enum PlexError {
    /// The key was not found in the store.
    KeyNotFound,
    /// The key provided was empty.
    KeyIsEmpty,
    /// An I/O-level failure: a missing segment file or a read past the end
    /// of one.
    IO(String),
    /// A record body that passed its checksum still failed to decode.
    Deserialize(String),
    /// Corrupt data (a checksum mismatch) at a specific file offset.
    CorruptData(u64),
    /// Lock acquisition failed: an internal invariant violation.
    LockError,
    /// Invalid construction parameters.
    Config(String),
    /// The compaction of a partition failed.
    CompactionFailed(String),
    /// A write-ahead-log failure.
    WAL(String),
    /// Recovery from existing files failed.
    Recovery(String),
    /// An operation-scoped failure in one partition.
    Partition { id: u32, message: String },
    /// A bloom filter failure.
    BloomFilter(String),
    /// A checksum mismatch that must carry both values for diagnostics.
    CheckSumMisMatch { expected: u32, actual: u32 },
    /// A compression or decompression failure in the cache tier; the cache
    /// treats it as a miss, never a hard error.
    Compression(String),
    /// A file whose header failed the magic or version check.
    InvalidFormat,
    /// An operation took too long.
    TimeOut { operation: String, timeout_ms: u64 },
}

pub type PlexResult<T> = Result<T, PlexError>;

} // verus!
