//! An embedded, partitioned, log-structured key-value storage engine:
//! durable append-only persistence with crash recovery, probabilistic
//! negative-lookup filtering, and a multi-tier in-memory cache.
//!
//! The library holds the verified core: the checksummed segment format and
//! its recovery scan, the write-ahead log, the bloom filters, the
//! hash-partitioned routing layer with compaction, and the cache tier.
//! File and directory handling lives outside, and hands the library the
//! bytes it read and receives the bytes to persist.

pub mod block_cache;
pub mod bloom;
pub mod cache;
pub mod clock;
pub mod codec;
pub mod compressed_cache;
pub mod command;
pub mod compression;
pub mod crc;
pub mod error;
pub mod file_manager;
pub mod lru_cache;
pub mod partition;
pub mod wal;

pub use command::Command;
pub use error::PlexError;
pub use error::PlexResult;
