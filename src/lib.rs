//! A small log-structured key-value store: a write-ahead log, an in-memory
//! sorted table with tombstones, immutable sorted files, and crash recovery.
//! The byte formats and every decision of the engine are verified here; the
//! file handling lives outside the library.
pub mod bytes;
pub mod record;
pub mod memtable;
pub mod wal;
pub mod recovery;
pub mod sstable;
pub mod engine;
