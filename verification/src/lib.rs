//! `lsm_kv`: a log-structured merge-tree key/value storage engine.
//!
//! Writes are appended to a [write-ahead log](wal) for durability, kept in
//! memory in a [`MemTable`](memtable::MemTable), and flushed to immutable,
//! sorted [tables](sstable) from time to time. Reads ask the MemTable first, and
//! then the tables from the newest to the oldest.
//!
//! The engine reaches the disk only through [`Fs`] and [`File`], which whoever
//! uses it implements. [`state`] holds the model of a database that the
//! contracts of [`Db`] speak of, and with [`layers`] and [`runs`] the laws of the
//! engine.

pub mod batch;
pub mod bloom;
pub mod bytes;
pub mod compaction;
pub mod db;
pub mod directory;
pub mod disk;
pub mod error;
pub mod frame;
pub mod fs;
pub mod fuzzing;
pub mod hash;
pub mod header;
pub mod ids;
pub mod layers;
pub mod lz4;
pub mod manifest;
pub mod memtable;
pub mod names;
pub mod options;
pub mod rebuild;
pub mod record;
pub mod runs;
pub mod scan;
pub mod snapshots;
pub mod sstable;
pub mod state;
pub mod text;
pub mod tiers;
pub mod versions;
pub mod wal;

pub use batch::WriteBatch;
pub use db::Db;
pub use error::{Error, IoError, IoErrorKind, Result};
pub use fs::{File, Fs, OpenMode, SyncMode};
pub use options::{Maintenance, Options};
pub use snapshots::Snapshot;
