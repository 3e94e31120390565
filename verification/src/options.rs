//! Tuning knobs.

use vstd::prelude::*;

use crate::fs::SyncMode;
use crate::memtable::DEFAULT_THRESHOLD;

verus! {

/// Who runs the flushes and compactions that fall due.
#[derive(Debug, Clone, Copy, PartialEq, Eq, Structural)]
pub enum Maintenance {
    /// Threads of the handle that was opened.
    Background,
    /// The caller, by [`maintain`](crate::db::Db::maintain).
    Manual,
}

/// Tuning knobs for opening a database.
#[derive(Debug, Clone, Copy)]
pub struct Options {
    /// MemTable size in bytes at which a flush falls due.
    pub memtable_threshold: usize,
    /// How durable a write is made before it is acknowledged.
    pub sync_wal: SyncMode,
    /// How many adjacent tables of similar size make a compaction of that run
    /// fall due.
    pub compaction_threshold: usize,
    /// Whether reads of a table ask its Bloom filter first.
    pub bloom_enabled: bool,
    /// Who runs what falls due.
    pub maintenance: Maintenance,
}

impl Options {
    /// The options that are used where none are given.
    pub open spec fn default_view() -> Options {
        Options {
            memtable_threshold: DEFAULT_THRESHOLD,
            sync_wal: SyncMode::Durable,
            compaction_threshold: 4,
            bloom_enabled: true,
            maintenance: Maintenance::Background,
        }
    }
}

impl Default for Options {
    fn default() -> (r: Options)
        ensures
            r == Options::default_view(),
    {
        Options {
            memtable_threshold: DEFAULT_THRESHOLD,
            sync_wal: SyncMode::Durable,
            compaction_threshold: 4,
            bloom_enabled: true,
            maintenance: Maintenance::Background,
        }
    }
}

/// Where nothing else is asked for, the MemTable takes 4 MiB, a write is durable before
/// it is acknowledged, four tables of similar size make a run, and filters are asked.
pub proof fn usual_options()
    ensures
        Options::default_view().memtable_threshold == 4 * 1024 * 1024,
        Options::default_view().sync_wal == SyncMode::Durable,
        Options::default_view().compaction_threshold == 4,
        Options::default_view().bloom_enabled,
        Options::default_view().maintenance == Maintenance::Background,
{
}

} // verus!
