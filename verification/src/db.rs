//! The storage engine: the write-ahead log, the MemTable and the stack of
//! immutable tables behind `put`, `get` and `delete`.
//!
//! A [`Db`] runs on the caller's thread. What it is at any time is its
//! [`DbView`], and [`state`](crate::state) says what its operations keep.

use std::sync::Arc;
use vstd::prelude::*;

use crate::batch::{Write, WriteBatch, WriteView};
use crate::bytes;
use crate::directory;
use crate::directory::WAL_FILENAME;
use crate::disk;
use crate::disk::{Change, Disk, Holder, Own, Whole};
use crate::error::{Error, ErrorView, IoError, IoErrorKind, IoErrorView, Result};
use crate::frame;
use crate::fs;
use crate::fs::{File, Fs, OpenMode, SyncMode};
use crate::header::Checksum;
use crate::ids;
use crate::manifest;
use crate::manifest::{Manifest, ManifestState, StateView, VersionEdit};
use crate::memtable::MemTable;
use crate::names;
use crate::options::Options;
use crate::rebuild;
use crate::record;
use crate::record::{Record, RecordView};
use crate::snapshots;
use crate::snapshots::{Horizons, Snapshot};
use crate::sstable::reader;
use crate::sstable::SsTableReader;
use crate::state;
use crate::state::{DbView, FrozenView, StoredTable};
use crate::text;
use crate::wal;
use crate::wal::Wal;

pub mod checkpoint;
pub mod compact;
pub mod flush;
pub mod left;
pub mod range;
pub mod reopen;
pub mod steps;

verus! {

/// A table on disk. A higher id is a newer table.
struct SsTable<F: Fs> {
    id: u64,
    reader: SsTableReader<F>,
}

impl<F: Fs> SsTable<F> {
    spec fn stored(&self) -> StoredTable {
        StoredTable {
            id: self.id,
            file: self.reader.contents(),
            bloom: self.reader.uses_bloom(),
        }
    }
}

spec fn stored<F: Fs>(tables: Seq<Arc<SsTable<F>>>) -> Seq<StoredTable> {
    tables.map_values(|t: Arc<SsTable<F>>| t.stored())
}

spec fn all_readable<F: Fs>(tables: Seq<Arc<SsTable<F>>>) -> bool {
    forall|i: int| 0 <= i < tables.len() ==> (#[trigger] tables[i]).reader.wf()
}

/// Whether each table was opened at the path that its id gives it.
spec fn all_in_place<F: Fs>(tables: Seq<Arc<SsTable<F>>>, dir: Seq<char>) -> bool {
    forall|i: int|
        0 <= i < tables.len() ==> {
            let path = names::path_in(dir, names::sst_name((#[trigger] tables[i]).id));
            tables[i].reader.place() == path && tables[i].reader.path_text() == path
        }
}

/// Whether the files that a database in this directory depends on, with these
/// tables, were not removed, moved away or emptied: the tables, the log and
/// `CURRENT`.
pub open spec fn all_kept(changes: Seq<Change>, dir: Seq<char>, table_ids: Seq<u64>) -> bool {
    &&& forall|i: int|
        0 <= i < table_ids.len() ==> disk::kept(
            changes,
            names::path_in(dir, names::sst_name(#[trigger] table_ids[i])),
        )
    &&& disk::kept(changes, names::path_in(dir, WAL_FILENAME@))
    &&& disk::kept(changes, names::path_in(dir, names::CURRENT_FILENAME@))
}

/// The paths of the log and of `CURRENT` are not written to anew.
proof fn vital_paths(dir: Seq<char>)
    ensures
        !disk::is_scratch(names::path_in(dir, WAL_FILENAME@)),
        names::path_in(dir, WAL_FILENAME@).last() == 'g',
        !disk::is_scratch(names::path_in(dir, names::CURRENT_FILENAME@)),
        names::path_in(dir, names::CURRENT_FILENAME@).last() == 'T',
{
    reveal_strlit("wal.log");
    reveal_strlit("CURRENT");
    names::path_ends_in_name(dir, WAL_FILENAME@);
    names::path_ends_in_name(dir, names::CURRENT_FILENAME@);
}

/// What is harmless keeps the files that a database depends on.
proof fn all_kept_softly(
    before: Seq<Change>,
    now: Seq<Change>,
    dir: Seq<char>,
    table_ids: Seq<u64>,
)
    requires
        all_kept(before, dir, table_ids),
        disk::went_softly(before, now),
    ensures
        all_kept(now, dir, table_ids),
{
    vital_paths(dir);
    disk::kept_softly(before, now, names::path_in(dir, WAL_FILENAME@));
    disk::kept_softly(before, now, names::path_in(dir, names::CURRENT_FILENAME@));
    assert forall|i: int| 0 <= i < table_ids.len() implies disk::kept(
        now,
        names::path_in(dir, names::sst_name(#[trigger] table_ids[i])),
    ) by {
        names::table_path_ends(dir, table_ids[i]);
        disk::kept_softly(before, now, names::path_in(dir, names::sst_name(table_ids[i])));
    }
}

/// Removing the file of another table keeps the files that a database depends on.
proof fn all_kept_without(
    before: Seq<Change>,
    id: u64,
    ok: bool,
    dir: Seq<char>,
    table_ids: Seq<u64>,
)
    requires
        all_kept(before, dir, table_ids),
        !table_ids.contains(id),
    ensures
        all_kept(
            before.push(Change::Removed { path: names::path_in(dir, names::sst_name(id)), ok }),
            dir,
            table_ids,
        ),
{
    let change = Change::Removed { path: names::path_in(dir, names::sst_name(id)), ok };
    vital_paths(dir);
    names::table_path_ends(dir, id);
    disk::kept_once(before, change, names::path_in(dir, WAL_FILENAME@));
    disk::kept_once(before, change, names::path_in(dir, names::CURRENT_FILENAME@));
    assert forall|i: int| 0 <= i < table_ids.len() implies disk::kept(
        before.push(change),
        names::path_in(dir, names::sst_name(#[trigger] table_ids[i])),
    ) by {
        names::table_paths_differ(dir, id, table_ids[i]);
        disk::kept_once(before, change, names::path_in(dir, names::sst_name(table_ids[i])));
    }
}

/// An embedded log-structured merge-tree key/value store.
pub struct Db<F: Fs> {
    disk: Disk<Own<F>>,
    dir: String,
    opts: Options,
    /// Held as long as the database is open.
    #[allow(dead_code)]
    lock: F::File,
    wal: Wal<F>,
    /// The MemTable that takes writes.
    active: MemTable,
    /// The MemTable that is being flushed. Reads ask it until its table is
    /// published.
    frozen: Option<Arc<MemTable>>,
    /// The id of the table that the frozen MemTable becomes.
    frozen_id: u64,
    /// The tables, from the oldest to the newest.
    sstables: Vec<Arc<SsTable<F>>>,
    next_sst_id: u64,
    next_seq: u64,
    manifest: Manifest<F>,
    /// The snapshots in use. Compaction keeps every version that one of them
    /// can see.
    horizons: Horizons,
    /// The first failure of a flush or a compaction.
    failed: Option<String>,
}

impl<F: Fs> View for Db<F> {
    type V = DbView;

    closed spec fn view(&self) -> DbView {
        DbView {
            active: self.active@,
            frozen: match self.frozen {
                Some(f) => Some(FrozenView { records: f@, id: self.frozen_id }),
                None => None,
            },
            tables: stored(self.sstables@),
            next_seq: self.next_seq,
            next_sst_id: self.next_sst_id,
            log: self.wal.log(),
            manifest: self.manifest.contents(),
            horizons: self.horizons@,
            failure: match self.failed {
                Some(m) => Some(m@),
                None => None,
            },
        }
    }
}

/// What a value is.
pub open spec fn value_view(value: Option<Vec<u8>>) -> Option<Seq<u8>> {
    match value {
        Some(v) => Some(v@),
        None => None,
    }
}

/// The failure of a write that has no sequence number left.
pub open spec fn out_of_seqs() -> ErrorView {
    ErrorView::Corrupt("sequence numbers are exhausted"@)
}

/// The failure of a write that no frame of the log can hold.
pub open spec fn too_large() -> ErrorView {
    ErrorView::BadFormat("a write of this size cannot be logged"@)
}

/// The failure of a write that the MemTable has no room for.
pub open spec fn memtable_full() -> ErrorView {
    ErrorView::Io(
        IoErrorView { kind: IoErrorKind::OutOfMemory, message: "the MemTable is full"@ },
    )
}

impl<F: Fs> Db<F> {
    /// The options that the database was opened with.
    pub closed spec fn options(&self) -> Options {
        self.opts
    }

    /// The directory that the database is in.
    pub closed spec fn dir_text(&self) -> Seq<char> {
        self.dir@
    }

    /// What was done to the filesystem since the database was opened, in order.
    pub closed spec fn changes(&self) -> Seq<Change> {
        self.disk.changes()
    }

    /// Where the write-ahead log is.
    pub open spec fn log_path(&self) -> Seq<char> {
        names::path_in(self.dir_text(), WAL_FILENAME@)
    }

    /// What holds of every open database.
    pub closed spec fn wf(&self) -> bool {
        &&& self@.wf()
        &&& self.stands()
        &&& self.failed is None ==> self.manifest.buffered() == Seq::<u8>::empty()
            && self.manifest.frame_checksum() == Checksum::Castagnoli
    }

    /// What holds of a database even in the middle of a failure.
    pub closed spec fn stands(&self) -> bool {
        &&& self@.sound()
        &&& self.active.wf()
        &&& self.active.flush_threshold() == self.opts.memtable_threshold
        &&& self.frozen matches Some(f) ==> f.wf()
        &&& all_readable(self.sstables@)
        &&& all_in_place(self.sstables@, self.dir_text())
        &&& self.wal.sound()
        &&& self.wal.path_text() == self.log_path()
        &&& self.wal.sync_mode() == self.opts.sync_wal
        &&& self.manifest.in_place()
        &&& self.holds_lock()
        &&& all_kept(self.changes(), self.dir_text(), self@.ids())
    }

    /// Whether the lock on the directory is held.
    pub closed spec fn holds_lock(&self) -> bool {
        &&& self.lock.place() == directory::lock_path(self.dir_text())
        &&& self.lock.mode() == OpenMode::Lock
    }

    /// Whether the manifest was made durable as it is, and `CURRENT` made to name
    /// it.
    pub closed spec fn manifest_is_live(&self) -> bool {
        &&& self.manifest.is_synced()
        &&& self.manifest.dir_text() == self.dir_text()
        &&& manifest::is_current::<F>(self.dir_text(), self.manifest.live_generation())
    }

    /// Whether the manifest was made durable as it is.
    pub closed spec fn manifest_is_synced(&self) -> bool {
        self.manifest.is_synced()
    }

    /// Whether the log was made durable as it is: all that is in memory survives
    /// a crash.
    pub closed spec fn log_is_synced(&self) -> bool {
        self.wal.is_synced()
    }

    /// The syncs of the log that were asked for since its file was opened: each with
    /// what the file held then.
    pub closed spec fn log_syncs(&self) -> Seq<(SyncMode, Seq<u8>)> {
        self.wal.syncs()
    }

    /// Whether directory and options are those of `other`.
    pub open spec fn same_place(&self, other: &Self) -> bool {
        &&& self.dir_text() == other.dir_text()
        &&& self.options() == other.options()
    }

    /// What holds of every open database holds of what it is.
    pub proof fn wf_facts(&self)
        requires
            self.wf(),
        ensures
            self@.wf(),
            self.stands(),
            self.holds_lock(),
            all_kept(self.changes(), self.dir_text(), self@.ids()),
    {
    }

    // ---------------------------------------------------------------- opening
    /// Open the database in `dir`, or create it, with the default options.
    pub fn open<V: Whole<F>>(fs: V, dir: &str) -> (r: Result<Db<F>>)
        ensures
            r matches Ok(db) ==> opened(&db, dir@, Options::default_view()),
            r matches Ok(db) ==> opening_left(db.changes(), dir@, db@.ids().to_set()),
            r is Err ==> exists|done: Seq<Change>| #[trigger]
                disk::ended::<F>(done) && unopened_left::<F>(done, dir@),
            r matches Err(e) ==> opening_failed::<F>(e@, dir@),
    {
        Db::open_with(fs, dir, Options::default())
    }

    /// Open the database in `dir`, or create it.
    ///
    /// What a crash left behind is cleared up: tables that the manifest does
    /// not name and files that were being written are removed, and the log is
    /// replayed.
    pub fn open_with<V: Whole<F>>(fs: V, dir: &str, opts: Options) -> (r: Result<Db<F>>)
        ensures
            r matches Ok(db) ==> opened(&db, dir@, opts),
            r matches Ok(db) ==> opening_left(db.changes(), dir@, db@.ids().to_set()),
            r is Err ==> exists|done: Seq<Change>| #[trigger]
                disk::ended::<F>(done) && unopened_left::<F>(done, dir@),
            r matches Err(e) ==> opening_failed::<F>(e@, dir@),
    {
        let mut disk = fs.take();
        let ghost start = disk.changes();
        let ghost early = early_files(dir@);
        proof {
            disk::went_nowhere(start, early);
            early_left::<F>(start, dir@);
        }
        match disk.create_dir_all(dir) {
            Ok(()) => {},
            Err(e) => return Err(give_up(disk, Error::Io(e), Ghost(dir@))),
        }
        // Before anything else: everything below changes the directory or
        // deletes from it.
        let lock = directory::acquire_lock_on(&mut disk, dir);
        let ghost locked = disk.changes();
        proof {
            disk::went_on_once(start, start, locked.last(), early);
            early_left::<F>(locked, dir@);
        }
        let lock = match lock {
            Ok(f) => f,
            Err(e) => return Err(give_up(disk, e, Ghost(dir@))),
        };
        let managing = open_manifest(&mut disk, dir);
        let ghost managed = disk.changes();
        proof {
            disk::went_on_further(
                start,
                locked,
                managed,
                early,
                manifest::manifest_files(dir@),
            );
            early_left::<F>(managed, dir@);
        }
        let (manifest, state) = match managing {
            Ok(found) => found,
            Err(e) => return Err(give_up(disk, e, Ghost(dir@))),
        };
        assert(manifest_found::<F>(dir@, state@));
        let ghost late = late_files(dir@, state@.live_tables);
        let reclaiming = directory::reclaim(&mut disk, dir, &state.live_tables);
        let ghost cleared = disk.changes();
        proof {
            disk::went_nowhere(start, late);
            disk::went_on_further(start, start, managed, late, early);
            disk::went_on_further(
                start,
                managed,
                cleared,
                late,
                directory::left_overs(state@.live_tables),
            );
            late_left::<F>(cleared, dir@, state@);
        }
        match reclaiming {
            Ok(()) => {},
            Err(e) => return Err(give_up(disk, e, Ghost(dir@))),
        }
        let ids = ids::ascending(&state.live_tables);
        proof {
            assert forall|id: u64| ids@.contains(id) implies state@.live_tables.contains(id) by {
                assert(ids@.to_set().contains(id));
            }
        }
        let next_sst_id: u64 = match next_id(&ids, state.next_sst_id) {
            Ok(id) => id,
            Err(e) => return Err(give_up(disk, e, Ghost(dir@))),
        };
        let sstables = match open_tables(&disk, dir, &ids, opts.bloom_enabled) {
            Ok(tables) => tables,
            Err(e) => return Err(give_up(disk, e, Ghost(dir@))),
        };

        // The manifest keeps the counter across flushes; the log may hold
        // writes beyond it.
        let wal_path = names::join(dir, WAL_FILENAME);
        let recovering = Wal::recover_on(&mut disk, wal_path.as_str(), opts.sync_wal);
        let ghost end = disk.changes();
        proof {
            disk::went_on_once(start, cleared, end.last(), late);
            late_left::<F>(end, dir@, state@);
        }
        let (wal, records) = match recovering {
            Ok(found) => found,
            Err(e) => return Err(give_up(disk, e, Ghost(dir@))),
        };
        let ghost raw = choose|raw: Seq<u8>| #[trigger]
            F::answered(wal_path@, OpenMode::Append, Ok(raw)) && wal.log() == wal::kept_log(raw)
                && wal::replayed(raw) == Ok::<Seq<RecordView>, ErrorView>(record::views(records@));
        assert(F::answered(names::path_in(dir@, WAL_FILENAME@), OpenMode::Append, Ok(raw)));
        let ghost logged = record::views(records@);
        let next_seq: u64 = match next_after(records.as_slice(), state.next_seq) {
            Ok(n) => n,
            Err(e) => {
                proof {
                    let i = choose|i: int|
                        0 <= i < logged.len() && (#[trigger] logged[i]).seq == u64::MAX;
                    assert((wal::replayed(raw)->Ok_0)[i].seq == u64::MAX);
                    assert(unfit::<F>(dir@, state@, e@));
                }
                return Err(give_up(disk, e, Ghost(dir@)));
            },
        };
        let mut active = MemTable::new(opts.memtable_threshold);
        if !rebuild::room_for(&active, records.as_slice()) {
            let full = Error::Io(IoError::new(IoErrorKind::OutOfMemory, "the MemTable is full"));
            return Err(give_up(disk, full, Ghost(dir@)));
        }
        rebuild::insert_all(&mut active, records);
        let db = Db {
            disk,
            dir: text::copy_text(dir),
            opts,
            lock,
            wal,
            active,
            frozen: None,
            frozen_id: 0,
            sstables,
            next_sst_id,
            next_seq,
            manifest,
            horizons: Horizons::new(),
            failed: None,
        };
        proof {
            let v = db@;
            let none = Seq::<RecordView>::empty();
            assert(v.active == rebuild::rebuilt(logged));
            rebuild::inserted_all_sorted(none, logged);
            assert forall|i: int| 0 <= i < v.active.len() implies (#[trigger] v.active[i]).seq
                < next_seq by {
                assert(v.active.contains(v.active[i]));
                rebuild::inserted_all_has(none, logged, v.active[i]);
                let k = choose|k: int| 0 <= k < logged.len() && logged[k] == v.active[i];
                assert(logged[k].seq < next_seq);
            }
            assert(none + logged =~= logged);
            assert(wal::replayed(v.log) == Ok::<Seq<RecordView>, ErrorView>(none + logged));
            assert(rebuild::rebuilt(none) == none);
            assert(v.frozen_records() == none);
            assert(state::backs(v.log, none, v.active));
            assert(v.ids() =~= ids@);
            opening_keeps(dir@, start, locked, managed, cleared, db.changes(), state@, ids@);
            assert(v.ids().to_set() =~= state@.live_tables);
            opening_was(
                dir@,
                db.manifest.live_generation(),
                locked,
                managed,
                cleared,
                db.changes(),
                state@.live_tables,
            );
            assert forall|i: int| 0 <= i < v.tables.len() implies (#[trigger] v.tables[i]).id
                < v.next_sst_id by {
                assert(v.tables[i].id == ids@[i]);
            }
            let edits = choose|edits: Seq<VersionEdit>|
                v.manifest == #[trigger] manifest::log_of(edits)
                    && StateView::empty().applied_all(edits) == state@;
            state::edits_are_recorded(edits);
            assert(state::names(v.manifest, v.ids()));
            assert(v.wf());
            assert(v =~= v.restarted());
            let files = Map::new(
                |id: u64| v.ids().contains(id),
                |id: u64| v.tables[v.ids().index_of(id)].file,
            );
            let found = DirView { state: state@, files, log: raw };
            assert forall|i: int| 0 <= i < v.tables.len() implies (#[trigger] v.tables[i]).file
                == files[v.tables[i].id] by {
                assert(v.ids()[i] == v.tables[i].id);
                let k = v.ids().index_of(v.tables[i].id);
                assert(v.ids()[k] == v.ids()[i]);
            }
            assert forall|id: u64| #[trigger] state@.live_tables.contains(id) implies F::answered(
                names::path_in(dir@, names::sst_name(id)),
                OpenMode::Read,
                Ok(files[id]),
            ) by {
                assert(ids@.to_set().contains(id));
                let k = v.ids().index_of(id);
                assert(v.ids()[k] == id);
                assert(db.sstables@[k].reader.contents() == v.tables[k].file);
            }
            assert(dir_read::<F>(dir@, found));
            assert(opened_from(&db, dir@, opts, found));
        }
        Ok(db)
    }

    /// An error once a flush or a compaction has failed.
    ///
    /// The engine does not recover while it runs: a failed flush leaves the
    /// frozen MemTable stranded and the log as it was, so that everything
    /// written after it would build on a state that does not survive a restart.
    pub fn health(&self) -> (r: Result<()>)
        ensures
            match self@.failure {
                Some(m) => r is Err && r->Err_0@ == ErrorView::Poisoned(m),
                None => r is Ok,
            },
    {
        match &self.failed {
            Some(m) => Err(Error::Poisoned(text::copy_text(m.as_str()))),
            None => Ok(()),
        }
    }

    /// Keep this failure, unless there was one before, and return the error that
    /// every later call gives. The first failure is the one that says what went
    /// wrong; everything after it is a consequence.
    pub fn fail(&mut self, e: Error) -> (r: Error)
        requires
            old(self).stands(),
        ensures
            final(self).wf(),
            final(self).same_place(old(self)),
            final(self).changes() == old(self).changes(),
            ({
                let text = match old(self)@.failure {
                    Some(m) => m,
                    None => e@.text(),
                };
                &&& final(self)@ == DbView { failure: Some(text), ..old(self)@ }
                &&& r@ == ErrorView::Poisoned(text)
            }),
    {
        let text = match &self.failed {
            Some(m) => text::copy_text(m.as_str()),
            None => e.message(),
        };
        let said = text::copy_text(text.as_str());
        self.failed = Some(text);
        assert(self@.ids() =~= old(self)@.ids());
        Error::Poisoned(said)
    }

    /// How many tables there are on disk.
    pub fn sstable_count(&self) -> (r: usize)
        ensures
            r == self@.tables.len(),
    {
        self.sstables.len()
    }

    // ------------------------------------------------------------------ reads
    /// The value of `key` now, or `None` if it has none.
    pub fn get(&self, key: &[u8]) -> (r: Result<Option<Vec<u8>>>)
        requires
            self.wf(),
        ensures
            self.tells(r, key@, u64::MAX),
    {
        self.read(key, u64::MAX)
    }

    /// The value that `key` had when the snapshot was taken.
    pub fn get_at(&self, snapshot: &Snapshot, key: &[u8]) -> (r: Result<Option<Vec<u8>>>)
        requires
            self.wf(),
        ensures
            self.tells(r, key@, snapshot.sees_below()),
    {
        self.read(key, snapshot.horizon())
    }

    /// What a read gives back. After a failure it refuses, because the engine
    /// can no longer promise that what it would answer survives. What is in
    /// memory is always found. A lookup in a table may fail because the
    /// filesystem does.
    pub open spec fn tells(
        &self,
        r: Result<Option<Vec<u8>>>,
        key: Seq<u8>,
        bound: u64,
    ) -> bool {
        match self@.failure {
            Some(m) => r is Err && r->Err_0@ == ErrorView::Poisoned(m),
            None => {
                &&& self@.tables.len() == 0 ==> r is Ok
                &&& self@.in_memory(key, bound) matches Some(x) ==> r is Ok && value_view(
                    r->Ok_0,
                ) == x.value
                &&& self@.ordered() ==> match r {
                    Ok(v) => self@.read(key, bound) == Ok::<Option<Seq<u8>>, ErrorView>(
                        value_view(v),
                    ),
                    Err(e) => fs::handed_on::<F::File>(e@) || self@.read(key, bound) == Err::<
                        Option<Seq<u8>>,
                        ErrorView,
                    >(e@),
                }
            },
        }
    }

    fn read(&self, key: &[u8], seq_bound: u64) -> (r: Result<Option<Vec<u8>>>)
        requires
            self.wf(),
        ensures
            self.tells(r, key@, seq_bound),
    {
        self.health()?;
        if let Some(record) = self.active.get_at(key, seq_bound) {
            return Ok(copy_value(&record.value));
        }
        if let Some(frozen) = &self.frozen {
            if let Some(record) = frozen.get_at(key, seq_bound) {
                return Ok(copy_value(&record.value));
            }
        }
        let ghost tables = self@.tables;
        let mut i: usize = self.sstables.len();
        assert(tables.take(i as int) =~= tables);
        while i > 0
            invariant
                self.wf(),
                tables == self@.tables,
                i <= self.sstables@.len() == tables.len(),
                self@.failure is None,
                self@.in_memory(key@, seq_bound) is None,
                self@.ordered() ==> state::looked_up_in(tables, key@, seq_bound)
                    == state::looked_up_in(tables.take(i as int), key@, seq_bound),
            decreases i,
        {
            i -= 1;
            let table = &self.sstables[i];
            proof {
                reveal(StoredTable::lookup);
                table.reader.wf_facts();
                assert(tables[i as int] == table.stored());
                assert(tables.take(i + 1).last() == tables[i as int]);
                assert(tables.take(i + 1).drop_last() =~= tables.take(i as int));
            }
            if let Some(record) = table.reader.get_at(key, seq_bound)? {
                return Ok(record.value);
            }
        }
        assert(tables.take(0) =~= Seq::empty());
        Ok(None)
    }

    // -------------------------------------------------------------- snapshots
    /// Take a snapshot: reads through it see only writes made before this call.
    ///
    /// As long as it is in use, compaction keeps the versions that it can see.
    /// It is in use until it is [released](Db::release).
    pub fn snapshot(&mut self) -> (r: Snapshot)
        requires
            old(self).wf(),
        ensures
            final(self).wf(),
            final(self).same_place(old(self)),
            final(self).changes() == old(self).changes(),
            r.sees_below() == old(self)@.next_seq,
            final(self)@ == (DbView {
                horizons: snapshots::held_more(old(self)@.horizons, old(self)@.next_seq),
                ..old(self)@
            }),
    {
        let horizon: u64 = self.next_seq;
        self.horizons.hold(horizon);
        assert(self@.ids() =~= old(self)@.ids());
        Snapshot::at(horizon)
    }

    /// A snapshot is no longer in use.
    pub fn release(&mut self, snapshot: Snapshot)
        requires
            old(self).wf(),
        ensures
            final(self).wf(),
            final(self).same_place(old(self)),
            final(self).changes() == old(self).changes(),
            final(self)@ == (DbView {
                horizons: snapshots::held_less(old(self)@.horizons, snapshot.sees_below()),
                ..old(self)@
            }),
    {
        self.horizons.release(snapshot.horizon());
        assert(self@.ids() =~= old(self)@.ids());
    }

    // ----------------------------------------------------------------- writes
    /// Give `key` this value.
    pub fn put(&mut self, key: &[u8], value: &[u8]) -> (r: Result<()>)
        requires
            old(self).wf(),
        ensures
            final(self).wf(),
            final(self).same_place(old(self)),
            final(self).changes() == old(self).changes(),
            wrote(
                old(self),
                final(self),
                r,
                seq![WriteView { key: key@, value: Some(value@) }],
            ),
    {
        let one = vec![Write { key: bytes::copy(key), value: Some(bytes::copy(value)) }];
        proof {
            assert(write_views(one@) =~= seq![WriteView { key: key@, value: Some(value@) }]);
        }
        self.write(one.as_slice())
    }

    /// Delete `key`. If it has no value, nothing changes but that a deletion is
    /// recorded.
    pub fn delete(&mut self, key: &[u8]) -> (r: Result<()>)
        requires
            old(self).wf(),
        ensures
            final(self).wf(),
            final(self).same_place(old(self)),
            final(self).changes() == old(self).changes(),
            wrote(old(self), final(self), r, seq![WriteView { key: key@, value: None }]),
    {
        let one = vec![Write { key: bytes::copy(key), value: None }];
        proof {
            assert(write_views(one@) =~= seq![WriteView { key: key@, value: None }]);
        }
        self.write(one.as_slice())
    }

    /// Make all writes of a batch, or none. An empty batch is no write.
    pub fn write_batch(&mut self, batch: &WriteBatch) -> (r: Result<()>)
        requires
            old(self).wf(),
        ensures
            final(self).wf(),
            final(self).same_place(old(self)),
            final(self).changes() == old(self).changes(),
            wrote(old(self), final(self), r, batch@),
    {
        self.write(batch.as_slice())
    }

    /// Append writes to the log as one frame, and put them into the MemTable.
    fn write(&mut self, writes: &[Write]) -> (r: Result<()>)
        requires
            old(self).wf(),
        ensures
            final(self).wf(),
            final(self).same_place(old(self)),
            final(self).changes() == old(self).changes(),
            wrote(old(self), final(self), r, write_views(writes@)),
    {
        let ghost before = self@;
        let ghost all = write_views(writes@);
        self.health()?;
        let n: usize = writes.len();
        if n == 0 {
            proof {
                assert(all =~= Seq::empty());
                assert(before.stamped(all) =~= Seq::empty());
                assert(self@ =~= before.with_writes(all));
            }
            return Ok(());
        }
        let after: u64 = match self.next_seq.checked_add(n as u64) {
            Some(after) => after,
            None => return Err(Error::corrupt("sequence numbers are exhausted")),
        };
        let records = stamp(writes, self.next_seq);
        let ghost batch = record::views(records@);
        assert(batch =~= before.stamped(all));
        let counted = self.wal.is_counted();
        if (counted || n == 1) && !wal::fits(counted, records.as_slice()) {
            return Err(Error::bad_format("a write of this size cannot be logged"));
        }
        if !rebuild::room_for(&self.active, records.as_slice()) {
            return Err(
                Error::Io(IoError::new(IoErrorKind::OutOfMemory, "the MemTable is full")),
            );
        }
        // A number that was given out is not given out again, whatever becomes
        // of the write.
        self.next_seq = after;
        proof {
            state::lost_seqs_keep_wf(before, n as nat);
        }
        // The log first: a record is never visible and not logged.
        self.wal.append_batch(records.as_slice())?;
        rebuild::insert_all(&mut self.active, records);
        proof {
            state::writes_keep_wf(before, all);
            assert(self@ =~= before.with_writes(all));
            wal::append_then_replay(before.log, before.log_kind(), batch);
            assert(self@.log_kind() == before.log_kind());
        }
        Ok(())
    }
}

/// What an open finds in a directory: the state of its manifest, the bytes of the
/// tables that are live, by their ids, and the bytes of the log.
pub struct DirView {
    pub state: StateView,
    pub files: Map<u64, Seq<u8>>,
    pub log: Seq<u8>,
}

/// Whether the filesystem once gave this as what is in a directory, and the lock
/// on the directory was taken.
pub open spec fn dir_read<F: Fs>(dir: Seq<char>, found: DirView) -> bool {
    &&& exists|c: Seq<u8>| #[trigger]
        F::answered(directory::lock_path(dir), OpenMode::Lock, Ok(c))
    &&& directory::lock_is_named::<F>(dir)
    &&& manifest_found::<F>(dir, found.state)
    &&& forall|id: u64| #[trigger]
        found.state.live_tables.contains(id) ==> F::answered(
            names::path_in(dir, names::sst_name(id)),
            OpenMode::Read,
            Ok(found.files[id]),
        )
    &&& F::answered(names::path_in(dir, WAL_FILENAME@), OpenMode::Append, Ok(found.log))
}

/// What a database is that was opened with these options in a directory in which
/// this was found: the tables are those that the manifest names, the log is what
/// is whole in the file, and what it holds is in memory.
pub open spec fn opened_from<F: Fs>(
    db: &Db<F>,
    dir: Seq<char>,
    opts: Options,
    found: DirView,
) -> bool {
    &&& db.wf()
    &&& db.dir_text() == dir
    &&& db.options() == opts
    &&& db@ == db@.restarted()
    &&& state::recorded(db@.manifest) == found.state
    &&& db@.ids().to_set() == found.state.live_tables
    &&& forall|i: int|
        0 <= i < db@.tables.len() ==> (#[trigger] db@.tables[i]).file
            == found.files[db@.tables[i].id] && db@.tables[i].bloom == opts.bloom_enabled
    &&& wal::replayed(found.log) is Ok
    &&& db@.log == wal::kept_log(found.log)
}

/// What a database is that was opened in this directory with these options:
/// what the manifest, the tables and the log there say. Its manifest is durable
/// and is the one that `CURRENT` names. What a crash left there was removed.
pub open spec fn opened<F: Fs>(db: &Db<F>, dir: Seq<char>, opts: Options) -> bool {
    &&& db.holds_lock()
    &&& db.manifest_is_live()
    &&& exists|found: DirView| #[trigger]
        dir_read::<F>(dir, found) && opened_from(db, dir, opts, found)
    &&& directory::reclaimed::<F>(dir, db@.ids().to_set())
}

/// Whether this is the state that was found in a directory: the one that the
/// manifest records where there is one, and else that of the tables that a
/// listing of the directory gave. The manifest was rolled over, and the old
/// generation was to be removed; where there was none, the first was made.
pub open spec fn manifest_found<F: Fs>(dir: Seq<char>, state: StateView) -> bool {
    exists|answer: core::result::Result<u64, IoErrorView>| #[trigger]
        F::sized(names::path_in(dir, names::CURRENT_FILENAME@), answer) && if answer is Ok {
            exists|generation: u64| #[trigger]
                manifest::found::<F>(dir, generation, state) && generation < u64::MAX
                    && manifest::is_current::<F>(dir, (generation + 1) as u64)
                    && manifest::discarded::<F>(dir, generation)
        } else {
            manifest::is_current::<F>(dir, 0) && exists|paths: Seq<Seq<char>>| #[trigger]
                F::listed(dir, paths) && directory::describes(state, paths)
        }
}

/// How opening this directory can fail: because the filesystem does, because the
/// directory is open elsewhere, because of what is wrong with the manifest, a
/// live table or the log, or because ids, numbers or memory run out.
pub open spec fn opening_failed<F: Fs>(e: ErrorView, dir: Seq<char>) -> bool {
    ||| fs::handed_on::<F::File>(e)
    ||| directory::unlocked::<F>(dir, e)
    ||| no_manifest::<F>(dir, e)
    ||| exists|state: StateView| #[trigger]
        manifest_found::<F>(dir, state) && unfit::<F>(dir, state, e)
}

/// Whether a directory was asked for its manifest, and that ended in this error:
/// there is one that cannot be opened, or there is none and a table has the last
/// id.
pub open spec fn no_manifest<F: Fs>(dir: Seq<char>, e: ErrorView) -> bool {
    exists|answer: core::result::Result<u64, IoErrorView>| #[trigger]
        F::sized(names::path_in(dir, names::CURRENT_FILENAME@), answer) && if answer is Ok {
            manifest::unfound::<F>(dir, e)
        } else {
            ||| fs::handed_on::<F::File>(e)
            ||| exists|paths: Seq<Seq<char>>| #[trigger]
                F::listed(dir, paths) && directory::ids_in(paths).contains(u64::MAX) && e
                    == out_of_ids()
        }
}

/// Whether a directory in which this state was found cannot be opened for this
/// reason: a table has the last id, a live table or the log cannot be read, a
/// write in the log has the last number, or memory has no room for the log.
pub open spec fn unfit<F: Fs>(dir: Seq<char>, state: StateView, e: ErrorView) -> bool {
    let wal_path = names::path_in(dir, WAL_FILENAME@);
    ||| state.live_tables.contains(u64::MAX) && e == out_of_ids()
    ||| exists|id: u64| #[trigger]
        state.live_tables.contains(id) && reader::unopened::<F>(
            names::path_in(dir, names::sst_name(id)),
            e,
        )
    ||| wal::unreplayed::<F>(wal_path, OpenMode::Append, e)
    ||| exists|log: Seq<u8>| #[trigger]
        F::answered(wal_path, OpenMode::Append, Ok(log)) && wal::replayed(log) is Ok && {
            let records = wal::replayed(log)->Ok_0;
            ||| e == out_of_seqs() && exists|i: int|
                0 <= i < records.len() && (#[trigger] records[i]).seq == u64::MAX
            ||| e == memtable_full() && !rebuild::has_room(Seq::empty(), records)
        }
}

/// The failure to give a table an id when none is left.
pub open spec fn out_of_ids() -> ErrorView {
    ErrorView::Corrupt("table ids are exhausted"@)
}

/// Open the manifest of a directory, or give it one.
fn open_manifest<F: Fs, H: Holder<F = F>>(disk: &mut Disk<H>, dir: &str) -> (r: Result<
    (Manifest<F>, ManifestState),
>)
    ensures
        disk::went_on(old(disk).changes(), final(disk).changes(), manifest::manifest_files(dir@)),
        disk::went_softly(old(disk).changes(), final(disk).changes()),
        r is Ok ==> manifest_changes(
            dir@,
            r->Ok_0.0.live_generation(),
            old(disk).changes(),
            final(disk).changes(),
        ),
        r is Ok ==> {
            &&& r->Ok_0.0.buffered() == Seq::<u8>::empty()
            &&& r->Ok_0.0.frame_checksum() == Checksum::Castagnoli
            &&& exists|edits: Seq<VersionEdit>|
                r->Ok_0.0.contents() == #[trigger] manifest::log_of(edits)
                    && StateView::empty().applied_all(edits) == r->Ok_0.1@
            &&& manifest_found::<F>(dir@, r->Ok_0.1@)
            &&& r->Ok_0.0.is_synced()
            &&& r->Ok_0.0.dir_text() == dir@
            &&& manifest::is_current::<F>(dir@, r->Ok_0.0.live_generation())
        },
        r matches Err(e) ==> no_manifest::<F>(dir@, e@),
{
    if Manifest::is_present_on(disk, dir) {
        let (m, state) = Manifest::open_on(disk, dir)?;
        proof {
            assert(m.contents() == manifest::log_of(state@.snapshot()));
            let generation = (m.live_generation() - 1) as u64;
            assert(manifest::found::<F>(dir@, generation, state@));
        }
        Ok((m, state))
    } else {
        let (m, state) = directory::migrate_dir(disk, dir)?;
        proof {
            let paths = choose|paths: Seq<Seq<char>>| #[trigger]
                F::listed(dir@, paths) && directory::describes(state@, paths)
                    && directory::migrated(&m, state@, paths);
            directory::migration_names(&m, state@, paths);
        }
        Ok((m, state))
    }
}

/// The change that taking the lock on a directory makes.
pub open spec fn locking(dir: Seq<char>) -> Change {
    Change::Opened { path: directory::lock_path(dir), mode: OpenMode::Lock }
}

/// What is done to open a directory once its manifest is open: the files at these paths
/// are removed, and the log is opened.
pub open spec fn clearing_up(dir: Seq<char>, gone: Seq<Seq<char>>) -> Seq<Change> {
    directory::clearing(gone).push(
        Change::Opened { path: names::path_in(dir, WAL_FILENAME@), mode: OpenMode::Append },
    )
}

/// Whether this is all that was done to open a directory with these live tables: the lock
/// was taken, the manifest opened or made, what is left over removed, and the log opened.
pub open spec fn opening_left(changes: Seq<Change>, dir: Seq<char>, live: Set<u64>) -> bool {
    exists|managed: Seq<Change>, generation: u64, gone: Seq<Seq<char>>|
        #![trigger manifest_changes(dir, generation, seq![locking(dir)], managed), clearing_up(
            dir,
            gone,
        )]
        {
            &&& manifest_changes(dir, generation, seq![locking(dir)], managed)
            &&& changes == managed + clearing_up(dir, gone)
            &&& forall|k: int|
                0 <= k < gone.len() ==> directory::left_over(
                    names::base_of(#[trigger] gone[k]),
                    live,
                )
        }
}

/// The paths that opening a directory is about before its manifest is open.
pub open spec fn early_files(dir: Seq<char>) -> Set<Seq<char>> {
    manifest::manifest_files(dir).insert(directory::lock_path(dir))
}

/// The paths that opening a directory with these live tables is about.
pub open spec fn late_files(dir: Seq<char>, live: Set<u64>) -> Set<Seq<char>> {
    early_files(dir).union(directory::left_overs(live)).insert(
        names::path_in(dir, WAL_FILENAME@),
    )
}

/// Whether an open that failed left everything alone but the lock and the manifest, and
/// once the manifest was read, what is left over beside it and the log.
pub open spec fn unopened_left<F: Fs>(done: Seq<Change>, dir: Seq<char>) -> bool {
    ||| disk::confined(done, early_files(dir))
    ||| exists|state: StateView| #[trigger]
        manifest_found::<F>(dir, state) && disk::confined(done, late_files(dir, state.live_tables))
}

proof fn early_left<F: Fs>(done: Seq<Change>, dir: Seq<char>)
    requires
        disk::went_on(Seq::empty(), done, early_files(dir)),
    ensures
        unopened_left::<F>(done, dir),
{
    assert(done.skip(0) =~= done);
}

proof fn late_left<F: Fs>(done: Seq<Change>, dir: Seq<char>, state: StateView)
    requires
        manifest_found::<F>(dir, state),
        disk::went_on(Seq::empty(), done, late_files(dir, state.live_tables)),
    ensures
        unopened_left::<F>(done, dir),
{
    assert(done.skip(0) =~= done);
}

proof fn opening_was(
    dir: Seq<char>,
    generation: u64,
    locked: Seq<Change>,
    managed: Seq<Change>,
    cleared: Seq<Change>,
    end: Seq<Change>,
    live: Set<u64>,
)
    requires
        locked == Seq::<Change>::empty().push(locking(dir)),
        manifest_changes(dir, generation, locked, managed),
        directory::cleared(managed, cleared, live),
        end == cleared.push(
            Change::Opened { path: names::path_in(dir, WAL_FILENAME@), mode: OpenMode::Append },
        ),
    ensures
        opening_left(end, dir, live),
{
    let gone = choose|gone: Seq<Seq<char>>|
        cleared == managed + #[trigger] directory::clearing(gone) && forall|k: int|
            0 <= k < gone.len() ==> directory::left_over(
                names::base_of(#[trigger] gone[k]),
                live,
            );
    assert(locked =~= seq![locking(dir)]);
    assert(end =~= managed + clearing_up(dir, gone));
    assert(manifest_changes(dir, generation, seq![locking(dir)], managed));
}

/// Leave a directory that cannot be opened.
fn give_up<F: Fs>(disk: Disk<Own<F>>, e: Error, Ghost(dir): Ghost<Seq<char>>) -> (r: Error)
    requires
        unopened_left::<F>(disk.changes(), dir),
    ensures
        r == e,
        exists|done: Seq<Change>| #[trigger]
            disk::ended::<F>(done) && unopened_left::<F>(done, dir),
{
    disk.finish();
    assert(disk::ended::<F>(disk.changes()));
    e
}

/// Opening a directory keeps the files that the database depends on.
proof fn opening_keeps(
    dir: Seq<char>,
    start: Seq<Change>,
    locked: Seq<Change>,
    managed: Seq<Change>,
    cleared: Seq<Change>,
    end: Seq<Change>,
    state: StateView,
    table_ids: Seq<u64>,
)
    requires
        start == Seq::<Change>::empty(),
        locked == start.push(
            Change::Opened { path: directory::lock_path(dir), mode: OpenMode::Lock },
        ),
        disk::went_softly(locked, managed),
        disk::went_on(managed, cleared, directory::left_overs(state.live_tables)),
        end == cleared.push(
            Change::Opened { path: names::path_in(dir, WAL_FILENAME@), mode: OpenMode::Append },
        ),
        table_ids.to_set() == state.live_tables,
    ensures
        all_kept(end, dir, table_ids),
{
    let lock = Change::Opened { path: directory::lock_path(dir), mode: OpenMode::Lock };
    disk::went_softly_once(start, start, lock);
    disk::went_softly_further(start, locked, managed);
    assert(all_kept(start, dir, table_ids));
    all_kept_softly(start, managed, dir, table_ids);
    let gone = directory::left_overs(state.live_tables);
    directory::files_in_use_stay(state.live_tables, 0);
    plain_names(dir);
    disk::spared_elsewhere(managed, cleared, gone, names::path_in(dir, WAL_FILENAME@));
    disk::spared_elsewhere(
        managed,
        cleared,
        gone,
        names::path_in(dir, names::CURRENT_FILENAME@),
    );
    assert forall|i: int| 0 <= i < table_ids.len() implies disk::kept(
        cleared,
        names::path_in(dir, names::sst_name(#[trigger] table_ids[i])),
    ) by {
        let id = table_ids[i];
        names::table_path_ends(dir, id);
        assert(table_ids.to_set().contains(id));
        directory::files_in_use_stay(state.live_tables, id);
        disk::spared_elsewhere(
            managed,
            cleared,
            gone,
            names::path_in(dir, names::sst_name(id)),
        );
    }
    let log = Change::Opened {
        path: names::path_in(dir, WAL_FILENAME@),
        mode: OpenMode::Append,
    };
    assert(cleared =~= cleared.take(cleared.len() as int));
    disk::went_softly_once(cleared, cleared, log);
    all_kept_softly(cleared, end, dir, table_ids);
}

/// The names of the log and of `CURRENT` are the last parts of their paths.
proof fn plain_names(dir: Seq<char>)
    ensures
        names::base_of(names::path_in(dir, WAL_FILENAME@)) == WAL_FILENAME@,
        names::base_of(names::path_in(dir, names::CURRENT_FILENAME@)) == names::CURRENT_FILENAME@,
{
    reveal_strlit("wal.log");
    reveal_strlit("CURRENT");
    names::base_of_path(dir, WAL_FILENAME@);
    names::base_of_path(dir, names::CURRENT_FILENAME@);
}

/// What is done to open the manifest of a directory, or to give it one: this is the
/// live generation then.
pub open spec fn manifest_changes(
    dir: Seq<char>,
    generation: u64,
    before: Seq<Change>,
    now: Seq<Change>,
) -> bool {
    ||| generation > 0 && now == before + manifest::opening_changes(
        dir,
        (generation - 1) as u64,
        true,
    )
    ||| generation > 0 && now == before + manifest::opening_changes(
        dir,
        (generation - 1) as u64,
        false,
    )
    ||| generation == 0 && now == before + manifest::creation_changes(dir, 0)
}

/// The id of the next table: the one that the manifest gives, or a higher one
/// if there is a table with that id or a higher one.
fn next_id(table_ids: &Vec<u64>, recorded: u64) -> (r: Result<u64>)
    requires
        ids::ascends(table_ids@),
    ensures
        match r {
            Ok(n) => {
                &&& n == state::id_after(recorded as nat, table_ids@)
                &&& forall|i: int| 0 <= i < table_ids@.len() ==> #[trigger] table_ids@[i] < n
            },
            Err(e) => e@ == out_of_ids() && table_ids@.contains(u64::MAX),
        },
{
    let n: usize = table_ids.len();
    if n > 0 && table_ids[n - 1] >= recorded {
        if table_ids[n - 1] == u64::MAX {
            assert(table_ids@[n - 1] == u64::MAX);
            return Err(Error::corrupt("table ids are exhausted"));
        }
        return Ok(table_ids[n - 1] + 1);
    }
    Ok(recorded)
}

/// The sequence number of the next write: the one that the manifest gives, or a
/// higher one if the log holds a write with that number or a higher one.
fn next_after(records: &[Record], recorded: u64) -> (r: Result<u64>)
    ensures
        match r {
            Ok(n) => {
                &&& n == state::seq_after(recorded as nat, record::views(records@))
                &&& rebuild::seqs_below(record::views(records@), n)
            },
            Err(e) => e@ == out_of_seqs() && exists|i: int|
                0 <= i < records@.len() && (#[trigger] record::views(records@)[i]).seq == u64::MAX,
        },
{
    let n: usize = records.len();
    let mut next: u64 = recorded;
    let mut i: usize = 0;
    while i < n
        invariant
            i <= n == records@.len(),
            forall|k: int| 0 <= k < i ==> (#[trigger] records@[k]).seq < next,
            next == state::seq_after(recorded as nat, record::views(records@).take(i as int)),
        decreases n - i,
    {
        let seq: u64 = records[i].seq;
        assert(record::views(records@)[i as int].seq == seq);
        proof {
            let all = record::views(records@);
            assert(all.take(i + 1).drop_last() =~= all.take(i as int));
        }
        if seq >= next {
            if seq == u64::MAX {
                return Err(Error::corrupt("sequence numbers are exhausted"));
            }
            next = seq + 1;
        }
        i += 1;
    }
    proof {
        let all = record::views(records@);
        assert(all.take(n as int) =~= all);
    }
    Ok(next)
}

/// Open the tables with these ids.
fn open_tables<F: Fs, H: Holder<F = F>>(
    disk: &Disk<H>,
    dir: &str,
    table_ids: &Vec<u64>,
    bloom: bool,
) -> (r: Result<Vec<Arc<SsTable<F>>>>)
    ensures
        r matches Ok(v) ==> {
            &&& v@.len() == table_ids@.len()
            &&& forall|i: int|
                0 <= i < v@.len() ==> (#[trigger] v@[i]).id == table_ids@[i] && v@[i].reader.wf()
            &&& all_in_place(v@, dir@)
            &&& forall|i: int|
                0 <= i < v@.len() ==> F::answered(
                    names::path_in(dir@, names::sst_name(table_ids@[i])),
                    OpenMode::Read,
                    Ok((#[trigger] v@[i]).reader.contents()),
                ) && v@[i].reader.uses_bloom() == bloom
        },
        r matches Err(e) ==> exists|id: u64| #[trigger]
            table_ids@.contains(id) && reader::unopened::<F>(
                names::path_in(dir@, names::sst_name(id)),
                e@,
            ),
{
    let n: usize = table_ids.len();
    let mut out: Vec<Arc<SsTable<F>>> = Vec::new();
    let mut i: usize = 0;
    while i < n
        invariant
            i <= n == table_ids@.len(),
            out@.len() == i,
            all_in_place(out@, dir@),
            forall|k: int|
                0 <= k < i ==> F::answered(
                    names::path_in(dir@, names::sst_name(table_ids@[k])),
                    OpenMode::Read,
                    Ok((#[trigger] out@[k]).reader.contents()),
                ) && out@[k].reader.uses_bloom() == bloom,
            forall|k: int|
                0 <= k < i ==> (#[trigger] out@[k]).id == table_ids@[k] && out@[k].reader.wf(),
        decreases n - i,
    {
        let id: u64 = table_ids[i];
        let path = names::sst_path(dir, id);
        assert(table_ids@.contains(id));
        let reader = SsTableReader::open_on(disk, path.as_str(), bloom)?;
        out.push(Arc::new(SsTable { id, reader }));
        i += 1;
    }
    Ok(out)
}

spec fn write_views(writes: Seq<Write>) -> Seq<WriteView> {
    writes.map_values(|w: Write| w@)
}

/// What writes that are made together do, and when they fail.
///
/// They fail without a trace where something failed before, where no sequence
/// numbers are left for them, where the log's format or size does not take
/// them, and where the MemTable has no room. Otherwise they fail only if the
/// filesystem does, and leave nothing but a gap in the sequence numbers. Writes
/// that succeeded are as durable as the options ask for, after one sync of the log
/// for all of them.
pub open spec fn wrote<F: Fs>(
    before: &Db<F>,
    after: &Db<F>,
    r: Result<()>,
    writes: Seq<WriteView>,
) -> bool {
    let counted = wal::is_counted(before@.log_kind());
    let batch = before@.stamped(writes);
    match before@.failure {
        Some(m) => r is Err && r->Err_0@ == ErrorView::Poisoned(m) && after@ == before@,
        None => if writes.len() == 0 {
            r is Ok && after@ == before@
        } else if before@.next_seq + writes.len() > u64::MAX {
            r is Err && r->Err_0@ == out_of_seqs() && after@ == before@
        } else if (counted || writes.len() == 1) && !wal::batch_fits(counted, batch) {
            r is Err && r->Err_0@ == too_large() && after@ == before@
        } else if !rebuild::has_room(before@.active, batch) {
            r is Err && r->Err_0@ == memtable_full() && after@ == before@
        } else if !counted && writes.len() > 1 {
            r is Err && r->Err_0@ == ErrorView::BadFormat(
                wal::refusal(before.log_path(), writes.len()),
            ) && after@ == (DbView { next_seq: (before@.next_seq + writes.len()) as u64, ..before@ })
        } else {
            match r {
                Ok(_) => {
                    &&& after@ == before@.with_writes(writes)
                    &&& before.options().sync_wal == SyncMode::Durable ==> after.log_is_synced()
                    &&& after.log_syncs() == before.log_syncs().push(
                        (before.options().sync_wal, after@.log),
                    )
                },
                Err(e) => wal::unlogged::<F::File>(
                    before@.with_writes(writes).log.len(),
                    e@,
                ) && after@ == (DbView {
                    next_seq: (before@.next_seq + writes.len()) as u64,
                    ..before@
                }),
            }
        },
    }
}

impl<F: Fs> Db<F> {
    /// Append edits to the manifest. The names of the tables that they speak of
    /// have been made durable: the manifest must not name what can get lost.
    fn append_edits(&mut self, edits: &[VersionEdit]) -> (r: Result<()>)
        requires
            F::dir_synced(old(self).dir_text()),
        ensures
            *final(self) == (Db { manifest: final(self).manifest, ..*old(self) }),
            r is Ok ==> {
                &&& final(self).manifest.contents() == old(self).manifest.contents() + old(
                    self,
                ).manifest.buffered() + frame::frames(
                    old(self).manifest.frame_checksum(),
                    manifest::edit_payloads(edits@),
                )
                &&& final(self).manifest.buffered() == Seq::<u8>::empty()
                &&& F::File::synced(
                    old(self).manifest.place(),
                    final(self).manifest.contents(),
                )
            },
            r matches Err(e) ==> fs::handed_on::<F::File>(e@),
            old(self).manifest.contents().is_prefix_of(final(self).manifest.contents()),
            final(self).manifest.place() == old(self).manifest.place(),
            final(self).manifest.frame_checksum() == old(self).manifest.frame_checksum(),
            final(self).manifest.dir_text() == old(self).manifest.dir_text(),
            final(self).manifest.live_generation() == old(self).manifest.live_generation(),
    {
        self.manifest.append_batch(edits)
    }

    /// Rename a file in the directory, and make its new name durable: what is
    /// about to depend on the name must not outlive it.
    fn move_in(&mut self, from: &str, to: &str) -> (r: Result<()>)
        ensures
            *final(self) == (Db { disk: final(self).disk, ..*old(self) }),
            r is Ok ==> F::renamed(from@, to@) && F::dir_synced(old(self).dir_text()),
            r is Ok ==> final(self).changes() == old(self).changes().push(
                Change::Renamed { from: from@, to: to@, ok: true },
            ),
            exists|ok: bool|
                final(self).changes() == old(self).changes().push(
                    #[trigger] renaming(from@, to@, ok),
                ),
            r matches Err(e) ==> fs::handed_on::<F::File>(e@),
    {
        let moved = self.disk.rename(from, to);
        proof {
            let ok = moved is Ok;
            assert(renaming(from@, to@, ok) == Change::Renamed { from: from@, to: to@, ok });
        }
        match moved {
            Ok(()) => {},
            Err(e) => return Err(Error::Io(e)),
        }
        match self.disk.sync_dir(self.dir.as_str()) {
            Ok(()) => Ok(()),
            Err(e) => Err(Error::Io(e)),
        }
    }
}

/// The change that renaming a file makes, or the attempt.
pub open spec fn renaming(from: Seq<char>, to: Seq<char>, ok: bool) -> Change {
    Change::Renamed { from, to, ok }
}

fn copy_value(value: &Option<Vec<u8>>) -> (r: Option<Vec<u8>>)
    ensures
        value_view(r) == value_view(*value),
{
    match value {
        Some(v) => Some(bytes::copy(v.as_slice())),
        None => None,
    }
}

/// The records that writes make, with consecutive sequence numbers.
fn stamp(writes: &[Write], first: u64) -> (r: Vec<Record>)
    requires
        first + writes@.len() <= u64::MAX,
    ensures
        record::views(r@) == Seq::new(
            writes@.len(),
            |i: int|
                RecordView {
                    key: writes@[i]@.key,
                    value: writes@[i]@.value,
                    seq: (first + i) as u64,
                },
        ),
{
    let n: usize = writes.len();
    let mut records: Vec<Record> = Vec::new();
    let mut i: usize = 0;
    while i < n
        invariant
            i <= n == writes@.len(),
            first + n <= u64::MAX,
            records@.len() == i,
            forall|k: int|
                0 <= k < i ==> (#[trigger] records@[k])@ == (RecordView {
                    key: writes@[k]@.key,
                    value: writes@[k]@.value,
                    seq: (first + k) as u64,
                }),
        decreases n - i,
    {
        let key = bytes::copy(writes[i].key.as_slice());
        let value = copy_value(&writes[i].value);
        records.push(Record { key, value, seq: first + i as u64 });
        i += 1;
    }
    proof {
        assert(record::views(records@) =~= Seq::new(
            writes@.len(),
            |i: int|
                RecordView {
                    key: writes@[i]@.key,
                    value: writes@[i]@.value,
                    seq: (first + i) as u64,
                },
        ));
    }
    records
}

} // verus!
