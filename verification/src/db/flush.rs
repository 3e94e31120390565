//! Flushing: the MemTable becomes a table.

use std::sync::Arc;
use vstd::prelude::*;
use vstd::slice::slice_subrange;

use super::{Db, SsTable};
use crate::directory::{WAL_FILENAME, WAL_TMP_FILENAME};
use crate::disk;
use crate::disk::{Change, Disk, Holder, Volume};
use crate::error::{Error, ErrorView, Result};
use crate::fs;
use crate::fs::{Fs, OpenMode};
use crate::header::{Kind, WAL_VERSION};
use crate::manifest::VersionEdit;
use crate::memtable::MemTable;
use crate::names;
use crate::record;
use crate::record::RecordView;
use crate::sstable;
use crate::sstable::reader;
use crate::sstable::{SsTableReader, SsTableWriter};
use crate::state;
use crate::state::{DbView, StoredTable};
use crate::text;
use crate::wal;
use crate::wal::Wal;

verus! {

/// A flush that is under way: a frozen MemTable, which can be written to disk
/// while the database takes writes.
pub struct Flush {
    table: Arc<MemTable>,
    tmp_path: String,
}

impl Flush {
    /// The records to be written.
    pub closed spec fn records(&self) -> Seq<RecordView> {
        self.table@
    }

    /// Where they are to be written.
    pub closed spec fn tmp_path_text(&self) -> Seq<char> {
        self.tmp_path@
    }

    /// Write the records to a table, beside where it will be published.
    ///
    /// What stands at that path when this returns is a table of these records: the
    /// file was written once, and nothing was done after it was put down.
    pub fn write<F: Fs, V: Volume<F>>(&self, fs: V) -> (r: Result<u64>)
        ensures
            r matches Ok(n) ==> n == self.records().len() && sstable::is_stored::<F>(
                self.tmp_path_text(),
                self.records(),
            ),
            r is Ok ==> sstable::was_written::<F>(self.tmp_path_text(), self.records()),
            r is Err ==> exists|done: Seq<Change>| #[trigger]
                disk::ended::<F>(done) && disk::confined(done, set![self.tmp_path_text()]),
            r matches Err(e) ==> sstable::unwritten::<F::File>(self.records(), e@),
    {
        SsTableWriter::write(fs, self.tmp_path.as_str(), self.table.as_slice())
    }

    /// Write the records to a table, as [`Flush::write`] does.
    fn write_on<H: Holder>(&self, disk: &mut Disk<H>) -> (r: Result<u64>)
        ensures
            r matches Ok(n) ==> n == self.records().len() && sstable::is_stored::<H::F>(
                self.tmp_path_text(),
                self.records(),
            ),
            r is Ok ==> sstable::wrote(
                old(disk).changes(),
                final(disk).changes(),
                self.tmp_path_text(),
                self.records(),
            ),
            disk::went_on(
                old(disk).changes(),
                final(disk).changes(),
                set![self.tmp_path_text()],
            ),
            disk::is_scratch(self.tmp_path_text()) ==> disk::went_softly(
                old(disk).changes(),
                final(disk).changes(),
            ),
            r matches Err(e) ==> sstable::unwritten::<<H::F as Fs>::File>(self.records(), e@),
    {
        SsTableWriter::write_on(disk, self.tmp_path.as_str(), self.table.as_slice())
    }
}

/// The path of the file that a table is written to before it is published.
pub open spec fn tmp_path(dir: Seq<char>, id: u64) -> Seq<char> {
    names::path_in(dir, names::sst_name(id)) + ".tmp"@
}

/// What is written beside a table or the log is written anew at any time.
pub proof fn scratch_paths(dir: Seq<char>, id: u64)
    ensures
        disk::is_scratch(tmp_path(dir, id)),
        disk::is_scratch(names::path_in(dir, WAL_TMP_FILENAME@)),
{
    reveal_strlit(".tmp");
    reveal_strlit("wal.log.tmp");
    assert(tmp_path(dir, id).last() == ".tmp"@[3]);
    names::path_ends_in_name(dir, WAL_TMP_FILENAME@);
}

/// What is done to put a rewritten log in the place of the live one.
pub open spec fn rewriting(dir: Seq<char>) -> Seq<Change> {
    let tmp = names::path_in(dir, WAL_TMP_FILENAME@);
    seq![
        Change::Opened { path: tmp, mode: OpenMode::Truncate },
        Change::Renamed { from: tmp, to: names::path_in(dir, WAL_FILENAME@), ok: true },
    ]
}

/// What is done to publish the table with this id, which stands beside where it
/// belongs: it is moved there, and the log is rewritten.
pub open spec fn publishing(dir: Seq<char>, id: u64) -> Seq<Change> {
    seq![
        Change::Renamed {
            from: tmp_path(dir, id),
            to: names::path_in(dir, names::sst_name(id)),
            ok: true,
        },
    ] + rewriting(dir)
}

/// What is done to flush: a file with these bytes is written for the table with
/// this id, and published.
pub open spec fn flushing(dir: Seq<char>, id: u64, file: Seq<u8>) -> Seq<Change> {
    sstable::written_as(tmp_path(dir, id), file) + publishing(dir, id)
}

/// The paths that rewriting the log is about.
pub open spec fn log_files(dir: Seq<char>) -> Set<Seq<char>> {
    set![names::path_in(dir, WAL_TMP_FILENAME@), names::path_in(dir, WAL_FILENAME@)]
}

/// The paths that a flush to the table with this id is about.
pub open spec fn flush_files(dir: Seq<char>, id: u64) -> Set<Seq<char>> {
    set![
        tmp_path(dir, id),
        names::path_in(dir, names::sst_name(id)),
        names::path_in(dir, WAL_TMP_FILENAME@),
        names::path_in(dir, WAL_FILENAME@),
    ]
}

/// What a call leaves that failed for good: everything refuses from then on,
/// and says why.
pub open spec fn poisoned<T>(after: DbView, r: Result<T>) -> bool {
    &&& after.failure is Some
    &&& r is Err
    &&& r->Err_0@ == ErrorView::Poisoned(after.failure->0)
}

/// What a call leaves that was refused because something failed before.
pub open spec fn refused<T>(before: DbView, after: DbView, r: Result<T>) -> bool {
    &&& after == before
    &&& poisoned(after, r)
}

/// What a failure leaves as it was: everything but the manifest, which may have
/// taken some of what it was given, behind what it held.
pub open spec fn stopped(before: DbView, after: DbView) -> bool {
    &&& after == (DbView { failure: after.failure, manifest: after.manifest, ..before })
    &&& before.manifest.is_prefix_of(after.manifest)
}

/// Whether this table is what was read at the path that its id gives it, opened
/// as the options say.
pub open spec fn is_published<F: Fs>(place: &Db<F>, t: StoredTable) -> bool {
    &&& F::answered(
        names::path_in(place.dir_text(), names::sst_name(t.id)),
        OpenMode::Read,
        Ok(t.file),
    )
    &&& t.bloom == place.options().bloom_enabled
}

/// Whether an error is one that rewriting the log for these records can end in:
/// the filesystem's, or that one of them or all of them are too large for a log.
pub open spec fn unrewritten<F: Fs>(records: Seq<RecordView>, e: ErrorView) -> bool {
    ||| fs::handed_on::<F::File>(e)
    ||| e == super::too_large() && exists|i: int|
        0 <= i < records.len() && !wal::batch_fits(true, seq![#[trigger] records[i]])
    ||| e == wal::too_long() && exists|i: int|
        0 <= i <= records.len() && wal::log_of(
            state::singles(#[trigger] records.take(i)),
        ).len() > u64::MAX
}

/// Whether publishing the flush under way ended in this error, and left this. Until
/// the manifest names the table, everything stays: because the filesystem fails, or
/// because of what is wrong with the table that stands at its path. Behind that, the
/// table is there, and the log could not be rewritten.
pub open spec fn unpublished<F: Fs>(before: DbView, after: &Db<F>, e: ErrorView) -> bool {
    let id = before.frozen->0.id;
    let path = names::path_in(after.dir_text(), names::sst_name(id));
    ||| stopped(before, after@) && (fs::handed_on::<F::File>(e) || reader::unopened::<F>(path, e))
    ||| unrewritten::<F>(before.active, e) && exists|t: StoredTable|
        stopped(#[trigger] before.with_table(t), after@) && t.id == id && is_published(after, t)
            && F::renamed(tmp_path(after.dir_text(), id), path)
}

/// Whether `after` is `before` with its frozen MemTable published as a table, and
/// the manifest and the log made durable. Table and log were written beside where
/// they are and renamed.
pub open spec fn flushed<F: Fs>(before: DbView, after: &Db<F>) -> bool {
    let dir = after.dir_text();
    &&& before.frozen is Some
    &&& forall|i: int|
        0 <= i < before.active.len() ==> wal::batch_fits(true, seq![#[trigger] before.active[i]])
    &&& after.manifest_is_synced()
    &&& after.log_is_synced()
    &&& F::renamed(names::path_in(dir, WAL_TMP_FILENAME@), after.log_path())
    &&& F::dir_synced(dir)
    &&& exists|t: StoredTable|
        after@ == #[trigger] before.with_flushed(t) && t.id == before.frozen->0.id
            && is_published(after, t) && F::renamed(
            tmp_path(dir, t.id),
            names::path_in(dir, names::sst_name(t.id)),
        )
}

impl<F: Fs> Db<F> {
    /// Freeze the MemTable and put an empty one in its place. There is nothing
    /// to flush if it is empty, or if a flush is under way.
    pub fn freeze(&mut self) -> (r: Result<Option<Flush>>)
        requires
            old(self).wf(),
        ensures
            final(self).wf(),
            final(self).same_place(old(self)),
            final(self).changes() == old(self).changes(),
            old(self)@.failure is Some ==> refused(old(self)@, final(self)@, r),
            old(self)@.failure is None ==> if old(self)@.frozen is Some || old(self)@.active.len()
                == 0 {
                r is Ok && r->Ok_0 is None && final(self)@ == old(self)@
            } else if old(self)@.next_sst_id == u64::MAX {
                &&& poisoned(final(self)@, r)
                &&& final(self)@ == (DbView {
                    failure: Some(super::out_of_ids().text()),
                    ..old(self)@
                })
            } else {
                &&& r matches Ok(Some(job))
                &&& job.records() == old(self)@.active
                &&& job.tmp_path_text() == tmp_path(old(self).dir_text(), old(self)@.next_sst_id)
                &&& final(self)@ == old(self)@.with_frozen()
            },
    {
        self.health()?;
        if self.frozen.is_some() || self.active.is_empty() {
            return Ok(None);
        }
        if self.next_sst_id == u64::MAX {
            return Err(self.fail(Error::corrupt("table ids are exhausted")));
        }
        let ghost before = self@;
        let id: u64 = self.next_sst_id;
        let mut table = MemTable::new(self.opts.memtable_threshold);
        std::mem::swap(&mut table, &mut self.active);
        let table = Arc::new(table);
        self.frozen = Some(Arc::clone(&table));
        self.frozen_id = id;
        self.next_sst_id = id + 1;
        proof {
            state::freeze_keeps_wf(before);
            assert(self@ =~= before.with_frozen());
        }
        Ok(Some(Flush { table, tmp_path: self.tmp_path(id) }))
    }

    /// Where the table with this id is written before it is published.
    pub(super) fn tmp_path(&self, id: u64) -> (r: String)
        ensures
            r@ == tmp_path(self.dir_text(), id),
    {
        let path = names::sst_path(self.dir.as_str(), id);
        text::joined(path.as_str(), ".tmp")
    }

    /// The flush that is under way.
    pub fn pending_flush(&self) -> (r: Option<Flush>)
        ensures
            match self@.frozen {
                Some(f) => r is Some && r->0.records() == f.records && r->0.tmp_path_text()
                    == tmp_path(self.dir_text(), f.id),
                None => r is None,
            },
    {
        match &self.frozen {
            Some(table) => Some(
                Flush { table: Arc::clone(table), tmp_path: self.tmp_path(self.frozen_id) },
            ),
            None => None,
        }
    }

    /// Publish the table that the flush under way has written, and rewrite the
    /// log so that it backs only what was written since the MemTable was
    /// frozen.
    pub fn publish_flush(&mut self) -> (r: Result<()>)
        requires
            old(self).wf(),
        ensures
            final(self).wf(),
            final(self).same_place(old(self)),
            old(self)@.failure is Some ==> refused(old(self)@, final(self)@, r),
            old(self)@.failure is None ==> if old(self)@.frozen is None {
                r is Ok && final(self)@ == old(self)@
            } else {
                match r {
                    Ok(_) => flushed(old(self)@, final(self)),
                    Err(_) => poisoned(final(self)@, r) && exists|e: ErrorView|
                        unpublished(old(self)@, final(self), e) && final(self)@.failure == Some(
                            #[trigger] e.text(),
                        ),
                }
            },
            old(self)@.failure is Some || old(self)@.frozen is None ==> final(self).changes()
                == old(self).changes(),
            old(self)@.failure is None && old(self)@.frozen is Some && r is Ok
                ==> final(self).changes() == old(self).changes() + publishing(
                old(self).dir_text(),
                old(self)@.frozen->0.id,
            ),
            r is Err && old(self)@.failure is None ==> disk::went_on(
                old(self).changes(),
                final(self).changes(),
                flush_files(old(self).dir_text(), old(self)@.frozen->0.id),
            ),
    {
        self.health()?;
        if self.frozen.is_none() {
            return Ok(());
        }
        match self.publish() {
            Ok(()) => Ok(()),
            Err(e) => Err(self.fail(e)),
        }
    }

    fn publish(&mut self) -> (r: Result<()>)
        requires
            old(self).wf(),
            old(self)@.failure is None,
            old(self)@.frozen is Some,
        ensures
            final(self).stands(),
            final(self).same_place(old(self)),
            final(self)@.failure is None,
            r is Ok ==> final(self).wf() && flushed(old(self)@, final(self)),
            r matches Err(e) ==> unpublished(old(self)@, final(self), e@),
            r is Ok ==> final(self).changes() == old(self).changes() + publishing(
                old(self).dir_text(),
                old(self)@.frozen->0.id,
            ),
            disk::went_on(
                old(self).changes(),
                final(self).changes(),
                flush_files(old(self).dir_text(), old(self)@.frozen->0.id),
            ),
    {
        let ghost before = self@;
        let ghost start = self.changes();
        let ghost dir = self.dir_text();
        let id: u64 = self.frozen_id;
        let path = names::sst_path(self.dir.as_str(), id);
        let tmp = self.tmp_path(id);
        // The writer has synced what is in the file. Its name is another thing,
        // and the one that the manifest is about to depend on.
        let moved = self.move_in(tmp.as_str(), path.as_str());
        let ghost there = self.changes();
        proof {
            let files = flush_files(dir, id);
            let ok = choose|ok: bool|
                there == start.push(#[trigger] super::renaming(tmp@, path@, ok));
            let change = super::renaming(tmp@, path@, ok);
            scratch_paths(dir, id);
            disk::went_nowhere(start, files);
            disk::went_on_once(start, start, change, files);
            disk::went_softly_once(start, start, change);
            super::all_kept_softly(start, there, dir, before.ids());
            assert(self@ == before);
        }
        moved?;
        let reader = SsTableReader::open_on(
            &self.disk,
            path.as_str(),
            self.opts.bloom_enabled,
        )?;
        // The manifest before the log: until it names the table, the log is
        // what backs these records.
        let edits = vec![
            VersionEdit::AddTable { id },
            VersionEdit::SetNextSstId(self.next_sst_id),
            VersionEdit::SetNextSeq(self.next_seq),
        ];
        let added = self.append_edits(edits.as_slice());
        assert(self@.ids() =~= before.ids());
        added?;
        // The table before the log and the frozen MemTable go, so that reads
        // find these records all the time.
        let table: SsTable<F> = SsTable { id, reader };
        let ghost t = table.stored();
        let ghost tables_before = self.sstables@;
        self.sstables.push(Arc::new(table));
        proof {
            assert(super::stored(self.sstables@) =~= super::stored(tables_before).push(t));
            assert(stopped(before.with_table(t), self@));
            state::table_keeps_sound(before, t);
            assert(self@.ids() =~= before.with_table(t).ids());
            assert(there.drop_last() =~= start);
            names::table_path_ends(dir, id);
            scratch_paths(dir, id);
            assert(disk::kept(there, path@));
            assert forall|i: int| 0 <= i < self@.ids().len() implies disk::kept(
                there,
                names::path_in(dir, names::sst_name(#[trigger] self@.ids()[i])),
            ) by {
                if i < before.ids().len() {
                    assert(self@.ids()[i] == before.ids()[i]);
                } else {
                    assert(self@.ids()[i] == id);
                }
            }
        }
        let ghost listed = self@;
        let rewritten = self.rewrite_wal();
        proof {
            super::all_kept_softly(there, self.changes(), dir, listed.ids());
            assert(self@ == listed);
            disk::went_on_further(
                start,
                there,
                self.changes(),
                flush_files(dir, id),
                log_files(dir),
            );
            if rewritten is Ok {
                assert(self.changes() =~= start + publishing(dir, id));
            }
        }
        let fresh = rewritten?;
        self.wal = fresh;
        self.frozen = None;
        proof {
            state::flush_keeps_wf(before, t);
            assert(edits@ =~= seq![
                VersionEdit::AddTable { id },
                VersionEdit::SetNextSstId(before.next_sst_id),
                VersionEdit::SetNextSeq(before.next_seq),
            ]);
            assert(before.manifest + Seq::<u8>::empty() =~= before.manifest);
            assert(self@ =~= before.with_flushed(t));
        }
        Ok(())
    }

    /// A log that backs what the MemTable holds, in place of the live one.
    ///
    /// It is built beside the live log and renamed over it. To truncate the
    /// live log would destroy the only durable copy of every write since the
    /// MemTable was frozen, for as long as it takes to write them back.
    fn rewrite_wal(&mut self) -> (r: Result<Wal<F>>)
        requires
            old(self).stands(),
        ensures
            *final(self) == (Db { disk: final(self).disk, ..*old(self) }),
            r is Ok ==> final(self).changes() == old(self).changes() + rewriting(
                old(self).dir_text(),
            ),
            disk::went_on(
                old(self).changes(),
                final(self).changes(),
                log_files(old(self).dir_text()),
            ),
            disk::went_softly(old(self).changes(), final(self).changes()),
            r matches Ok(w) ==> {
                &&& w.sound()
                &&& w.log() == wal::log_of(state::singles(old(self)@.active))
                &&& w.path_text() == old(self).log_path()
                &&& w.sync_mode() == old(self).options().sync_wal
                &&& w.is_synced()
                &&& forall|i: int|
                    0 <= i < old(self)@.active.len() ==> wal::batch_fits(
                        true,
                        seq![#[trigger] old(self)@.active[i]],
                    )
                &&& F::renamed(
                    names::path_in(old(self).dir_text(), WAL_TMP_FILENAME@),
                    old(self).log_path(),
                )
                &&& F::dir_synced(old(self).dir_text())
            },
            r matches Err(e) ==> unrewritten::<F>(old(self)@.active, e@),
    {
        let tmp = names::join(self.dir.as_str(), WAL_TMP_FILENAME);
        let ghost dir = self.dir_text();
        let ghost start = self.changes();
        let ghost was = *self;
        proof {
            let change = Change::Opened { path: tmp@, mode: OpenMode::Truncate };
            scratch_paths(dir, 0);
            disk::went_nowhere(start, log_files(dir));
            disk::went_on_once(start, start, change, log_files(dir));
            disk::went_softly_once(start, start, change);
        }
        let mut fresh = Wal::create_on(&mut self.disk, tmp.as_str(), self.opts.sync_wal)?;
        let ghost mid = self.changes();
        let records = self.active.as_slice();
        let n: usize = records.len();
        let ghost all = self@.active;
        let mut i: usize = 0;
        proof {
            wal::log_of_none();
            assert(state::singles(all.take(0)) =~= Seq::empty());
        }
        while i < n
            invariant
                i <= n == records@.len(),
                all == record::views(records@),
                all == self@.active,
                was == *old(self),
                *self == (Db { disk: self.disk, ..was }),
                dir == was.dir_text(),
                start == was.changes(),
                mid == self.changes(),
                disk::went_on(start, mid, log_files(dir)),
                disk::went_softly(start, mid),
                fresh.wf(),
                fresh.path_text() == names::path_in(self.dir_text(), WAL_TMP_FILENAME@),
                fresh.log() == wal::log_of(state::singles(all.take(i as int))),
                fresh.writes_as(Kind::Versioned(WAL_VERSION)),
                fresh.sync_mode() == self.opts.sync_wal,
                forall|k: int| 0 <= k < i ==> wal::batch_fits(true, seq![#[trigger] all[k]]),
            decreases n - i,
        {
            let one = slice_subrange(records, i, i + 1);
            proof {
                assert(record::views(one@) =~= seq![all[i as int]]);
            }
            if !wal::fits(true, one) {
                assert(!wal::batch_fits(true, seq![all[i as int]]));
                return Err(Error::bad_format("a write of this size cannot be logged"));
            }
            proof {
                let done = state::singles(all.take(i as int));
                wal::log_grows(done, seq![all[i as int]]);
                assert(state::singles(all.take(i + 1)) =~= done.push(seq![all[i as int]]));
            }
            fresh.append(&records[i])?;
            i += 1;
        }
        assert(all.take(n as int) =~= all);
        fresh.sync()?;
        let path = names::join(self.dir.as_str(), WAL_FILENAME);
        let moved = fresh.rename_to_on(&mut self.disk, path.as_str());
        proof {
            let ok = moved is Ok;
            let change = Change::Renamed { from: tmp@, to: path@, ok };
            disk::went_on_once(start, mid, change, log_files(dir));
            disk::went_softly_once(start, mid, change);
            if ok {
                assert(self.changes() =~= start + rewriting(dir));
            }
        }
        moved?;
        match self.disk.sync_dir(self.dir.as_str()) {
            Ok(()) => {},
            Err(e) => return Err(Error::Io(e)),
        }
        proof {
            state::rewritten_log(all);
        }
        Ok(fresh)
    }

    /// Flush the MemTable to a table, and leave compaction for later. If a
    /// flush is under way, finish that one. An empty MemTable needs no flush.
    pub fn flush_only(&mut self) -> (r: Result<()>)
        requires
            old(self).wf(),
        ensures
            final(self).wf(),
            final(self).same_place(old(self)),
            flush_done(old(self)@, final(self), r),
            flush_left(old(self), final(self), r),
    {
        reveal(flush_left);
        let ghost start = self.changes();
        let ghost dir = self.dir_text();
        self.health()?;
        if self.frozen.is_none() {
            let frozen = self.freeze();
            proof {
                disk::went_nowhere(start, flush_files(dir, old(self)@.next_sst_id));
            }
            if frozen?.is_none() {
                return Ok(());
            }
        }
        let ghost id = self@.frozen->0.id;
        let ghost records = self@.frozen_records();
        if let Some(job) = self.pending_flush() {
            let ghost was = *self;
            let written = job.write_on(&mut self.disk);
            proof {
                scratch_paths(dir, id);
                super::all_kept_softly(start, self.changes(), dir, was@.ids());
                assert(self@ == was@);
                disk::went_nowhere(start, flush_files(dir, id));
                disk::went_on_further(
                    start,
                    start,
                    self.changes(),
                    flush_files(dir, id),
                    set![tmp_path(dir, id)],
                );
            }
            match written {
                Ok(_) => {},
                Err(e) => return Err(self.fail(e)),
            }
        }
        let ghost mid = self.changes();
        let r = self.publish_flush();
        proof {
            if r is Ok {
                wrote_then_published(start, mid, self.changes(), dir, id, records);
            } else {
                disk::went_on_further(
                    start,
                    mid,
                    self.changes(),
                    flush_files(dir, id),
                    flush_files(dir, id),
                );
            }
        }
        r
    }
}

/// Whether all that was done since is a flush of these records to the table with
/// this id: a file that is a table of them was written and published.
pub open spec fn has_flushed(
    before: Seq<Change>,
    now: Seq<Change>,
    dir: Seq<char>,
    id: u64,
    records: Seq<RecordView>,
) -> bool {
    exists|file: Seq<u8>|
        now == before + #[trigger] flushing(dir, id, file) && sstable::is_table(file, records)
}

proof fn wrote_then_published(
    start: Seq<Change>,
    mid: Seq<Change>,
    end: Seq<Change>,
    dir: Seq<char>,
    id: u64,
    records: Seq<RecordView>,
)
    requires
        sstable::wrote(start, mid, tmp_path(dir, id), records),
        end == mid + publishing(dir, id),
    ensures
        has_flushed(start, end, dir, id, records),
{
    let file = choose|file: Seq<u8>|
        mid == start + #[trigger] sstable::written_as(tmp_path(dir, id), file)
            && sstable::is_table(file, records);
    assert(end =~= start + flushing(dir, id, file));
}

/// What a database is whose MemTable is to be flushed: with a frozen MemTable.
pub open spec fn to_flush(db: DbView) -> DbView {
    if db.frozen is None {
        db.with_frozen()
    } else {
        db
    }
}

/// What a flush does to the filesystem: nothing where there is nothing to flush or
/// something failed before. Else a file that is a table of the records of the frozen
/// MemTable is written and published, and nothing else is done. A flush that fails
/// leaves everything alone that is not of its table or of the log.
#[verifier::opaque]
pub open spec fn flush_left<F: Fs>(before: &Db<F>, after: &Db<F>, r: Result<()>) -> bool {
    let frozen = to_flush(before@);
    let dir = before.dir_text();
    let id = frozen.frozen->0.id;
    if before@.failure is Some || (before@.frozen is None && before@.active.len() == 0) {
        after.changes() == before.changes()
    } else {
        match r {
            Ok(_) => has_flushed(
                before.changes(),
                after.changes(),
                dir,
                id,
                frozen.frozen_records(),
            ),
            Err(_) => disk::went_on(before.changes(), after.changes(), flush_files(dir, id)),
        }
    }
}

/// What a flush does: nothing where there is nothing to flush; else the frozen
/// MemTable becomes a table, and if there was none, the active one is frozen
/// first. The table is written beside where it is published. Once a flush fails,
/// everything is refused, but nothing is lost, and the reason is kept.
pub open spec fn flush_done<F: Fs>(before: DbView, after: &Db<F>, r: Result<()>) -> bool {
    match before.failure {
        Some(_) => refused(before, after@, r),
        None => if before.frozen is None && before.active.len() == 0 {
            r is Ok && after@ == before
        } else {
            let frozen = if before.frozen is None {
                before.with_frozen()
            } else {
                before
            };
            match r {
                Ok(_) => (before.frozen is None ==> before.next_sst_id < u64::MAX) && flushed(
                    frozen,
                    after,
                ) && sstable::is_stored::<F>(
                    tmp_path(after.dir_text(), frozen.frozen->0.id),
                    frozen.frozen_records(),
                ),
                Err(_) => poisoned(after@, r) && exists|e: ErrorView|
                    flush_failed(before, after, e) && after@.failure == Some(
                        #[trigger] e.text(),
                    ),
            }
        },
    }
}

/// Whether a flush failed for this reason, and left this: no id is left for the
/// table, or once the MemTable is frozen, the table cannot be written or not be
/// published.
pub open spec fn flush_failed<F: Fs>(before: DbView, after: &Db<F>, e: ErrorView) -> bool {
    if before.frozen is None && before.next_sst_id == u64::MAX {
        stopped(before, after@) && e == super::out_of_ids()
    } else {
        let frozen = if before.frozen is None {
            before.with_frozen()
        } else {
            before
        };
        ||| stopped(frozen, after@) && sstable::unwritten::<F::File>(frozen.frozen_records(), e)
        ||| unpublished(frozen, after, e)
    }
}

} // verus!
