//! Compaction: a run of tables becomes one.

use std::sync::Arc;
use vstd::prelude::*;

use super::flush;
use super::{Db, SsTable};
use crate::compaction;
use crate::disk;
use crate::disk::{Change, Disk, Holder, Volume};
use crate::error::{Error, ErrorView, Result};
use crate::fs;
use crate::fs::Fs;
use crate::manifest::VersionEdit;
use crate::memtable;
use crate::names;
use crate::record::RecordView;
use crate::snapshots;
use crate::sstable;
use crate::sstable::reader;
use crate::sstable::SsTableReader;
use crate::state;
use crate::state::{DbView, MergeStep, StoredTable};
use crate::text;
use crate::tiers;

verus! {

/// A compaction that is under way: a run of tables, which can be merged while
/// the database takes writes and flushes.
pub struct Compaction<F: Fs> {
    run: Vec<Arc<SsTable<F>>>,
    start: usize,
    tmp_path: String,
    horizon: u64,
}

impl<F: Fs> Compaction<F> {
    /// The run of tables.
    pub closed spec fn tables(&self) -> Seq<StoredTable> {
        super::stored(self.run@)
    }

    /// Where the run starts among the database's tables.
    pub closed spec fn first(&self) -> int {
        self.start as int
    }

    /// Where the merged table is to be written.
    pub closed spec fn tmp_path_text(&self) -> Seq<char> {
        self.tmp_path@
    }

    /// Every version that is seen at this horizon or above is kept.
    pub closed spec fn keeps_from(&self) -> u64 {
        self.horizon
    }

    /// What holds of every compaction.
    pub closed spec fn wf(&self) -> bool {
        &&& self.run@.len() > 0
        &&& super::all_readable(self.run@)
        &&& disk::is_scratch(self.tmp_path@)
    }

    /// Merge the run to a table, beside where it will be published. Deletions
    /// are dropped if there is no older table that they could hide something
    /// in.
    ///
    /// What stands at that path when this returns is such a table: the file was
    /// written once, and nothing was done after it was put down.
    pub fn merge<V: Volume<F>>(&self, fs: V) -> (r: Result<u64>)
        requires
            self.wf(),
        ensures
            r matches Ok(n) ==> ({
                let inputs = run_records(self.tables());
                let left = compaction::compacted(inputs, self.keeps_from(), self.first() == 0);
                compaction::all_key_sorted(inputs) ==> n == left.len() && sstable::is_stored::<F>(
                    self.tmp_path_text(),
                    left,
                )
            }),
            r is Ok ==> exists|file: Seq<u8>|
                disk::ended::<F>(#[trigger] sstable::written_as(self.tmp_path_text(), file))
                    && self.is_outcome(file),
            r is Err ==> exists|done: Seq<Change>| #[trigger]
                disk::ended::<F>(done) && disk::confined(done, set![self.tmp_path_text()]),
            r matches Err(e) ==> unmerged::<F>(
                self.tables(),
                self.keeps_from(),
                self.first() == 0,
                e@,
            ),
    {
        let inputs = self.readers();
        let r = compaction::compact(
            fs,
            self.tmp_path.as_str(),
            inputs.as_slice(),
            self.start == 0,
            self.horizon,
        );
        proof {
            self.run_is_read(inputs@);
            if r is Ok {
                let file = choose|file: Seq<u8>|
                    disk::ended::<F>(#[trigger] sstable::written_as(self.tmp_path_text(), file))
                        && (compaction::all_key_sorted(compaction::tables_records(inputs@))
                        ==> sstable::is_table(
                        file,
                        compaction::compacted(
                            compaction::tables_records(inputs@),
                            self.horizon,
                            self.start == 0,
                        ),
                    ));
                assert(self.is_outcome(file));
            }
        }
        r
    }

    /// Merge the run to a table, as [`Compaction::merge`] does.
    fn merge_on<H: Holder<F = F>>(&self, disk: &mut Disk<H>) -> (r: Result<u64>)
        requires
            self.wf(),
        ensures
            r matches Ok(n) ==> ({
                let inputs = run_records(self.tables());
                let left = compaction::compacted(inputs, self.keeps_from(), self.first() == 0);
                compaction::all_key_sorted(inputs) ==> n == left.len() && sstable::is_stored::<F>(
                    self.tmp_path_text(),
                    left,
                )
            }),
            r is Ok ==> self.has_written(old(disk).changes(), final(disk).changes()),
            disk::went_on(
                old(disk).changes(),
                final(disk).changes(),
                set![self.tmp_path_text()],
            ),
            disk::went_softly(old(disk).changes(), final(disk).changes()),
            r matches Err(e) ==> unmerged::<F>(
                self.tables(),
                self.keeps_from(),
                self.first() == 0,
                e@,
            ),
    {
        let inputs = self.readers();
        let r = compaction::compact_on(
            disk,
            self.tmp_path.as_str(),
            inputs.as_slice(),
            self.start == 0,
            self.horizon,
        );
        proof {
            self.run_is_read(inputs@);
            if r is Ok {
                let file = choose|file: Seq<u8>|
                    disk.changes() == old(disk).changes() + #[trigger] sstable::written_as(
                        self.tmp_path_text(),
                        file,
                    ) && (compaction::all_key_sorted(compaction::tables_records(inputs@))
                        ==> sstable::is_table(
                        file,
                        compaction::compacted(
                            compaction::tables_records(inputs@),
                            self.horizon,
                            self.start == 0,
                        ),
                    ));
                assert(self.is_outcome(file));
            }
        }
        r
    }

    /// Whether all that was done since is that such a table was written.
    pub open spec fn has_written(&self, before: Seq<Change>, now: Seq<Change>) -> bool {
        exists|file: Seq<u8>|
            now == before + #[trigger] sstable::written_as(self.tmp_path_text(), file)
                && self.is_outcome(file)
    }

    /// Whether a file is a table of what compaction leaves of the run.
    pub open spec fn is_outcome(&self, file: Seq<u8>) -> bool {
        let inputs = run_records(self.tables());
        compaction::all_key_sorted(inputs) ==> sstable::is_table(
            file,
            compaction::compacted(inputs, self.keeps_from(), self.first() == 0),
        )
    }

    /// What is read of the run is what its tables hold.
    proof fn run_is_read(&self, inputs: Seq<&SsTableReader<F>>)
        requires
            self.wf(),
            inputs.len() == self.run@.len(),
            forall|k: int| 0 <= k < inputs.len() ==> *(#[trigger] inputs[k]) == self.run@[k].reader,
        ensures
            compaction::tables_records(inputs) == run_records(self.tables()),
            forall|k: int|
                0 <= k < inputs.len() ==> compaction::table_records(#[trigger] inputs[k])
                    == stored_records(self.tables()[k]),
    {
        assert forall|k: int| 0 <= k < inputs.len() implies compaction::table_records(
            #[trigger] inputs[k],
        ) == stored_records(self.tables()[k]) by {
            assert(self.run@[k].reader.wf());
            self.run@[k].reader.wf_facts();
            assert(self.tables()[k] == self.run@[k].stored());
        }
        assert(compaction::tables_records(inputs) =~= run_records(self.tables()));
    }

    /// The tables of the run.
    fn readers(&self) -> (r: Vec<&SsTableReader<F>>)
        requires
            self.wf(),
        ensures
            r@.len() == self.run@.len(),
            forall|k: int| 0 <= k < r@.len() ==> *(#[trigger] r@[k]) == self.run@[k].reader,
            forall|k: int| 0 <= k < r@.len() ==> (#[trigger] r@[k]).wf(),
    {
        let n: usize = self.run.len();
        let mut inputs: Vec<&SsTableReader<F>> = Vec::new();
        let mut i: usize = 0;
        while i < n
            invariant
                self.wf(),
                i <= n == self.run@.len(),
                inputs@.len() == i,
                forall|k: int| 0 <= k < i ==> *(#[trigger] inputs@[k]) == self.run@[k].reader,
            decreases n - i,
        {
            inputs.push(&self.run[i].reader);
            i += 1;
        }
        proof {
            assert forall|k: int| 0 <= k < inputs@.len() implies (#[trigger] inputs@[k]).wf() by {
                assert(self.run@[k].reader.wf());
            }
        }
        inputs
    }
}

/// The records in a table's file.
pub open spec fn stored_records(t: StoredTable) -> core::result::Result<
    Seq<RecordView>,
    ErrorView,
> {
    sstable::all_records(t.file, t.table().index)
}

/// Whether an error is one that merging a run of tables can end in: the
/// filesystem's, what is wrong with one of the tables, or that a table cannot
/// hold what is left.
pub open spec fn unmerged<F: Fs>(
    tables: Seq<StoredTable>,
    horizon: u64,
    drop_tombstones: bool,
    e: ErrorView,
) -> bool {
    let inputs = run_records(tables);
    ||| fs::handed_on::<F::File>(e)
    ||| exists|i: int|
        0 <= i < tables.len() && stored_records(#[trigger] tables[i]) == Err::<
            Seq<RecordView>,
            ErrorView,
        >(e)
    ||| e == sstable::table_too_large() && (compaction::all_key_sorted(inputs)
        ==> !sstable::is_writable(compaction::compacted(inputs, horizon, drop_tombstones)))
}

/// The records in the files of a run of tables.
pub open spec fn run_records(tables: Seq<StoredTable>) -> Seq<Seq<RecordView>> {
    tables.map_values(|t: StoredTable| stored_records(t)->Ok_0)
}

/// Whether this merge is one that a database with the directory and the options
/// of `place` makes: the run is at least as long as the threshold, the merged
/// table takes the id of the newest of them, and what was written for it is what
/// compaction leaves of the run.
pub open spec fn is_merge<F: Fs>(place: &Db<F>, db: DbView, m: MergeStep) -> bool {
    &&& 0 <= m.i < m.j <= db.tables.len()
    &&& m.j - m.i >= place.options().compaction_threshold
    &&& m.t.id == db.tables[m.j - 1].id
    &&& moved_in(place, flush::tmp_path(place.dir_text(), m.t.id), m.t)
    &&& exists|horizon: u64| #[trigger]
        snapshots::is_lowest(db.horizons, horizon) && ({
            let inputs = run_records(db.tables.subrange(m.i, m.j));
            compaction::all_key_sorted(inputs) ==> sstable::is_stored::<F>(
                flush::tmp_path(place.dir_text(), m.t.id),
                compaction::compacted(inputs, horizon, m.i == 0),
            )
        })
}

/// Whether these merges were made, one after the other.
pub open spec fn are_merges<F: Fs>(place: &Db<F>, db: DbView, merges: Seq<MergeStep>) -> bool {
    forall|k: int|
        0 <= k < merges.len() ==> is_merge(
            place,
            db.with_all_merged(merges.take(k)),
            #[trigger] merges[k],
        )
}

/// A run of tables, or none.
pub open spec fn run_view(run: Option<(usize, usize)>) -> Option<(int, int)> {
    match run {
        Some((i, j)) => Some((i as int, j as int)),
        None => None,
    }
}

/// The run of tables that a compaction is of, or none.
pub open spec fn job_view<F: Fs>(job: Option<Compaction<F>>) -> Option<(int, int)> {
    match job {
        Some(job) => Some((job.first(), job.first() + job.tables().len())),
        None => None,
    }
}

/// Whether the filesystem told these sizes of the files of tables with these ids.
pub open spec fn sizes_told<F: Fs>(dir: Seq<char>, table_ids: Seq<u64>, sizes: Seq<u64>) -> bool {
    &&& sizes.len() == table_ids.len()
    &&& forall|i: int|
        0 <= i < sizes.len() ==> F::sized(
            names::path_in(dir, names::sst_name(table_ids[i])),
            Ok(#[trigger] sizes[i]),
        )
}

/// Whether the filesystem was asked for the size of the file of one of the tables
/// with these ids, and answered with this error.
pub open spec fn size_untold<F: Fs>(dir: Seq<char>, table_ids: Seq<u64>, e: ErrorView) -> bool {
    exists|i: int|
        0 <= i < table_ids.len() && e is Io && F::sized(
            names::path_in(dir, names::sst_name(#[trigger] table_ids[i])),
            Err(e->Io_0),
        )
}

/// Whether this run falls due, or none: too few tables are never a run, and else
/// the sizes of their files decide.
pub open spec fn falls_due<F: Fs>(place: &Db<F>, db: DbView, run: Option<(int, int)>) -> bool {
    let threshold = place.options().compaction_threshold as nat;
    if db.tables.len() < threshold {
        run is None
    } else {
        exists|sizes: Seq<u64>| #[trigger]
            sizes_told::<F>(place.dir_text(), db.ids(), sizes) && tiers::picks(
                sizes,
                threshold,
                run,
            )
    }
}

/// Whether this is the path of a table in a directory, or of what is written
/// beside one.
pub open spec fn is_table_file(dir: Seq<char>, path: Seq<char>) -> bool {
    exists|id: u64|
        path == names::path_in(dir, #[trigger] names::sst_name(id)) || path == flush::tmp_path(
            dir,
            id,
        )
}

/// The paths of the tables in a directory, and of what is written beside them.
pub open spec fn table_files(dir: Seq<char>) -> Set<Seq<char>> {
    Set::new(|path: Seq<char>| is_table_file(dir, path))
}

/// What is done to remove the files of tables with these ids.
pub open spec fn removals(dir: Seq<char>, table_ids: Seq<u64>) -> Seq<Change> {
    table_ids.map_values(
        |id: u64| Change::Removed { path: names::path_in(dir, names::sst_name(id)), ok: true },
    )
}

/// What is done to put a table that was written at another path in the place of a
/// run: it is moved to the path that this id gives it, and then the files of the
/// others are removed.
pub open spec fn replacing(
    dir: Seq<char>,
    tmp: Seq<char>,
    id: u64,
    stale: Seq<u64>,
) -> Seq<Change> {
    seq![
        Change::Renamed {
            from: tmp,
            to: names::path_in(dir, names::sst_name(id)),
            ok: true,
        },
    ] + removals(dir, stale)
}

/// What is done to merge a run: a file with these bytes is written for the table
/// with this id, and put in the place of the run.
pub open spec fn merging(
    dir: Seq<char>,
    id: u64,
    file: Seq<u8>,
    stale: Seq<u64>,
) -> Seq<Change> {
    let tmp = flush::tmp_path(dir, id);
    sstable::written_as(tmp, file) + replacing(dir, tmp, id, stale)
}

/// Whether this merge was made with this file, and nothing else was done to the
/// filesystem: the file is a table of what compaction leaves of the run.
pub open spec fn merge_left<F: Fs>(
    before: &Db<F>,
    after: &Db<F>,
    m: MergeStep,
    horizon: u64,
    file: Seq<u8>,
) -> bool {
    let inputs = run_records(before@.tables.subrange(m.i, m.j));
    &&& 0 <= m.i < m.j <= before@.tables.len()
    &&& m.t.id == before@.tables[m.j - 1].id
    &&& after@ == before@.with_merged(m.i, m.j, m.t)
    &&& flush::is_published(after, m.t)
    &&& after.changes() == before.changes() + merging(
        before.dir_text(),
        m.t.id,
        file,
        before@.ids().subrange(m.i, m.j - 1),
    )
    &&& snapshots::is_lowest(before@.horizons, horizon)
    &&& compaction::all_key_sorted(inputs) ==> sstable::is_table(
        file,
        compaction::compacted(inputs, horizon, m.i == 0),
    )
}

/// What a step of compaction does to the filesystem: it makes one merge, or nothing.
/// One that fails leaves everything alone but the tables and what is written beside
/// them.
#[verifier::opaque]
pub open spec fn compact_left<F: Fs>(before: &Db<F>, after: &Db<F>, r: Result<bool>) -> bool {
    if before@.failure is Some {
        after.changes() == before.changes()
    } else {
        match r {
            Ok(true) => exists|m: MergeStep, horizon: u64, file: Seq<u8>| #[trigger]
                merge_left(before, after, m, horizon, file),
            Ok(false) => after.changes() == before.changes(),
            Err(_) => disk::went_on(
                before.changes(),
                after.changes(),
                table_files(before.dir_text()),
            ),
        }
    }
}

/// Where nothing was done, nothing is left of it.
proof fn nothing_left<F: Fs>(before: &Db<F>, after: &Db<F>, changes: Seq<Change>)
    requires
        before.changes() == changes,
        after.changes() == changes,
    ensures
        compact_left(before, after, Ok(false)),
        before@.failure is Some ==> forall|r: Result<bool>| #[trigger]
            compact_left(before, after, r),
        forall|e: Error| #[trigger] compact_left(before, after, Err(e)),
{
    reveal(compact_left);
    disk::went_nowhere(changes, table_files(before.dir_text()));
}

/// A step that failed left everything alone but tables.
proof fn failure_left<F: Fs>(before: &Db<F>, after: &Db<F>, e: Error)
    requires
        before@.failure is None,
        disk::went_on(before.changes(), after.changes(), table_files(before.dir_text())),
    ensures
        compact_left(before, after, Err(e)),
{
    reveal(compact_left);
}

/// A merge that was written and then not published left everything alone but tables.
proof fn publishing_failed<F: Fs>(
    before: &Db<F>,
    mid: &Db<F>,
    after: &Db<F>,
    job: &Compaction<F>,
    e: Error,
)
    requires
        before@.failure is None,
        mid.dir_text() == before.dir_text(),
        mid.planned(job),
        disk::went_on(before.changes(), mid.changes(), table_files(before.dir_text())),
        disk::went_on(
            mid.changes(),
            after.changes(),
            table_files(before.dir_text()).insert(job.tmp_path_text()),
        ),
    ensures
        compact_left(before, after, Err(e)),
{
    let dir = before.dir_text();
    let id = mid@.tables[job.first() + job.tables().len() - 1].id;
    assert(is_table_file(dir, flush::tmp_path(dir, id)));
    assert(table_files(dir).insert(job.tmp_path_text()) =~= table_files(dir));
    disk::went_on_further(
        before.changes(),
        mid.changes(),
        after.changes(),
        table_files(dir),
        table_files(dir),
    );
    failure_left(before, after, e);
}

/// A merge that was written and published is what a step makes.
proof fn merge_was_made<F: Fs>(
    before: &Db<F>,
    mid: &Db<F>,
    after: &Db<F>,
    job: &Compaction<F>,
    t: StoredTable,
)
    requires
        before@.failure is None,
        mid@ == before@,
        mid.dir_text() == before.dir_text(),
        mid.planned(job),
        job.has_written(before.changes(), mid.changes()),
        after@ == mid@.with_merged(job.first(), job.first() + job.tables().len(), t),
        t.id == mid@.tables[job.first() + job.tables().len() - 1].id,
        moved_in(after, job.tmp_path_text(), t),
        after.changes() == mid.changes() + replacing(
            mid.dir_text(),
            job.tmp_path_text(),
            job.tables().last().id,
            mid@.ids().subrange(job.first(), job.first() + job.tables().len() - 1),
        ),
    ensures
        compact_left(before, after, Ok(true)),
{
    reveal(compact_left);
    let i = job.first();
    let j = i + job.tables().len();
    let m = MergeStep { i, j, t };
    let file = choose|file: Seq<u8>|
        mid.changes() == before.changes() + #[trigger] sstable::written_as(
            job.tmp_path_text(),
            file,
        ) && job.is_outcome(file);
    let stale = before@.ids().subrange(i, j - 1);
    assert(job.tables().last() == before@.tables[j - 1]);
    assert(after.changes() =~= before.changes() + merging(
        before.dir_text(),
        t.id,
        file,
        stale,
    ));
    assert(merge_left(before, after, m, job.keeps_from(), file));
}

/// Whether one database became the other by steps of compaction alone, of which
/// these are what was between them.
pub open spec fn steps_left<F: Fs>(from: &Db<F>, to: &Db<F>, through: Seq<Db<F>>) -> bool {
    &&& through.len() > 0
    &&& through[0] == *from
    &&& through.last() == *to
    &&& forall|k: int|
        0 <= k < through.len() - 1 ==> compact_left(
            #[trigger] &through[k],
            &through[k + 1],
            Ok(true),
        )
}

/// Whether one database became the other by steps of compaction that each made a
/// merge, and then one that ended like this.
pub open spec fn all_steps_left<F: Fs>(from: &Db<F>, to: &Db<F>, r: Result<bool>) -> bool {
    exists|last: Db<F>, through: Seq<Db<F>>| #[trigger]
        steps_left(from, &last, through) && compact_left(&last, to, r)
}

proof fn one_step_more<F: Fs>(from: &Db<F>, last: &Db<F>, to: &Db<F>, through: Seq<Db<F>>)
    requires
        steps_left(from, last, through),
        compact_left(last, to, Ok(true)),
    ensures
        steps_left(from, to, through.push(*to)),
{
    let longer = through.push(*to);
    assert forall|k: int| 0 <= k < longer.len() - 1 implies compact_left(
        #[trigger] &longer[k],
        &longer[k + 1],
        Ok(true),
    ) by {
        assert(longer[k] == through[k]);
        if k < through.len() - 1 {
            assert(longer[k + 1] == through[k + 1]);
        }
    }
}

/// Whether the files of tables with these ids were removed.
pub open spec fn all_removed<F: Fs>(dir: Seq<char>, table_ids: Seq<u64>) -> bool {
    forall|i: int|
        0 <= i < table_ids.len() ==> F::removed(
            names::path_in(dir, names::sst_name(#[trigger] table_ids[i])),
            Ok(()),
        )
}

/// What is said of a run that is no longer where it was.
pub open spec fn vanished(id: u64) -> Seq<char> {
    "compacted run vanished from the live set: sst "@ + text::digits(id as nat)
}

impl<F: Fs> Db<F> {
    /// The lowest horizon of a snapshot in use, or `u64::MAX` if there is none.
    pub fn min_snapshot_seq(&self) -> (r: u64)
        ensures
            snapshots::is_lowest(self@.horizons, r),
    {
        self.horizons.lowest()
    }

    /// The run of tables that is to be merged next, by the sizes of their files.
    fn pick(&self) -> (r: Result<Option<(usize, usize)>>)
        requires
            self.wf(),
        ensures
            r matches Ok(Some((i, j))) ==> i < j <= self@.tables.len() && j - i
                >= self.options().compaction_threshold,
            r matches Ok(run) ==> falls_due(self, self@, run_view(run)),
            self@.tables.len() < self.options().compaction_threshold ==> r is Ok && r->Ok_0 is None,
            r matches Err(e) ==> size_untold::<F>(self.dir_text(), self@.ids(), e@),
    {
        let n: usize = self.sstables.len();
        if n < self.opts.compaction_threshold {
            return Ok(None);
        }
        let mut sizes: Vec<u64> = Vec::new();
        let mut i: usize = 0;
        while i < n
            invariant
                i <= n == self.sstables@.len(),
                self.wf(),
                n >= self.opts.compaction_threshold,
                sizes_told::<F>(self.dir_text(), self@.ids().take(i as int), sizes@),
            decreases n - i,
        {
            assert(self@.ids()[i as int] == self.sstables@[i as int].id);
            let size: u64 = match self.disk.size(self.sstables[i].reader.path()) {
                Ok(size) => size,
                Err(e) => return Err(Error::Io(e)),
            };
            sizes.push(size);
            i += 1;
        }
        assert(self@.ids().take(n as int) =~= self@.ids());
        Ok(tiers::pick_compaction(sizes.as_slice(), self.opts.compaction_threshold))
    }

    /// The compaction that falls due next.
    pub fn plan_compaction(&self) -> (r: Result<Option<Compaction<F>>>)
        requires
            self.wf(),
        ensures
            r matches Ok(Some(job)) ==> self.planned(&job),
            r matches Ok(job) ==> falls_due(self, self@, job_view(job)),
            self@.tables.len() < self.options().compaction_threshold ==> r is Ok && r->Ok_0 is None,
            r matches Err(e) ==> size_untold::<F>(self.dir_text(), self@.ids(), e@),
    {
        let (start, end) = match self.pick()? {
            Some(found) => found,
            None => return Ok(None),
        };
        let mut run: Vec<Arc<SsTable<F>>> = Vec::new();
        let mut i: usize = start;
        while i < end
            invariant
                self.wf(),
                start <= i <= end <= self.sstables@.len(),
                run@ == self.sstables@.subrange(start as int, i as int),
            decreases end - i,
        {
            run.push(Arc::clone(&self.sstables[i]));
            i += 1;
            assert(run@ =~= self.sstables@.subrange(start as int, i as int));
        }
        let id: u64 = self.sstables[end - 1].id;
        let job = Compaction {
            run,
            start,
            tmp_path: self.tmp_path(id),
            horizon: self.min_snapshot_seq(),
        };
        proof {
            flush::scratch_paths(self.dir_text(), id);
            assert(job.tables() =~= self@.tables.subrange(start as int, end as int));
            assert(self@.tables[end - 1].id == id);
        }
        Ok(Some(job))
    }

    /// Whether a compaction is of a run of this database's tables, at least as
    /// long as the threshold, and keeps what the snapshots in use can see.
    pub open spec fn planned(&self, job: &Compaction<F>) -> bool {
        let i = job.first();
        let j = i + job.tables().len();
        &&& job.wf()
        &&& 0 <= i < j <= self@.tables.len()
        &&& job.tables().len() >= self.options().compaction_threshold
        &&& job.tables() == self@.tables.subrange(i, j)
        &&& snapshots::is_lowest(self@.horizons, job.keeps_from())
        &&& job.tmp_path_text() == flush::tmp_path(self.dir_text(), self@.tables[j - 1].id)
    }

    /// Publish the table that a compaction has written in place of the run.
    pub fn publish_compaction(&mut self, job: Compaction<F>) -> (r: Result<()>)
        requires
            old(self).wf(),
            job.wf(),
        ensures
            final(self).wf(),
            final(self).same_place(old(self)),
            old(self)@.failure is Some ==> flush::refused(old(self)@, final(self)@, r),
            old(self)@.failure is None ==> match r {
                Ok(_) => merged(
                    old(self)@,
                    final(self),
                    job.first(),
                    job.first() + job.tables().len(),
                    job.tmp_path_text(),
                ),
                Err(_) => flush::poisoned(final(self)@, r) && compact_stopped(
                    old(self)@,
                    final(self),
                    job.first(),
                    job.first() + job.tables().len(),
                    job.tmp_path_text(),
                ) && exists|e: ErrorView| #[trigger]
                    unreplaced(old(self), &job, e) && final(self)@.failure == Some(e.text()) && (
                    flush::stopped(old(self)@, final(self)@) || fs::handed_on::<F::File>(e)),
            },
            old(self)@.failure is Some ==> final(self).changes() == old(self).changes(),
            r is Ok ==> final(self).changes() == old(self).changes() + replacing(
                old(self).dir_text(),
                job.tmp_path_text(),
                job.tables().last().id,
                old(self)@.ids().subrange(job.first(), job.first() + job.tables().len() - 1),
            ),
            r is Err ==> disk::went_on(
                old(self).changes(),
                final(self).changes(),
                table_files(old(self).dir_text()).insert(job.tmp_path_text()),
            ),
    {
        proof {
            disk::went_nowhere(
                self.changes(),
                table_files(self.dir_text()).insert(job.tmp_path_text()),
            );
        }
        self.health()?;
        match self.replace_run(&job) {
            Ok(()) => Ok(()),
            Err(e) => Err(self.fail(e)),
        }
    }

    fn replace_run(&mut self, job: &Compaction<F>) -> (r: Result<()>)
        requires
            old(self).wf(),
            old(self)@.failure is None,
            job.wf(),
        ensures
            final(self).stands(),
            final(self).same_place(old(self)),
            final(self)@.failure is None,
            r is Ok ==> final(self).wf() && merged(
                old(self)@,
                final(self),
                job.first(),
                job.first() + job.tables().len(),
                job.tmp_path_text(),
            ),
            r is Err ==> compact_stopped(
                old(self)@,
                final(self),
                job.first(),
                job.first() + job.tables().len(),
                job.tmp_path_text(),
            ),
            r matches Err(e) ==> unreplaced(old(self), job, e@) && (flush::stopped(
                old(self)@,
                final(self)@,
            ) || fs::handed_on::<F::File>(e@)),
            r is Ok ==> final(self).changes() == old(self).changes() + replacing(
                old(self).dir_text(),
                job.tmp_path_text(),
                job.tables().last().id,
                old(self)@.ids().subrange(job.first(), job.first() + job.tables().len() - 1),
            ),
            disk::went_on(
                old(self).changes(),
                final(self).changes(),
                table_files(old(self).dir_text()).insert(job.tmp_path_text()),
            ),
    {
        let ghost before = self@;
        let ghost origin = self.changes();
        let ghost dir = self.dir_text();
        let ghost files = table_files(dir).insert(job.tmp_path_text());
        proof {
            disk::went_nowhere(origin, files);
        }
        let run: usize = job.run.len();
        let start: usize = job.start;
        let id: u64 = job.run[run - 1].id;
        let n: usize = self.sstables.len();
        // A flush only adds tables at the end, so the run is where it was.
        if start > n || run > n - start || self.sstables[start + run - 1].id != id {
            let mut m = text::joined("compacted run vanished from the live set: sst ", "");
            m.append(text::decimal(id).as_str());
            proof {
                reveal_strlit("");
                assert(m@ =~= vanished(id));
                assert(job.tables().last().id == id);
                if start + run <= n {
                    assert(self@.tables[start + run - 1].id == self.sstables@[start + run - 1].id);
                }
            }
            return Err(Error::Corrupt(m));
        }
        let end: usize = start + run;
        let path = names::sst_path(self.dir.as_str(), id);
        // The merged table has to be durable under its name before the
        // manifest says that the others are gone.
        let moved = self.move_in(job.tmp_path.as_str(), path.as_str());
        let ghost there = self.changes();
        proof {
            let ok = choose|ok: bool|
                there == origin.push(
                    #[trigger] super::renaming(job.tmp_path_text(), path@, ok),
                );
            let change = super::renaming(job.tmp_path_text(), path@, ok);
            assert(is_table_file(dir, path@));
            disk::went_on_once(origin, origin, change, files);
            disk::went_softly_once(origin, origin, change);
            super::all_kept_softly(origin, there, dir, before.ids());
            assert(self@ == before);
        }
        moved?;
        let reader = SsTableReader::open_on(
            &self.disk,
            path.as_str(),
            self.opts.bloom_enabled,
        )?;
        let stale = self.ids_between(start, end - 1);
        let mut edits: Vec<VersionEdit> = Vec::new();
        let mut k: usize = 0;
        while k < stale.len()
            invariant
                k <= stale@.len(),
                edits@ == stale@.take(k as int).map_values(
                    |id: u64| VersionEdit::DeleteTable { id },
                ),
            decreases stale@.len() - k,
        {
            edits.push(VersionEdit::DeleteTable { id: stale[k] });
            k += 1;
            assert(edits@ =~= stale@.take(k as int).map_values(
                |id: u64| VersionEdit::DeleteTable { id },
            ));
        }
        assert(stale@.take(k as int) =~= stale@);
        let named = self.append_edits(edits.as_slice());
        assert(self@.ids() =~= before.ids());
        named?;
        let table: SsTable<F> = SsTable { id, reader };
        let ghost t = table.stored();
        self.splice(start, end, Arc::new(table));
        proof {
            assert(before.tables[end - 1].id == id);
            state::merge_keeps_wf(before, start as int, end as int, t);
            assert(before.manifest + Seq::<u8>::empty() =~= before.manifest);
            assert(self@ =~= before.with_merged(start as int, end as int, t));
            let left = self@.ids();
            assert(left =~= before.ids().take(end - 1).take(start as int) + before.ids().skip(
                end - 1,
            ));
            assert forall|k: int| 0 <= k < stale@.len() implies !left.contains(
                #[trigger] stale@[k],
            ) by {
                assert(stale@[k] == before.ids()[start + k]);
                if left.contains(stale@[k]) {
                    let a = choose|a: int| 0 <= a < left.len() && left[a] == stale@[k];
                    let b = if a < start {
                        a
                    } else {
                        a + (end - 1 - start)
                    };
                    assert(left[a] == before.ids()[b]);
                    assert(before.ids()[b] == before.ids()[start + k]);
                }
            }
            assert forall|k: int| 0 <= k < left.len() implies disk::kept(
                there,
                names::path_in(dir, names::sst_name(#[trigger] left[k])),
            ) by {
                let b = if k < start {
                    k
                } else {
                    k + (end - 1 - start)
                };
                assert(left[k] == before.ids()[b]);
            }
        }
        let ghost after = self@;
        let removed = self.remove_tables(&stale);
        proof {
            assert(self@ == after);
            disk::went_on_further(origin, there, self.changes(), files, table_files(dir));
            if removed is Ok {
                assert(self.changes() =~= origin + replacing(
                    dir,
                    job.tmp_path_text(),
                    id,
                    stale@,
                ));
            }
        }
        removed
    }

    /// The ids of the tables from `start` up to `end`.
    fn ids_between(&self, start: usize, end: usize) -> (r: Vec<u64>)
        requires
            start <= end <= self@.tables.len(),
        ensures
            r@ == self@.ids().subrange(start as int, end as int),
    {
        let mut out: Vec<u64> = Vec::new();
        let mut i: usize = start;
        while i < end
            invariant
                start <= i <= end <= self.sstables@.len(),
                out@ == self@.ids().subrange(start as int, i as int),
            decreases end - i,
        {
            out.push(self.sstables[i].id);
            i += 1;
            assert(out@ =~= self@.ids().subrange(start as int, i as int));
        }
        out
    }

    /// Put one table in place of those from `start` up to `end`.
    fn splice(&mut self, start: usize, end: usize, table: Arc<SsTable<F>>)
        requires
            start < end <= old(self)@.tables.len(),
            super::all_readable(old(self).sstables@),
            super::all_in_place(old(self).sstables@, old(self).dir_text()),
            table.reader.wf(),
            table.reader.place() == names::path_in(
                old(self).dir_text(),
                names::sst_name(table.id),
            ),
            table.reader.path_text() == table.reader.place(),
        ensures
            *final(self) == (Db { sstables: final(self).sstables, ..*old(self) }),
            final(self)@.tables == old(self)@.tables.take(start as int).push(table.stored()) + old(
                self,
            )@.tables.skip(end as int),
            super::all_readable(final(self).sstables@),
            super::all_in_place(final(self).sstables@, final(self).dir_text()),
    {
        let n: usize = self.sstables.len();
        let ghost was = self.sstables@;
        let mut next: Vec<Arc<SsTable<F>>> = Vec::new();
        let mut i: usize = 0;
        while i < start
            invariant
                self.sstables@ == was,
                i <= start < end <= n == was.len(),
                next@ == was.take(i as int),
            decreases start - i,
        {
            next.push(Arc::clone(&self.sstables[i]));
            i += 1;
            assert(next@ =~= was.take(i as int));
        }
        next.push(table);
        let ghost front = next@;
        i = end;
        assert(was.subrange(end as int, i as int) =~= Seq::empty());
        assert(next@ =~= front + was.subrange(end as int, i as int));
        while i < n
            invariant
                self.sstables@ == was,
                end <= i <= n == was.len(),
                next@ == front + was.subrange(end as int, i as int),
            decreases n - i,
        {
            next.push(Arc::clone(&self.sstables[i]));
            i += 1;
            assert(next@ =~= front + was.subrange(end as int, i as int));
        }
        self.sstables = next;
        proof {
            assert(was.subrange(end as int, n as int) =~= was.skip(end as int));
            assert(self@.tables =~= old(self)@.tables.take(start as int).push(table.stored())
                + old(self)@.tables.skip(end as int));
        }
    }

    /// Remove the files of tables that are no longer live.
    fn remove_tables(&mut self, table_ids: &Vec<u64>) -> (r: Result<()>)
        requires
            super::all_kept(old(self).changes(), old(self).dir_text(), old(self)@.ids()),
            forall|k: int|
                0 <= k < table_ids@.len() ==> !old(self)@.ids().contains(#[trigger] table_ids@[k]),
        ensures
            *final(self) == (Db { disk: final(self).disk, ..*old(self) }),
            super::all_kept(final(self).changes(), old(self).dir_text(), old(self)@.ids()),
            r is Ok ==> all_removed::<F>(old(self).dir_text(), table_ids@) && F::dir_synced(
                old(self).dir_text(),
            ),
            r is Ok ==> final(self).changes() == old(self).changes() + removals(
                old(self).dir_text(),
                table_ids@,
            ),
            disk::went_on(
                old(self).changes(),
                final(self).changes(),
                table_files(old(self).dir_text()),
            ),
            r matches Err(e) ==> fs::handed_on::<F::File>(e@),
    {
        let n: usize = table_ids.len();
        let mut i: usize = 0;
        let ghost was = *self;
        let ghost start = self.changes();
        let ghost dir = self.dir_text();
        proof {
            disk::went_nowhere(start, table_files(dir));
            assert(start + removals(dir, table_ids@.take(0)) =~= start);
        }
        while i < n
            invariant
                i <= n == table_ids@.len(),
                *self == (Db { disk: self.disk, ..was }),
                was == *old(self),
                start == was.changes(),
                dir == was.dir_text(),
                super::all_kept(self.changes(), dir, was@.ids()),
                forall|k: int|
                    0 <= k < table_ids@.len() ==> !was@.ids().contains(#[trigger] table_ids@[k]),
                self.changes() == start + removals(dir, table_ids@.take(i as int)),
                disk::went_on(start, self.changes(), table_files(dir)),
                all_removed::<F>(dir, table_ids@.take(i as int)),
            decreases n - i,
        {
            let path = names::sst_path(self.dir.as_str(), table_ids[i]);
            let ghost mid = self.changes();
            let removed = self.disk.remove(path.as_str());
            proof {
                let ok = removed is Ok;
                let id = table_ids@[i as int];
                let change = Change::Removed { path: path@, ok };
                assert(is_table_file(dir, path@));
                super::all_kept_without(mid, id, ok, dir, was@.ids());
                disk::went_on_once(start, mid, change, table_files(dir));
                if ok {
                    assert(table_ids@.take(i + 1) =~= table_ids@.take(i as int).push(id));
                    assert(self.changes() =~= start + removals(dir, table_ids@.take(i + 1)));
                }
            }
            match removed {
                Ok(()) => {},
                Err(e) => return Err(Error::Io(e)),
            }
            i += 1;
        }
        assert(table_ids@.take(n as int) =~= table_ids@);
        // A removal that is lost is space that the next open reclaims.
        match self.disk.sync_dir(self.dir.as_str()) {
            Ok(()) => Ok(()),
            Err(e) => Err(Error::Io(e)),
        }
    }

    /// Merge the run of a compaction to a table, beside where it will be published.
    fn write_merge(&mut self, job: &Compaction<F>) -> (r: Result<u64>)
        requires
            old(self).wf(),
            old(self).planned(job),
        ensures
            *final(self) == (Db { disk: final(self).disk, ..*old(self) }),
            final(self)@ == old(self)@,
            final(self).wf(),
            r is Ok ==> job.has_written(old(self).changes(), final(self).changes()),
            r is Ok ==> ({
                let inputs = run_records(job.tables());
                compaction::all_key_sorted(inputs) ==> sstable::is_stored::<F>(
                    job.tmp_path_text(),
                    compaction::compacted(inputs, job.keeps_from(), job.first() == 0),
                )
            }),
            disk::went_on(
                old(self).changes(),
                final(self).changes(),
                table_files(old(self).dir_text()),
            ),
            r matches Err(e) ==> unmerged::<F>(
                job.tables(),
                job.keeps_from(),
                job.first() == 0,
                e@,
            ),
    {
        let ghost was = *self;
        let written = job.merge_on(&mut self.disk);
        proof {
            let dir = was.dir_text();
            let id = was@.tables[job.first() + job.tables().len() - 1].id;
            was.wf_facts();
            super::all_kept_softly(was.changes(), self.changes(), dir, was@.ids());
            assert(self@ == was@);
            assert(is_table_file(dir, flush::tmp_path(dir, id)));
            disk::went_nowhere(was.changes(), table_files(dir));
            disk::went_on_further(
                was.changes(),
                was.changes(),
                self.changes(),
                table_files(dir),
                set![job.tmp_path_text()],
            );
        }
        written
    }

    /// Make at most one compaction. Returns whether one was made, so that there
    /// may be another.
    #[verifier::spinoff_prover]
    #[verifier::rlimit(40)]
    pub fn compact_step(&mut self) -> (r: Result<bool>)
        requires
            old(self).wf(),
        ensures
            final(self).wf(),
            final(self).same_place(old(self)),
            compact_done(old(self)@, final(self), r),
            compact_left(old(self), final(self), r),
    {
        proof {
            nothing_left(self, self, self.changes());
        }
        self.health()?;
        let ghost before = *self;
        let job = match self.plan_compaction() {
            Ok(Some(job)) => job,
            Ok(None) => return Ok(false),
            Err(e) => {
                proof {
                    self.wf_facts();
                }
                let refusal = self.fail(e);
                proof {
                    assert(compact_failed(self, before@, e@));
                    nothing_left(&before, self, before.changes());
                }
                return Err(refusal);
            },
        };
        let written = self.write_merge(&job);
        let ghost mid = *self;
        assert(mid.planned(&job));
        match written {
            Ok(_) => {},
            Err(e) => {
                proof {
                    self.wf_facts();
                }
                let refusal = self.fail(e);
                proof {
                    self.blamed(&mid, &job, e@);
                    failure_left(&before, self, refusal);
                }
                return Err(refusal);
            },
        }
        let ghost i = job.first();
        let ghost j = i + job.tables().len();
        match self.publish_compaction(job) {
            Ok(()) => {
                proof {
                    let t = choose|t: StoredTable|
                        self@ == #[trigger] mid@.with_merged(i, j, t) && t.id
                            == mid@.tables[j - 1].id && moved_in(self, job.tmp_path_text(), t);
                    self.made(&mid, &job, t);
                    merge_was_made(&before, &mid, self, &job, t);
                }
                Ok(true)
            },
            Err(e) => {
                proof {
                    let x = choose|x: ErrorView| #[trigger]
                        unreplaced(&mid, &job, x) && self@.failure == Some(x.text()) && (
                        flush::stopped(mid@, self@) || fs::handed_on::<F::File>(x));
                    self.blamed(&mid, &job, x);
                    if !flush::stopped(mid@, self@) {
                        let t = choose|t: StoredTable|
                            flush::stopped(#[trigger] mid@.with_merged(i, j, t), self@) && t.id
                                == mid@.tables[j - 1].id && moved_in(
                                self,
                                job.tmp_path_text(),
                                t,
                            );
                        self.made(&mid, &job, t);
                    }
                    publishing_failed(&before, &mid, self, &job, e);
                }
                Err(e)
            },
        }
    }

    /// What made a compaction that was planned fail is a reason for the step to
    /// fail.
    proof fn blamed(&self, before: &Self, job: &Compaction<F>, e: ErrorView)
        requires
            self.same_place(before),
            before.planned(job),
            falls_due(before, before@, Some((job.first(), job.first() + job.tables().len()))),
            unmerged::<F>(job.tables(), job.keeps_from(), job.first() == 0, e) || unreplaced(
                before,
                job,
                e,
            ),
        ensures
            compact_failed(self, before@, e),
    {
        let i = job.first();
        let j = i + job.tables().len();
        assert(job.tables().last() == before@.tables[j - 1]);
        assert(falls_due(self, before@, Some((i, j))));
        assert(run_failed(self, before@, i, j, job.keeps_from(), e));
    }

    /// A compaction that was planned and written is a merge.
    proof fn made(&self, before: &Self, job: &Compaction<F>, t: StoredTable)
        requires
            self.same_place(before),
            before.planned(job),
            t.id == before@.tables[job.first() + job.tables().len() - 1].id,
            moved_in(self, job.tmp_path_text(), t),
            ({
                let inputs = run_records(job.tables());
                compaction::all_key_sorted(inputs) ==> sstable::is_stored::<F>(
                    job.tmp_path_text(),
                    compaction::compacted(inputs, job.keeps_from(), job.first() == 0),
                )
            }),
        ensures
            is_merge(
                self,
                before@,
                MergeStep { i: job.first(), j: job.first() + job.tables().len(), t },
            ),
    {
        assert(snapshots::is_lowest(before@.horizons, job.keeps_from()));
    }

    /// Whether the MemTable that takes writes has reached its threshold.
    pub fn is_full(&self) -> (r: bool)
        requires
            self.wf(),
        ensures
            r == (memtable::total_size(self@.active) >= self.options().memtable_threshold),
    {
        self.active.is_full()
    }

    /// Whether a flush falls due.
    fn flush_is_due(&self) -> (r: bool)
        requires
            self.wf(),
        ensures
            r == flush_due(self@, self.options().memtable_threshold as nat),
    {
        self.frozen.is_some() || (!self.active.is_empty() && self.is_full())
    }

    /// Whether [`maintain`](Db::maintain) has something to do.
    pub fn pending_work(&self) -> (r: bool)
        requires
            self.wf(),
        ensures
            self@.failure is Some ==> !r,
            self@.failure is None && flush_due(self@, self.options().memtable_threshold as nat)
                ==> r,
            self@.failure is None && !flush_due(self@, self.options().memtable_threshold as nat)
                ==> if r {
                (exists|i: int, j: int| #[trigger] falls_due(self, self@, Some((i, j)))) || exists|
                    e: ErrorView,
                | #[trigger]
                    size_untold::<F>(self.dir_text(), self@.ids(), e)
            } else {
                falls_due(self, self@, None)
            },
            !flush_due(self@, self.options().memtable_threshold as nat) && self@.tables.len()
                < self.options().compaction_threshold ==> !r,
    {
        if self.failed.is_some() {
            return false;
        }
        if self.flush_is_due() {
            return true;
        }
        match self.pick() {
            Ok(found) => found.is_some(),
            Err(_) => true,
        }
    }

    /// Do one piece of the work that falls due: a flush, or else a compaction.
    /// Returns whether there was one.
    pub fn maintain(&mut self) -> (r: Result<bool>)
        requires
            old(self).wf(),
        ensures
            final(self).wf(),
            final(self).same_place(old(self)),
            old(self)@.failure is Some ==> flush::refused(old(self)@, final(self)@, r),
            old(self)@.failure is None ==> if flush_due(
                old(self)@,
                old(self).options().memtable_threshold as nat,
            ) {
                &&& r is Ok ==> r->Ok_0
                &&& flush::flush_done(
                    old(self)@,
                    final(self),
                    match r {
                        Ok(_) => Ok(()),
                        Err(e) => Err(e),
                    },
                )
            } else {
                compact_done(old(self)@, final(self), r)
            },
            if flush_due(old(self)@, old(self).options().memtable_threshold as nat) {
                flush::flush_left(
                    old(self),
                    final(self),
                    match r {
                        Ok(_) => Ok(()),
                        Err(e) => Err(e),
                    },
                )
            } else {
                compact_left(old(self), final(self), r)
            },
    {
        reveal(compact_left);
        reveal(flush::flush_left);
        self.health()?;
        if self.flush_is_due() {
            match self.flush_only() {
                Ok(()) => Ok(true),
                Err(e) => Err(e),
            }
        } else {
            self.compact_step()
        }
    }

    /// Flush the MemTable to a table, and then make every compaction that falls
    /// due. Where nothing is in memory, nothing is done.
    pub fn flush(&mut self) -> (r: Result<()>)
        requires
            old(self).wf(),
            old(self)@.failure is None && (old(self)@.frozen is Some || old(self)@.active.len()
                > 0) ==> old(self).options().compaction_threshold >= 2,
        ensures
            final(self).wf(),
            final(self).same_place(old(self)),
            old(self)@.failure is Some ==> flush::refused(old(self)@, final(self)@, r),
            old(self)@.failure is None && old(self)@.frozen is None && old(self)@.active.len() == 0
                ==> r is Ok && final(self)@ == old(self)@,
            old(self)@.failure is None && (old(self)@.frozen is Some || old(self)@.active.len()
                > 0) ==> match r {
                Ok(_) => falls_due(final(self), final(self)@, None) && exists|
                    mid: Db<F>,
                    merges: Seq<MergeStep>,
                |
                    mid.same_place(old(self)) && flush::flush_done(old(self)@, &mid, Ok(()))
                        && are_merges(old(self), mid@, merges) && final(self)@
                        == #[trigger] mid@.with_all_merged(merges) && flush::flush_left(
                        old(self),
                        &mid,
                        Ok(()),
                    ) && all_steps_left(&mid, final(self), Ok(false)),
                Err(_) => flush::flush_done(old(self)@, final(self), r) || exists|
                    mid: Db<F>,
                    merges: Seq<MergeStep>,
                |
                    mid.same_place(old(self)) && flush::flush_done(old(self)@, &mid, Ok(()))
                        && are_merges(old(self), mid@, merges) && compact_done(
                        #[trigger] mid@.with_all_merged(merges),
                        final(self),
                        Err(r->Err_0),
                    ) && flush::flush_left(old(self), &mid, Ok(())) && all_steps_left(
                        &mid,
                        final(self),
                        Err(r->Err_0),
                    ),
            },
            old(self)@.failure is Some || (old(self)@.frozen is None && old(self)@.active.len()
                == 0) ==> final(self).changes() == old(self).changes(),
    {
        self.health()?;
        if self.frozen.is_none() && self.active.is_empty() {
            return Ok(());
        }
        self.flush_only()?;
        let ghost mid = *self;
        let done = self.compact_all();
        proof {
            let merges = if done is Ok {
                choose|merges: Seq<MergeStep>|
                    are_merges(&mid, mid@, merges) && self@ == #[trigger] mid@.with_all_merged(
                        merges,
                    )
            } else {
                choose|merges: Seq<MergeStep>|
                    are_merges(&mid, mid@, merges) && compact_done(
                        #[trigger] mid@.with_all_merged(merges),
                        self,
                        Err(done->Err_0),
                    )
            };
            merges_elsewhere(&mid, old(self), mid@, merges);
        }
        done
    }

    /// Make every compaction that falls due.
    #[verifier::spinoff_prover]
    #[verifier::rlimit(40)]
    fn compact_all(&mut self) -> (r: Result<()>)
        requires
            old(self).wf(),
            old(self)@.failure is None,
            old(self).options().compaction_threshold >= 2,
        ensures
            final(self).wf(),
            final(self).same_place(old(self)),
            match r {
                Ok(_) => falls_due(final(self), final(self)@, None) && exists|
                    merges: Seq<MergeStep>,
                |
                    are_merges(old(self), old(self)@, merges) && final(self)@ == #[trigger] old(
                        self,
                    )@.with_all_merged(merges),
                Err(_) => exists|merges: Seq<MergeStep>|
                    are_merges(old(self), old(self)@, merges) && compact_done(
                        #[trigger] old(self)@.with_all_merged(merges),
                        final(self),
                        Err(r->Err_0),
                    ),
            },
            match r {
                Ok(_) => all_steps_left(old(self), final(self), Ok(false)),
                Err(e) => all_steps_left(old(self), final(self), Err(e)),
            },
    {
        let ghost mut merges: Seq<MergeStep> = Seq::empty();
        let ghost mut through: Seq<Db<F>> = seq![*self];
        assert(steps_left(old(self), self, through));
        loop
            invariant
                self.wf(),
                self.same_place(old(self)),
                old(self).options().compaction_threshold >= 2,
                are_merges(old(self), old(self)@, merges),
                self@ == old(self)@.with_all_merged(merges),
                self@.failure is None,
                steps_left(old(self), self, through),
            decreases self@.tables.len(),
        {
            let ghost before = self@;
            let ghost last = *self;
            let more = self.compact_step();
            if !more? {
                return Ok(());
            }
            proof {
                one_step_more(old(self), &last, self, through);
                through = through.push(*self);
                let m = choose|m: MergeStep|
                    is_merge(self, before, m) && self@ == #[trigger] before.with_merged(
                        m.i,
                        m.j,
                        m.t,
                    );
                merge_elsewhere(self, old(self), before, m);
                one_more(old(self), old(self)@, merges, m);
                merges = merges.push(m);
            }
        }
    }
}

/// Whether a merge was made depends on directory and options alone.
proof fn merge_elsewhere<F: Fs>(a: &Db<F>, b: &Db<F>, db: DbView, m: MergeStep)
    requires
        a.same_place(b),
        is_merge(a, db, m),
    ensures
        is_merge(b, db, m),
{
}

/// Whether merges were made depends on directory and options alone.
proof fn merges_elsewhere<F: Fs>(a: &Db<F>, b: &Db<F>, db: DbView, merges: Seq<MergeStep>)
    requires
        a.same_place(b),
        are_merges(a, db, merges),
    ensures
        are_merges(b, db, merges),
{
    assert forall|k: int| 0 <= k < merges.len() implies is_merge(
        b,
        db.with_all_merged(merges.take(k)),
        #[trigger] merges[k],
    ) by {
        merge_elsewhere(a, b, db.with_all_merged(merges.take(k)), merges[k]);
    }
}

/// One merge after others.
proof fn one_more<F: Fs>(place: &Db<F>, db: DbView, merges: Seq<MergeStep>, m: MergeStep)
    requires
        are_merges(place, db, merges),
        is_merge(place, db.with_all_merged(merges), m),
    ensures
        are_merges(place, db, merges.push(m)),
        db.with_all_merged(merges.push(m)) == db.with_all_merged(merges).with_merged(
            m.i,
            m.j,
            m.t,
        ),
{
    let more = merges.push(m);
    assert(more.drop_last() =~= merges);
    assert forall|k: int| 0 <= k < more.len() implies is_merge(
        place,
        db.with_all_merged(more.take(k)),
        #[trigger] more[k],
    ) by {
        if k < merges.len() {
            assert(more.take(k) =~= merges.take(k));
            assert(more[k] == merges[k]);
        } else {
            assert(more.take(k) =~= merges);
        }
    }
}

/// Whether a flush falls due: one is under way, or the MemTable has reached its
/// threshold.
pub open spec fn flush_due(db: DbView, threshold: nat) -> bool {
    db.frozen is Some || (db.active.len() > 0 && memtable::total_size(db.active)
        >= threshold)
}

/// Whether this table was written beside where it is published, and renamed.
pub open spec fn moved_in<F: Fs>(place: &Db<F>, tmp: Seq<char>, t: StoredTable) -> bool {
    &&& flush::is_published(place, t)
    &&& F::renamed(tmp, names::path_in(place.dir_text(), names::sst_name(t.id)))
}

/// Whether `after` is `before` with the tables from `i` up to `j` merged, and the
/// files of those that are gone removed.
pub open spec fn merged<F: Fs>(
    before: DbView,
    after: &Db<F>,
    i: int,
    j: int,
    tmp: Seq<char>,
) -> bool {
    &&& 0 <= i < j <= before.tables.len()
    &&& exists|t: StoredTable|
        after@ == #[trigger] before.with_merged(i, j, t) && t.id == before.tables[j - 1].id
            && moved_in(after, tmp, t)
    &&& after.manifest_is_synced()
    &&& all_removed::<F>(after.dir_text(), before.ids().subrange(i, j - 1))
    &&& F::dir_synced(after.dir_text())
}

/// Whether the run that a compaction is of is no longer where it was.
pub open spec fn has_vanished<F: Fs>(db: DbView, job: &Compaction<F>) -> bool {
    let j = job.first() + job.tables().len();
    j > db.tables.len() || db.tables[j - 1].id != job.tables().last().id
}

/// Whether an error is one that publishing a compaction can end in: that the run
/// has vanished, or else the filesystem's or what is wrong with the table that
/// stands where the merged one belongs.
pub open spec fn unreplaced<F: Fs>(place: &Db<F>, job: &Compaction<F>, e: ErrorView) -> bool {
    let id = job.tables().last().id;
    if has_vanished(place@, job) {
        e == ErrorView::Corrupt(vanished(id))
    } else {
        ||| fs::handed_on::<F::File>(e)
        ||| reader::unopened::<F>(names::path_in(place.dir_text(), names::sst_name(id)), e)
    }
}

/// What a compaction leaves that failed: everything as it was, or the run merged
/// and what it was made of not yet removed.
pub open spec fn compact_stopped<F: Fs>(
    before: DbView,
    after: &Db<F>,
    i: int,
    j: int,
    tmp: Seq<char>,
) -> bool {
    flush::stopped(before, after@) || (0 <= i < j <= before.tables.len() && exists|t: StoredTable|
        flush::stopped(#[trigger] before.with_merged(i, j, t), after@) && t.id
            == before.tables[j - 1].id && moved_in(after, tmp, t))
}

/// What a step of compaction does: a run of tables becomes one, or there is no
/// run that is long enough. Once it fails, everything is refused, but nothing is
/// lost, and the reason is kept. Where the run was merged all the same, the
/// filesystem failed when the files were to be removed.
pub open spec fn compact_done<F: Fs>(before: DbView, after: &Db<F>, r: Result<bool>) -> bool {
    match before.failure {
        Some(_) => flush::refused(before, after@, r),
        None => match r {
            Ok(true) => exists|m: MergeStep|
                is_merge(after, before, m) && falls_due(after, before, Some((m.i, m.j))) && after@
                    == #[trigger] before.with_merged(m.i, m.j, m.t) && after.manifest_is_synced()
                    && all_removed::<F>(
                    after.dir_text(),
                    before.ids().subrange(m.i, m.j - 1),
                ),
            Ok(false) => after@ == before && falls_due(after, before, None),
            Err(_) => flush::poisoned(after@, r) && (flush::stopped(before, after@) || exists|
                m: MergeStep,
            |
                is_merge(after, before, m) && flush::stopped(
                    #[trigger] before.with_merged(m.i, m.j, m.t),
                    after@,
                )) && exists|e: ErrorView|
                compact_failed(after, before, e) && after@.failure == Some(#[trigger] e.text()) && (
                flush::stopped(before, after@) || fs::handed_on::<F::File>(e)),
        },
    }
}

/// Whether a step of compaction failed for this reason: with enough tables for a
/// run, the size of one could not be had; or a run that falls due could not be
/// merged, or what was merged not be published.
pub open spec fn compact_failed<F: Fs>(place: &Db<F>, db: DbView, e: ErrorView) -> bool {
    &&& db.tables.len() >= place.options().compaction_threshold
    &&& size_untold::<F>(place.dir_text(), db.ids(), e) || exists|i: int, j: int, horizon: u64|
        #[trigger]
        run_failed(place, db, i, j, horizon, e)
}

/// Whether merging this run of tables, which falls due, failed for this reason: the
/// filesystem fails, one of the tables cannot be read, no table can hold what is
/// left, or there is something wrong with the table that stands where the merged
/// one belongs.
pub open spec fn run_failed<F: Fs>(
    place: &Db<F>,
    db: DbView,
    i: int,
    j: int,
    horizon: u64,
    e: ErrorView,
) -> bool {
    &&& 0 <= i < j <= db.tables.len()
    &&& falls_due(place, db, Some((i, j)))
    &&& snapshots::is_lowest(db.horizons, horizon)
    &&& {
        ||| unmerged::<F>(db.tables.subrange(i, j), horizon, i == 0, e)
        ||| reader::unopened::<F>(
            names::path_in(place.dir_text(), names::sst_name(db.tables[j - 1].id)),
            e,
        )
    }
}

} // verus!
