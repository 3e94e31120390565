//! What operations leave on the disk.
//!
//! Nothing here is code that runs. A filesystem on which an open gives what was
//! last written to the file is one on which a reader gets what
//! [`disk::left_at`](crate::disk::left_at) says stands at its path, and on which a
//! link gives the bytes of the file that it is another name for.

use vstd::prelude::*;

use super::checkpoint;
use super::compact;
use super::flush;
use super::reopen;
use super::steps;
use super::{Db, DirView};
use crate::compaction;
use crate::disk;
use crate::disk::Change;
use crate::error::ErrorView;
use crate::fs::{Fs, OpenMode};
use crate::ids;
use crate::manifest;
use crate::manifest::StateView;
use crate::names;
use crate::options::Options;
use crate::rebuild;
use crate::record;
use crate::record::RecordView;
use crate::runs::{Engine, Step};
use crate::sstable;
use crate::state;
use crate::state::{DbView, MergeStep, StoredTable};
use crate::versions;
use crate::wal;

verus! {

/// What is written beside a table, and then moved to where the table belongs, stands
/// there.
proof fn written_then_there(
    before: Seq<Change>,
    dir: Seq<char>,
    id: u64,
    file: Seq<u8>,
    more: Seq<Change>,
)
    requires
        disk::spares(more, names::path_in(dir, names::sst_name(id))),
    ensures
        disk::left_at(
            before + (sstable::written_as(flush::tmp_path(dir, id), file) + (seq![
                Change::Renamed {
                    from: flush::tmp_path(dir, id),
                    to: names::path_in(dir, names::sst_name(id)),
                    ok: true,
                },
            ] + more)),
            names::path_in(dir, names::sst_name(id)),
        ) == Some(file),
{
    let tmp = flush::tmp_path(dir, id);
    let path = names::path_in(dir, names::sst_name(id));
    let opened = before.push(Change::Opened { path: tmp, mode: OpenMode::Truncate });
    let moved = opened.push(Change::Closed { path: tmp, bytes: file }).push(
        Change::Renamed { from: tmp, to: path, ok: true },
    );
    flush::scratch_paths(dir, id);
    names::table_path_ends(dir, id);
    disk::written_then_moved(opened, tmp, path, file);
    disk::spared(moved, more, path);
    assert(before + (sstable::written_as(tmp, file) + (seq![
        Change::Renamed { from: tmp, to: path, ok: true },
    ] + more)) =~= moved + more);
}

/// Rewriting the log leaves tables alone.
proof fn rewriting_spares(dir: Seq<char>, id: u64)
    ensures
        disk::spares(flush::rewriting(dir), names::path_in(dir, names::sst_name(id))),
{
    names::table_path_ends(dir, id);
    flush::scratch_paths(dir, id);
    super::vital_paths(dir);
}

/// Where a table was written beside its place by a piece of work of its own, and then
/// published, what stands in its place is that table.
pub proof fn published_is_what_was_written(dir: Seq<char>, id: u64, file: Seq<u8>)
    ensures
        disk::left_at(
            sstable::written_as(flush::tmp_path(dir, id), file) + flush::publishing(dir, id),
            names::path_in(dir, names::sst_name(id)),
        ) == Some(file),
{
    let none = Seq::<Change>::empty();
    rewriting_spares(dir, id);
    written_then_there(none, dir, id, file, flush::rewriting(dir));
    let all = sstable::written_as(flush::tmp_path(dir, id), file) + flush::publishing(dir, id);
    assert(none + all =~= all);
}

/// When a flush has succeeded, what stands where its table belongs is a table of the
/// records of the frozen MemTable.
pub proof fn flush_leaves_its_table<F: Fs>(before: &Db<F>, after: &Db<F>)
    requires
        before@.failure is None,
        before@.frozen is Some || before@.active.len() > 0,
        flush::flush_left(before, after, Ok(())),
    ensures
        ({
            let frozen = flush::to_flush(before@);
            let path = names::path_in(
                before.dir_text(),
                names::sst_name(frozen.frozen->0.id),
            );
            exists|file: Seq<u8>|
                disk::left_at(after.changes(), path) == Some(file) && #[trigger] sstable::is_table(
                    file,
                    frozen.frozen_records(),
                )
        }),
{
    reveal(flush::flush_left);
    let frozen = flush::to_flush(before@);
    let dir = before.dir_text();
    let id = frozen.frozen->0.id;
    let file = choose|file: Seq<u8>|
        after.changes() == before.changes() + #[trigger] flush::flushing(dir, id, file)
            && sstable::is_table(file, frozen.frozen_records());
    rewriting_spares(dir, id);
    written_then_there(before.changes(), dir, id, file, flush::rewriting(dir));
    assert(sstable::is_table(file, frozen.frozen_records()));
}

/// After a flush that succeeded every read gives what it gave before, on a filesystem
/// on which an open gives what was last written to the file: the table that the
/// database reads from then on is the one that stands at its path.
pub proof fn flush_changes_no_read<F: Fs>(
    before: &Db<F>,
    after: &Db<F>,
    key: Seq<u8>,
    bound: u64,
)
    requires
        before.wf(),
        before@.failure is None,
        before@.frozen is Some || before@.active.len() > 0,
        before.same_place(after),
        flush::flush_done(before@, after, Ok(())),
        flush::flush_left(before, after, Ok(())),
        disk::left_at(
            after.changes(),
            names::path_in(
                before.dir_text(),
                names::sst_name(flush::to_flush(before@).frozen->0.id),
            ),
        ) == Some(after@.tables.last().file),
        after@.tables.last().file.len() <= u64::MAX,
        sstable::storable(flush::to_flush(before@).frozen_records()),
    ensures
        after@.read(key, bound) == before@.read(key, bound),
        after@.tables.last().holds(flush::to_flush(before@).frozen_records()),
{
    before.wf_facts();
    flush_leaves_its_table(before, after);
    let frozen = flush::to_flush(before@);
    let t = choose|t: StoredTable|
        after@ == #[trigger] frozen.with_flushed(t) && t.id == frozen.frozen->0.id
            && flush::is_published(after, t);
    assert(after@.tables.last() == t);
    assert(versions::sorted(frozen.frozen_records()));
    assert(t.holds(frozen.frozen_records())) by {
        reveal(StoredTable::holds);
    }
    if before@.frozen is None {
        state::freeze_keeps_reads(before@, key, bound);
    }
    state::flush_keeps_reads(frozen, t, key, bound);
}

/// When a step of compaction has made a merge, what stands where the merged table
/// belongs is a table of what compaction leaves of the run.
pub proof fn merge_leaves_its_table<F: Fs>(
    before: &Db<F>,
    after: &Db<F>,
    m: MergeStep,
    horizon: u64,
    file: Seq<u8>,
)
    requires
        before.wf(),
        compact::merge_left(before, after, m, horizon, file),
    ensures
        disk::left_at(
            after.changes(),
            names::path_in(before.dir_text(), names::sst_name(m.t.id)),
        ) == Some(file),
        ({
            let inputs = compact::run_records(before@.tables.subrange(m.i, m.j));
            compaction::all_key_sorted(inputs) ==> sstable::is_table(
                file,
                compaction::compacted(inputs, horizon, m.i == 0),
            )
        }),
{
    before.wf_facts();
    let dir = before.dir_text();
    let stale = before@.ids().subrange(m.i, m.j - 1);
    let path = names::path_in(dir, names::sst_name(m.t.id));
    let gone = compact::removals(dir, stale);
    assert(before@.ids()[m.j - 1] == m.t.id);
    assert forall|k: int| 0 <= k < gone.len() implies !(#[trigger] gone[k]).touches(path) by {
        assert(stale[k] == before@.ids()[m.i + k]);
        names::table_paths_differ(dir, stale[k], m.t.id);
    }
    written_then_there(before.changes(), dir, m.t.id, file, gone);
}

/// When a checkpoint was made, every table that its manifest names has a file in the
/// directory: its name there is another name for the database's table, and nothing was
/// done to it since. The manifest records the database, and `CURRENT` names it.
pub proof fn checkpoint_leaves_its_files(
    before: Seq<Change>,
    dir: Seq<char>,
    target: Seq<char>,
    db: DbView,
    i: int,
)
    requires
        db.wf(),
    ensures
        ({
            let now = before + checkpoint::copying(dir, target, db);
            &&& 0 <= i < db.ids().len() ==> {
                let id = db.ids()[i];
                let name = names::path_in(target, names::sst_name(id));
                &&& disk::linked_to(now, name) == Some(names::path_in(dir, names::sst_name(id)))
                &&& disk::kept(now, name)
            }
            &&& disk::left_at(now, names::path_in(target, names::manifest_name(0))) == Some(
                manifest::log_of(db.checkpoint_state().snapshot()),
            )
            &&& disk::left_at(now, names::path_in(target, names::CURRENT_FILENAME@)) == Some(
                vstd::utf8::encode_utf8(names::current_text(0)),
            )
        }),
{
    let all = checkpoint::copying(dir, target, db);
    let now = before + all;
    let links = checkpoint::linking(dir, target, db.ids());
    let log = names::path_in(target, names::manifest_name(0));
    let current = names::path_in(target, names::CURRENT_FILENAME@);
    let tmp = names::path_in(target, "CURRENT.tmp"@);
    let n = links.len() as int;
    names::manifest_path_ends(target, 0);
    super::vital_paths(target);
    reveal_strlit("CURRENT.tmp");
    names::path_ends_in_name(target, "CURRENT.tmp"@);
    assert(now.last() == all.last());
    assert(disk::left_at(now, log) == Some(manifest::log_of(db.checkpoint_state().snapshot())));
    // `CURRENT`: written beside it, moved there, and left alone since.
    let last = all.last();
    let opened = before + links + seq![
        Change::Opened { path: log, mode: OpenMode::Truncate },
        Change::Opened { path: tmp, mode: OpenMode::Truncate },
    ];
    let text = vstd::utf8::encode_utf8(names::current_text(0));
    let moved = opened.push(Change::Closed { path: tmp, bytes: text }).push(
        Change::Renamed { from: tmp, to: current, ok: true },
    );
    disk::written_then_moved(opened, tmp, current, text);
    let rest = seq![last];
    assert(now =~= moved + rest);
    disk::spared(moved, rest, current);
    // The tables: linked, and left alone since.
    if 0 <= i < db.ids().len() {
        let id = db.ids()[i];
        let name = names::path_in(target, names::sst_name(id));
        names::table_path_ends(target, id);
        let linked = (before + links.take(i)).push(links[i]);
        let after = all.skip(i + 1);
        assert(linked.drop_last() =~= before + links.take(i));
        assert(disk::linked_to(linked, name) == Some(names::path_in(dir, names::sst_name(id))));
        assert(disk::kept(linked, name));
        assert forall|k: int| 0 <= k < after.len() implies !(#[trigger] after[k]).touches(
            name,
        ) by {
            assert(after[k] == all[i + 1 + k]);
            if i + 1 + k < n {
                assert(all[i + 1 + k] == links[i + 1 + k]);
                assert(db.ids()[i] < db.ids()[i + 1 + k]);
                names::table_paths_differ(target, id, db.ids()[i + 1 + k]);
            }
        }
        disk::spared(linked, after, name);
        assert(now =~= linked + after);
    }
}

/// Whether an open of a checkpoint's directory gave what stands there: the manifest
/// that was left there, of every name that is another name for a table of the database
/// that table's bytes, and no log.
pub open spec fn gave_what_stands(
    now: Seq<Change>,
    dir: Seq<char>,
    target: Seq<char>,
    db: DbView,
    found: DirView,
) -> bool {
    let log = names::path_in(target, names::manifest_name(0));
    &&& disk::left_at(now, log) is Some
    &&& manifest::replayed(log, disk::left_at(now, log)->0) == Ok::<StateView, ErrorView>(
        found.state,
    )
    &&& forall|i: int|
        0 <= i < db.tables.len() && disk::linked_to(
            now,
            names::path_in(target, names::sst_name((#[trigger] db.tables[i]).id)),
        ) == Some(names::path_in(dir, names::sst_name(db.tables[i].id)))
            ==> found.files[db.tables[i].id] == db.tables[i].file
    &&& found.log.len() == 0
}

/// Opening a checkpoint gives every key the value that the database gives it, on a
/// filesystem on which an open gives what stands at a path.
pub proof fn checkpoint_gives_every_value<F: Fs>(
    before: Seq<Change>,
    dir: Seq<char>,
    target: Seq<char>,
    origin: DbView,
    copy: &Db<F>,
    opts: Options,
    found: DirView,
    records: Seq<Seq<RecordView>>,
    key: Seq<u8>,
    bound: u64,
)
    requires
        origin.wf(),
        origin.active.len() == 0,
        origin.frozen is None,
        super::opened_from(copy, target, opts, found),
        gave_what_stands(
            before + checkpoint::copying(dir, target, origin),
            dir,
            target,
            origin,
            found,
        ),
        reopen::asked_alike(origin, opts, records),
    ensures
        copy@.ids() == origin.ids(),
        copy@.read(key, bound) == origin.read(key, bound),
{
    let now = before + checkpoint::copying(dir, target, origin);
    let left = origin.checkpointed();
    let log = names::path_in(target, names::manifest_name(0));
    checkpoint_leaves_its_files(before, dir, target, origin, 0);
    state::checkpoint_is_replayed(origin, log);
    state::checkpoint_reads_back(origin, key, bound);
    assert(ids::ascends(origin.ids()) && origin.ids().to_set()
        == origin.checkpoint_state().live_tables);
    manifest::snapshot_reproduces(origin.checkpoint_state());
    state::edits_are_recorded(origin.checkpoint_state().snapshot());
    assert forall|i: int| 0 <= i < left.tables.len() implies (#[trigger] left.tables[i]).file
        == found.files[left.tables[i].id] by {
        assert(origin.ids()[i] == origin.tables[i].id);
        checkpoint_leaves_its_files(before, dir, target, origin, i);
        assert(found.files[origin.tables[i].id] == origin.tables[i].file);
    }
    wal::log_of_none();
    assert(reopen::left_by(left, found));
    reopen::found_again(left, copy, target, opts, found, records, key, bound);
    assert(left.ids() =~= origin.ids());
}

/// The files that an open database depends on were not removed, moved away or emptied
/// since it was opened: its tables, its log and `CURRENT`.
pub proof fn files_in_use_are_kept<F: Fs>(db: &Db<F>, i: int)
    requires
        db.wf(),
    ensures
        0 <= i < db@.tables.len() ==> disk::kept(
            db.changes(),
            names::path_in(db.dir_text(), names::sst_name(db@.tables[i].id)),
        ),
        disk::kept(db.changes(), db.log_path()),
        disk::kept(db.changes(), names::path_in(db.dir_text(), names::CURRENT_FILENAME@)),
{
    db.wf_facts();
    if 0 <= i < db@.tables.len() {
        assert(db@.ids()[i] == db@.tables[i].id);
    }
}

/// A merge that was made changes no read, on a filesystem on which an open gives what was
/// last written to the file: the merged table holds what compaction leaves of the run, so
/// that the merge is a step that keeps every read.
pub proof fn merge_holds_what_is_left<F: Fs>(
    e: Engine,
    before: &Db<F>,
    after: &Db<F>,
    m: MergeStep,
    horizon: u64,
    file: Seq<u8>,
)
    requires
        before.wf(),
        e.stands(),
        e.db == before@,
        compact::merge_left(before, after, m, horizon, file),
        disk::left_at(
            after.changes(),
            names::path_in(before.dir_text(), names::sst_name(m.t.id)),
        ) == Some(m.t.file),
        m.t.file.len() <= u64::MAX,
        sstable::storable(e.left(m, horizon)),
    ensures
        m.t.holds(e.left(m, horizon)),
        e.can(Step::Merge { m, horizon }),
        e.after(Step::Merge { m, horizon }).db == after@,
{
    merge_leaves_its_table(before, after, m, horizon, file);
    steps::run_is_read(before@.tables, e.records, m.i, m.j);
    let inputs = e.records.subrange(m.i, m.j);
    compaction::compaction_preserves(inputs, horizon, m.i == 0, Seq::empty(), u64::MAX);
    assert(m.t.holds(e.left(m, horizon))) by {
        reveal(StoredTable::holds);
    }
}

/// A flush falls due when one is under way, or as soon as the records in memory take as
/// many bytes as the threshold says, and at no other time.
pub proof fn full_memory_is_flushed(db: DbView, threshold: nat)
    ensures
        db.frozen is Some ==> compact::flush_due(db, threshold),
        db.frozen is None ==> (compact::flush_due(db, threshold) <==> db.active.len() > 0
            && record::encoded_all(db.active).len() >= threshold),
{
    rebuild::total_is_encoded(db.active);
}

/// When a table was written, what stands at its path is a table of the records, whatever
/// was done before.
pub proof fn written_table_stands<F: Fs>(path: Seq<char>, records: Seq<RecordView>)
    requires
        sstable::was_written::<F>(path, records),
    ensures
        exists|done: Seq<Change>, file: Seq<u8>|
            #![trigger disk::ended::<F>(done), sstable::is_table(file, records)]
            {
                &&& disk::ended::<F>(done)
                &&& disk::left_at(done, path) == Some(file)
                &&& sstable::is_table(file, records)
            },
{
    let file = choose|file: Seq<u8>|
        disk::ended::<F>(#[trigger] sstable::written_as(path, file)) && sstable::is_table(
            file,
            records,
        );
    let done = sstable::written_as(path, file);
    assert(done.last() == Change::Closed { path, bytes: file });
    assert(disk::left_at(done, path) == Some(file));
    assert(sstable::is_table(file, records));
}

/// A flush that was written by a piece of work of its own and then published changes no
/// read, on a filesystem on which an open gives what was last written to the file.
pub proof fn publishing_changes_no_read<F: Fs>(
    before: &Db<F>,
    after: &Db<F>,
    file: Seq<u8>,
    key: Seq<u8>,
    bound: u64,
)
    requires
        before.wf(),
        before@.failure is None,
        before@.frozen is Some,
        flush::flushed(before@, after),
        sstable::is_table(file, before@.frozen_records()),
        disk::left_at(
            sstable::written_as(
                flush::tmp_path(before.dir_text(), before@.frozen->0.id),
                file,
            ) + flush::publishing(before.dir_text(), before@.frozen->0.id),
            names::path_in(before.dir_text(), names::sst_name(before@.frozen->0.id)),
        ) == Some(after@.tables.last().file),
        after@.tables.last().file.len() <= u64::MAX,
        sstable::storable(before@.frozen_records()),
    ensures
        after@.read(key, bound) == before@.read(key, bound),
{
    before.wf_facts();
    published_is_what_was_written(before.dir_text(), before@.frozen->0.id, file);
    let t = choose|t: StoredTable|
        after@ == #[trigger] before@.with_flushed(t) && t.id == before@.frozen->0.id
            && flush::is_published(after, t);
    assert(after@.tables.last() == t);
    assert(t.holds(before@.frozen_records())) by {
        reveal(StoredTable::holds);
    }
    state::flush_keeps_reads(before@, t, key, bound);
}

} // verus!
