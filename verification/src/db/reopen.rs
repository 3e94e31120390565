//! What a directory gives back that is opened again.
//!
//! Nothing here is code that runs.

use vstd::prelude::*;

use super::{Db, DirView};
use crate::batch::WriteView;
use crate::directory;
use crate::error::{ErrorView, IoErrorView, Result};
use crate::fs::{Fs, OpenMode};
use crate::header::Kind;
use crate::ids;
use crate::manifest;
use crate::manifest::{StateView, VersionEdit};
use crate::names;
use crate::options::Options;
use crate::record::RecordView;
use crate::state;
use crate::state::DbView;
use crate::wal;

verus! {

/// Whether this is what a database left in its directory: the state that its
/// manifest records, the files of its tables, and its log, with nothing behind it
/// but what is not kept of a log.
pub open spec fn left_by(db: DbView, found: DirView) -> bool {
    &&& found.state == state::recorded(db.manifest)
    &&& forall|i: int|
        0 <= i < db.tables.len() ==> (#[trigger] db.tables[i]).file
            == found.files[db.tables[i].id]
    &&& wal::kept_log(found.log) == db.log
}

/// Whether the tables of a database are asked in the same way with these options,
/// or are such that it makes no difference: each holds the records that it was
/// written from.
pub open spec fn asked_alike(
    db: DbView,
    opts: Options,
    records: Seq<Seq<RecordView>>,
) -> bool {
    ||| forall|i: int|
        0 <= i < db.tables.len() ==> (#[trigger] db.tables[i]).bloom == opts.bloom_enabled
    ||| state::all_hold(db.tables, records)
}

/// What an open finds of what a database left is that database: the same tables
/// in the same order, the same log byte for byte, and every read gives the same.
pub proof fn found_again<F: Fs>(
    before: DbView,
    db: &Db<F>,
    dir: Seq<char>,
    opts: Options,
    found: DirView,
    records: Seq<Seq<RecordView>>,
    key: Seq<u8>,
    bound: u64,
)
    requires
        before.wf(),
        before.failure is None,
        left_by(before, found),
        asked_alike(before, opts, records),
        super::opened_from(db, dir, opts, found),
    ensures
        db@.ids() == before.ids(),
        db@.log == before.log,
        db@.frozen is None,
        db@.read(key, bound) == before.read(key, bound),
{
    db.wf_facts();
    let after = db@;
    let edits = choose|edits: Seq<VersionEdit>|
        before.manifest == #[trigger] manifest::log_of(edits) && StateView::empty().applied_all(
            edits,
        ).live_tables == before.ids().to_set();
    state::edits_are_recorded(edits);
    ids::order_is_unique(after.ids(), before.ids());
    assert(after.tables.len() == after.ids().len());
    assert(before.tables.len() == before.ids().len());
    assert forall|i: int| 0 <= i < after.tables.len() implies (#[trigger] after.tables[i]).file
        == before.tables[i].file && after.tables[i].id == before.tables[i].id by {
        assert(after.ids()[i] == after.tables[i].id);
        assert(before.ids()[i] == before.tables[i].id);
    }
    state::restart_keeps_reads(before, key, bound);
    let restarted = before.restarted();
    assert(after.active == restarted.active);
    assert(after.in_memory(key, bound) == restarted.in_memory(key, bound));
    if state::all_hold(before.tables, records) {
        assert forall|i: int| 0 <= i < after.tables.len() implies (
        #[trigger] after.tables[i]).holds(records[i]) by {
            assert(before.tables[i].holds(records[i]));
            reveal(state::StoredTable::holds);
        }
        state::tables_read_back(before.tables, records, key, bound);
        state::tables_read_back(after.tables, records, key, bound);
    } else {
        assert(after.tables =~= before.tables);
    }
}

/// A log in which every frame is whole is kept byte for byte by an open.
pub proof fn whole_log_is_kept<F: Fs>(
    db: &Db<F>,
    dir: Seq<char>,
    opts: Options,
    found: DirView,
    kind: Kind,
)
    requires
        super::opened_from(db, dir, opts, found),
        wal::intact(found.log, kind),
    ensures
        db@.log == found.log,
{
    wal::intact_log_is_kept(found.log, kind);
}

/// A directory that is opened again gives back what was in it: if what the
/// filesystem answered to the open is what the database before had left there,
/// every read gives the same as before.
pub proof fn reopening_gives_back<F: Fs>(
    before: DbView,
    db: &Db<F>,
    dir: Seq<char>,
    opts: Options,
    records: Seq<Seq<RecordView>>,
    key: Seq<u8>,
    bound: u64,
)
    requires
        before.wf(),
        before.failure is None,
        asked_alike(before, opts, records),
        super::opened(db, dir, opts),
    ensures
        exists|found: DirView| #[trigger]
            super::dir_read::<F>(dir, found) && super::opened_from(db, dir, opts, found) && (
            left_by(before, found) ==> {
                &&& db@.ids() == before.ids()
                &&& db@.log == before.log
                &&& db@.read(key, bound) == before.read(key, bound)
            }),
{
    let found = choose|found: DirView| #[trigger]
        super::dir_read::<F>(dir, found) && super::opened_from(db, dir, opts, found);
    if left_by(before, found) {
        found_again(before, db, dir, opts, found, records, key, bound);
    }
}

/// A write that was acknowledged is there when the directory is opened again: of
/// writes that were made together, the last one for a key.
pub proof fn acknowledged_is_given_back<F: Fs>(
    before: &Db<F>,
    after: &Db<F>,
    r: Result<()>,
    writes: Seq<WriteView>,
    db: &Db<F>,
    dir: Seq<char>,
    opts: Options,
    records: Seq<Seq<RecordView>>,
    key: Seq<u8>,
)
    requires
        before.wf(),
        after.wf(),
        before@.failure is None,
        super::wrote(before, after, r, writes),
        r is Ok,
        asked_alike(after@, opts, records),
        super::opened(db, dir, opts),
    ensures
        exists|found: DirView| #[trigger]
            super::dir_read::<F>(dir, found) && super::opened_from(db, dir, opts, found) && (
            left_by(after@, found) ==> db@.read(
                key,
                u64::MAX,
            ) == match state::last_write(writes, key) {
                Some(value) => Ok::<Option<Seq<u8>>, ErrorView>(value),
                None => before@.read(key, u64::MAX),
            }),
{
    before.wf_facts();
    after.wf_facts();
    if writes.len() > 0 {
        state::writes_are_read(before@, writes, key, u64::MAX);
    }
    reopening_gives_back(after@, db, dir, opts, records, key, u64::MAX);
}

/// A checkpoint opens as the database that it was made of: if what the filesystem
/// answered to the open is what the checkpoint put there, every read gives the
/// same.
pub proof fn checkpoint_opens_as<F: Fs>(
    origin: DbView,
    db: &Db<F>,
    target: Seq<char>,
    opts: Options,
    records: Seq<Seq<RecordView>>,
    key: Seq<u8>,
    bound: u64,
)
    requires
        origin.wf(),
        origin.active.len() == 0,
        origin.frozen is None,
        asked_alike(origin, opts, records),
        super::opened(db, target, opts),
    ensures
        exists|found: DirView| #[trigger]
            super::dir_read::<F>(target, found) && super::opened_from(db, target, opts, found) && (
            left_by(origin.checkpointed(), found) ==> {
                &&& db@.ids() == origin.ids()
                &&& db@.read(key, bound) == origin.read(key, bound)
            }),
{
    state::checkpoint_reads_back(origin, key, bound);
    assert(origin.checkpointed().ids() =~= origin.ids());
    reopening_gives_back(origin.checkpointed(), db, target, opts, records, key, bound);
}

/// A manifest that cannot be read lets no database be opened: where there is a
/// `CURRENT`, and nothing that it names was ever read, the open fails.
pub proof fn unreadable_manifest_opens_nothing<F: Fs>(db: &Db<F>, dir: Seq<char>, opts: Options)
    requires
        forall|answer: core::result::Result<u64, IoErrorView>| #[trigger]
            F::sized(names::path_in(dir, names::CURRENT_FILENAME@), answer) ==> answer is Ok,
        forall|generation: u64, state: StateView| !#[trigger]
            manifest::found::<F>(dir, generation, state),
    ensures
        !super::opened(db, dir, opts),
{
}

/// A directory whose lock is held elsewhere is refused: where every attempt to
/// take the lock was answered with a failure, nothing is opened.
pub proof fn held_lock_opens_nothing<F: Fs>(db: &Db<F>, dir: Seq<char>, opts: Options)
    requires
        forall|answer: core::result::Result<Seq<u8>, IoErrorView>| #[trigger]
            F::answered(directory::lock_path(dir), OpenMode::Lock, answer) ==> answer is Err,
    ensures
        !super::opened(db, dir, opts),
{
}

} // verus!
