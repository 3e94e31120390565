//! What the calls on a database are as steps of a run.
//!
//! Nothing here is code that runs.

use vstd::prelude::*;

use super::compact;
use super::flush;
use super::reopen;
use super::{Db, DirView};
use crate::batch::WriteView;
use crate::bytes;
use crate::compaction;
use crate::directory;
use crate::directory::WAL_FILENAME;
use crate::error::{ErrorView, IoErrorKind, IoErrorView, Result};
use crate::fs;
use crate::fs::{File, Fs, OpenMode};
use crate::header::Kind;
use crate::layers;
use crate::manifest;
use crate::manifest::StateView;
use crate::names;
use crate::options::Options;
use crate::rebuild;
use crate::record;
use crate::record::RecordView;
use crate::runs;
use crate::runs::{Engine, Step};
use crate::snapshots;
use crate::sstable;
use crate::sstable::reader;
use crate::state;
use crate::state::{MergeStep, StoredTable};
use crate::versions;
use crate::wal;

verus! {

/// Writes that succeeded are a step.
pub proof fn write_is_a_step<F: Fs>(
    e: Engine,
    before: &Db<F>,
    after: &Db<F>,
    r: Result<()>,
    writes: Seq<WriteView>,
)
    requires
        e.stands(),
        e.db == before@,
        writes.len() > 0,
        super::wrote(before, after, r, writes),
        r is Ok,
    ensures
        e.can(Step::Write { writes }),
        e.after(Step::Write { writes }).db == after@,
{
}

/// A database with a frozen MemTable: the one that is frozen, or else the active
/// one once it is.
pub open spec fn frozen(e: Engine) -> Engine {
    if e.db.frozen is Some {
        e
    } else {
        e.after(Step::Freeze)
    }
}

/// A table holds what was written for it, if the bytes that were read are those that
/// were made durable before the file was renamed.
pub proof fn what_was_written_is_held<F: Fs>(
    tmp: Seq<char>,
    records: Seq<RecordView>,
    t: StoredTable,
)
    requires
        sstable::is_stored::<F>(tmp, records),
        forall|file: Seq<u8>| #[trigger] F::File::synced(tmp, file) && sstable::is_table(
            file,
            records,
        ) ==> t.file == file,
        versions::sorted(records),
        sstable::storable(records),
        t.file.len() <= u64::MAX,
    ensures
        t.holds(records),
{
    reveal(StoredTable::holds);
}

/// A flush that succeeded is one or two steps: the MemTable is frozen, unless one
/// was, and becomes a table. That holds if the table holds what was written for
/// it.
pub proof fn flush_is_steps<F: Fs>(e: Engine, before: &Db<F>, after: &Db<F>)
    requires
        e.stands(),
        e.db == before@,
        flush::flush_done(before@, after, Ok(())),
        before@.frozen is Some || before@.active.len() > 0,
    ensures
        before@.frozen is None ==> e.can(Step::Freeze),
        sstable::is_stored::<F>(
            flush::tmp_path(after.dir_text(), frozen(e).db.frozen->0.id),
            frozen(e).db.frozen_records(),
        ),
        exists|t: StoredTable|
            after@.tables == before@.tables.push(t) && (#[trigger] t.holds(
                frozen(e).db.frozen_records(),
            ) ==> frozen(e).can(Step::Flush { t }) && frozen(e).after(Step::Flush { t }).db
                == after@),
{
    let start = frozen(e);
    let t = choose|t: StoredTable|
        after@ == #[trigger] start.db.with_flushed(t) && t.id == start.db.frozen->0.id
            && flush::is_published(after, t);
    let held = t.holds(frozen(e).db.frozen_records());
    assert(held ==> start.can(Step::Flush { t }));
}

/// A merge that was made is a step, if the merged table holds what was written for
/// it.
pub proof fn merge_is_a_step<F: Fs>(e: Engine, before: &Db<F>, after: &Db<F>)
    requires
        e.stands(),
        e.db == before@,
        compact::compact_done(before@, after, Ok(true)),
    ensures
        exists|m: MergeStep, horizon: u64|
            {
                &&& 0 <= m.i < m.j <= before@.tables.len()
                &&& after@ == before@.with_merged(m.i, m.j, m.t)
                &&& snapshots::is_lowest(before@.horizons, horizon)
                &&& sstable::is_stored::<F>(
                    flush::tmp_path(after.dir_text(), m.t.id),
                    e.left(m, horizon),
                )
                &&& #[trigger] m.t.holds(e.left(m, horizon)) ==> e.can(Step::Merge { m, horizon })
                    && e.after(Step::Merge { m, horizon }).db == after@
            },
{
    let m = choose|m: MergeStep|
        compact::is_merge(after, before@, m) && after@ == #[trigger] before@.with_merged(
            m.i,
            m.j,
            m.t,
        );
    let run = before@.tables.subrange(m.i, m.j);
    let inputs = compact::run_records(run);
    let horizon = choose|horizon: u64| #[trigger]
        snapshots::is_lowest(before@.horizons, horizon) && (
        compaction::all_key_sorted(inputs) ==> sstable::is_stored::<F>(
            flush::tmp_path(after.dir_text(), m.t.id),
            compaction::compacted(inputs, horizon, m.i == 0),
        ));
    run_is_read(before@.tables, e.records, m.i, m.j);
    let held = m.t.holds(e.left(m, horizon));
    assert(held ==> e.can(Step::Merge { m, horizon }));
}

/// What is read of a run of tables is what they hold.
pub proof fn run_is_read(
    tables: Seq<StoredTable>,
    records: Seq<Seq<RecordView>>,
    i: int,
    j: int,
)
    requires
        state::all_hold(tables, records),
        0 <= i < j <= tables.len(),
    ensures
        compact::run_records(tables.subrange(i, j)) == records.subrange(i, j),
        compaction::all_key_sorted(records.subrange(i, j)),
{
    let run = tables.subrange(i, j);
    let held = records.subrange(i, j);
    assert forall|k: int| 0 <= k < run.len() implies compact::stored_records(#[trigger] run[k])
        == Ok::<Seq<RecordView>, ErrorView>(held[k]) && versions::key_sorted(held[k]) by {
        assert(tables[i + k].holds(records[i + k]));
        reveal(StoredTable::holds);
        sstable::laws::table_reads_back(
            run[k].file,
            held[k],
            run[k].bloom,
            Seq::empty(),
            0,
        );
    }
    assert(compact::run_records(run) =~= held);
    assert forall|k: int| 0 <= k < held.len() implies versions::key_sorted(
        #[trigger] held[k],
    ) by {
        assert(compact::stored_records(run[k]) is Ok);
    }
}

/// Opening a directory in which a database left what it had is a step: a restart.
pub proof fn reopening_is_a_step<F: Fs>(
    e: Engine,
    db: &Db<F>,
    dir: Seq<char>,
    opts: Options,
    found: DirView,
)
    requires
        e.stands(),
        reopen::left_by(e.db, found),
        super::opened_from(db, dir, opts, found),
    ensures
        ({
            let step = Step::Restart { manifest: db@.manifest, bloom: opts.bloom_enabled };
            &&& e.can(step)
            &&& e.after(step).db == db@
        }),
{
    let step = Step::Restart { manifest: db@.manifest, bloom: opts.bloom_enabled };
    let key = Seq::<u8>::empty();
    reopen::found_again(e.db, db, dir, opts, found, e.records, key, 0);
    db.wf_facts();
    let after = e.after(step).db;
    assert(after.tables =~= db@.tables) by {
        assert(db@.tables.len() == db@.ids().len());
        assert(e.db.tables.len() == e.db.ids().len());
        assert forall|i: int| 0 <= i < db@.tables.len() implies after.tables[i]
            == #[trigger] db@.tables[i] by {
            assert(db@.ids()[i] == db@.tables[i].id);
            assert(e.db.ids()[i] == e.db.tables[i].id);
        }
    }
    assert(after =~= db@);
}

/// A database that is opened in an empty directory stands at the start of a run, and
/// holds nothing.
pub proof fn empty_directory_holds_nothing<F: Fs>(
    db: &Db<F>,
    dir: Seq<char>,
    opts: Options,
    found: DirView,
)
    requires
        super::opened_from(db, dir, opts, found),
        found.state == StateView::empty(),
        found.log == Seq::<u8>::empty(),
    ensures
        (Engine { db: db@, records: Seq::empty() }).stands(),
        runs::reads_as(db@, Map::empty()),
{
    db.wf_facts();
    wal::fresh_log();
    let none = Seq::<RecordView>::empty();
    assert(db@.tables.len() == 0) by {
        if db@.tables.len() > 0 {
            assert(db@.ids().to_set().contains(db@.ids()[0]));
        }
    }
    assert(db@.logged() == none);
    assert(rebuild::rebuilt(none) == none);
    assert(db@.active == none);
    assert(db@.restart_seq() == 0);
    runs::nothing_is_the_empty_map(db@);
}

/// What `get` gives back at a point of a run is what a map holds that took the same
/// writes, unless the filesystem fails: from an empty directory on, whatever was
/// written, flushed, merged and opened again in between.
pub proof fn get_gives_what_the_map_holds<F: Fs>(
    fresh: &Db<F>,
    dir: Seq<char>,
    opts: Options,
    found: DirView,
    steps: Seq<Step>,
    db: &Db<F>,
    key: Seq<u8>,
    r: Result<Option<Vec<u8>>>,
)
    requires
        super::opened_from(fresh, dir, opts, found),
        found.state == StateView::empty(),
        found.log == Seq::<u8>::empty(),
        (Engine { db: fresh@, records: Seq::empty() }).can_all(steps),
        db@ == (Engine { db: fresh@, records: Seq::empty() }).after_all(steps).db,
        db.tells(r, key, u64::MAX),
    ensures
        match r {
            Ok(v) => super::value_view(v) == runs::value_in(
                runs::map_after(Map::empty(), steps),
                key,
            ),
            Err(e) => fs::handed_on::<F::File>(e@),
        },
{
    let start = Engine { db: fresh@, records: Seq::empty() };
    empty_directory_holds_nothing(fresh, dir, opts, found);
    runs::run_is_a_map(start, Map::empty(), steps);
    let e = start.after_all(steps);
    state::tables_read_back(e.db.tables, e.records, key, u64::MAX);
    assert(db@.read(key, u64::MAX) == Ok::<Option<Seq<u8>>, ErrorView>(
        runs::value_in(runs::map_after(Map::empty(), steps), key),
    ));
}

/// Whether the filesystem never failed, and every file that it opened fits in
/// memory.
pub open spec fn nothing_failed<F: Fs>() -> bool {
    &&& forall|x: IoErrorView| !#[trigger] F::File::gave(x)
    &&& forall|path: Seq<char>, mode: OpenMode, x: IoErrorView| !#[trigger]
        F::answered(path, mode, Err(x))
    &&& forall|path: Seq<char>, mode: OpenMode, file: Seq<u8>| #[trigger]
        F::answered(path, mode, Ok(file)) ==> file.len() <= usize::MAX
    &&& forall|path: Seq<char>, x: IoErrorView| !#[trigger] F::sized(path, Err(x))
}

/// Whether every table that was read at the path of this id is one.
pub open spec fn tables_parse<F: Fs>(dir: Seq<char>, id: u64) -> bool {
    forall|file: Seq<u8>| #[trigger]
        F::answered(names::path_in(dir, names::sst_name(id)), OpenMode::Read, Ok(file))
            ==> sstable::parsed(file) is Ok
}

/// Whether the log can be rewritten for these records: each fits in a frame, and all
/// in a file.
pub open spec fn fit_in_a_log(records: Seq<RecordView>) -> bool {
    &&& forall|i: int|
        0 <= i < records.len() ==> wal::batch_fits(true, seq![#[trigger] records[i]])
    &&& forall|i: int|
        0 <= i <= records.len() ==> wal::log_of(state::singles(#[trigger] records.take(i))).len()
            <= u64::MAX
}

/// A flush in which the filesystem does not fail succeeds: as long as there is an id
/// left for the table, a table can hold the records, what was published can be read
/// back, and what was written since fits in a log.
pub proof fn flush_succeeds<F: Fs>(e: Engine, before: &Db<F>, after: &Db<F>, r: Result<()>)
    requires
        e.db == before@,
        before@.failure is None,
        flush::flush_done(before@, after, r),
        nothing_failed::<F>(),
        before@.frozen is None ==> before@.next_sst_id < u64::MAX,
        sstable::is_writable(frozen(e).db.frozen_records()),
        tables_parse::<F>(after.dir_text(), frozen(e).db.frozen->0.id),
        fit_in_a_log(frozen(e).db.active),
    ensures
        r is Ok,
{
    if r is Err {
        let x = choose|x: ErrorView|
            flush::flush_failed(before@, after, x) && after@.failure == Some(#[trigger] x.text());
        table_is_opened::<F>(after.dir_text(), frozen(e).db.frozen->0.id, x);
    }
}

/// Whether the records of a run of tables, which starts at this table, are in order,
/// and a table can hold what compaction leaves of them.
pub open spec fn leaves_a_table(run: Seq<StoredTable>, horizon: u64, start: int) -> bool {
    let inputs = compact::run_records(run);
    compaction::all_key_sorted(inputs) && sstable::is_writable(
        compaction::compacted(inputs, horizon, start == 0),
    )
}

/// A step of compaction in which the filesystem does not fail succeeds: as long as
/// the tables can be read, a table can hold what is left of a run, and what was
/// published can be read back. Where there are too few tables for a run, it succeeds
/// in any case.
#[verifier::spinoff_prover]
#[verifier::rlimit(30)]
pub proof fn compaction_succeeds<F: Fs>(before: &Db<F>, after: &Db<F>, r: Result<bool>)
    requires
        before@.failure is None,
        compact::compact_done(before@, after, r),
        before@.tables.len() >= after.options().compaction_threshold ==> {
            &&& nothing_failed::<F>()
            &&& forall|i: int|
                0 <= i < before@.tables.len() ==> compact::stored_records(
                    #[trigger] before@.tables[i],
                ) is Ok && tables_parse::<F>(after.dir_text(), before@.tables[i].id)
            &&& forall|i: int, j: int, horizon: u64|
                0 <= i < j <= before@.tables.len() ==> #[trigger] leaves_a_table(
                    before@.tables.subrange(i, j),
                    horizon,
                    i,
                )
        },
    ensures
        r is Ok,
{
    if r is Err {
        let x = choose|x: ErrorView|
            compact::compact_failed(after, before@, x) && after@.failure == Some(
                #[trigger] x.text(),
            );
        assert(!compact::size_untold::<F>(after.dir_text(), before@.ids(), x));
        let (i, j, horizon) = choose|i: int, j: int, horizon: u64| #[trigger]
            compact::run_failed(after, before@, i, j, horizon, x);
        let run = before@.tables.subrange(i, j);
        assert(leaves_a_table(run, horizon, i));
        assert forall|k: int| 0 <= k < run.len() implies compact::stored_records(
            #[trigger] run[k],
        ) is Ok by {
            assert(run[k] == before@.tables[i + k]);
        }
        run_is_merged::<F>(run, horizon, i, x);
        table_is_opened::<F>(after.dir_text(), before@.tables[j - 1].id, x);
    }
}

proof fn run_is_merged<F: Fs>(run: Seq<StoredTable>, horizon: u64, start: int, x: ErrorView)
    requires
        nothing_failed::<F>(),
        forall|k: int|
            0 <= k < run.len() ==> compact::stored_records(#[trigger] run[k]) is Ok,
        leaves_a_table(run, horizon, start),
    ensures
        !compact::unmerged::<F>(run, horizon, start == 0, x),
{
}

proof fn table_is_opened<F: Fs>(dir: Seq<char>, id: u64, x: ErrorView)
    requires
        nothing_failed::<F>(),
        tables_parse::<F>(dir, id),
    ensures
        !reader::unopened::<F>(names::path_in(dir, names::sst_name(id)), x),
{
}

/// What a read gives back at any point of a run, now or through a snapshot, is the value
/// that the key has there, unless the filesystem fails.
pub proof fn reads_are_told<F: Fs>(
    e: Engine,
    db: &Db<F>,
    key: Seq<u8>,
    bound: u64,
    r: Result<Option<Vec<u8>>>,
)
    requires
        e.stands(),
        e.db == db@,
        db.tells(r, key, bound),
    ensures
        match r {
            Ok(v) => db@.read(key, bound) == Ok::<Option<Seq<u8>>, ErrorView>(
                super::value_view(v),
            ),
            Err(x) => fs::handed_on::<F::File>(x@),
        },
{
    state::tables_read_back(e.db.tables, e.records, key, bound);
}

/// What a scan gives back at any point of a run, now or through a snapshot, unless the
/// filesystem fails: the first keys of the range that have a value, each with the value
/// that a read gives, in order, and as many as were asked for.
#[verifier::spinoff_prover]
#[verifier::rlimit(30)]
pub proof fn scans_are_told<F: Fs>(
    e: Engine,
    db: &Db<F>,
    start: Option<Seq<u8>>,
    end: Option<Seq<u8>>,
    bound: u64,
    limit: usize,
    r: Result<Vec<(Vec<u8>, Vec<u8>)>>,
)
    requires
        e.stands(),
        e.db == db@,
        db.lists(r, start, end, bound, limit),
    ensures
        match r {
            Ok(v) => {
                let pairs = super::range::pair_views(v@);
                &&& pairs.len() <= limit
                &&& forall|i: int|
                    0 <= i < pairs.len() ==> layers::key_in_range(
                        (#[trigger] pairs[i]).0,
                        start,
                        end,
                    ) && db@.read(pairs[i].0, bound) == Ok::<Option<Seq<u8>>, ErrorView>(
                        Some(pairs[i].1),
                    )
                &&& forall|i: int, j: int|
                    0 <= i < j < pairs.len() ==> bytes::lex_lt(
                        (#[trigger] pairs[i]).0,
                        (#[trigger] pairs[j]).0,
                    )
                &&& forall|k: Seq<u8>, value: Seq<u8>|
                    layers::key_in_range(k, start, end) && #[trigger] layers::is_value(
                        db@.read(k, bound),
                        value,
                    ) && !pairs.contains((k, value)) ==> pairs.len() == limit && forall|i: int|
                        0 <= i < limit ==> bytes::lex_lt((#[trigger] pairs[i]).0, k)
            },
            Err(x) => fs::handed_on::<F::File>(x@),
        },
{
    state::tables_read_back(e.db.tables, e.records, Seq::empty(), bound);
    layers::scan_gives_the_first_values(db@, e.records, start, end, limit as nat, bound);
}

/// Writes that a frame can hold succeed, unless the filesystem fails: as long as nothing
/// failed before, there are numbers left for them, they take less than four gigabytes,
/// memory has room for them, and the log is of a kind that takes batches.
pub proof fn writes_succeed<F: Fs>(
    before: &Db<F>,
    after: &Db<F>,
    r: Result<()>,
    writes: Seq<WriteView>,
)
    requires
        super::wrote(before, after, r, writes),
        before@.failure is None,
        before@.next_seq + writes.len() <= u64::MAX,
        4 + record::encoded_all(before@.stamped(writes)).len() < 0x1_0000_0000,
        record::encoded_all(before@.active).len() + record::encoded_all(
            before@.stamped(writes),
        ).len() <= usize::MAX,
        before@.log_kind() == Kind::Versioned(3),
        before@.with_writes(writes).log.len() <= u64::MAX,
    ensures
        r is Ok || fs::handed_on::<F::File>(r->Err_0@),
        nothing_failed::<F>() ==> r is Ok,
{
    wal::batch_layout(Seq::empty(), 3);
    wal::batches_up_to_four_gigabytes_fit(before@.stamped(writes));
    rebuild::total_is_encoded(before@.active);
    rebuild::total_is_encoded(before@.stamped(writes));
}

/// Writes that failed change no read, and writes that succeeded are read: of those for a
/// key the last.
pub proof fn writes_are_told<F: Fs>(
    before: &Db<F>,
    after: &Db<F>,
    r: Result<()>,
    writes: Seq<WriteView>,
    key: Seq<u8>,
    bound: u64,
)
    requires
        before.wf(),
        super::wrote(before, after, r, writes),
    ensures
        r is Err ==> after@.read(key, bound) == before@.read(key, bound),
        r is Ok && before@.failure is None ==> after@.read(
            key,
            u64::MAX,
        ) == match state::last_write(writes, key) {
            Some(value) => Ok::<Option<Seq<u8>>, ErrorView>(value),
            None => before@.read(key, u64::MAX),
        },
{
    before.wf_facts();
    if r is Ok && writes.len() > 0 {
        state::writes_are_read(before@, writes, key, u64::MAX);
    }
}

/// Whether what was read of a directory is sound: `CURRENT` names a generation, and not
/// the last, the manifests and the log can be replayed, the tables can be read, and
/// neither ids nor numbers nor memory run out.
pub open spec fn directory_is_sound<F: Fs>(dir: Seq<char>) -> bool {
    &&& forall|bytes: Seq<u8>| #[trigger]
        F::answered(names::path_in(dir, names::CURRENT_FILENAME@), OpenMode::Read, Ok(bytes)) ==> (
        names::generation_in(names::utf8_lossy(bytes)) matches Ok(g) && g < u64::MAX)
    &&& forall|generation: u64, log: Seq<u8>| #[trigger]
        F::answered(
            names::path_in(dir, names::manifest_name(generation)),
            OpenMode::Read,
            Ok(log),
        ) ==> manifest::replayed(
            names::path_in(dir, names::manifest_name(generation)),
            log,
        ) is Ok
    &&& forall|id: u64| #[trigger] tables_parse::<F>(dir, id)
    &&& forall|log: Seq<u8>| #[trigger]
        F::answered(names::path_in(dir, WAL_FILENAME@), OpenMode::Append, Ok(log)) ==> (
        wal::replayed(log) matches Ok(records) && rebuild::seqs_below(records, u64::MAX)
            && record::encoded_all(records).len() <= usize::MAX)
    &&& forall|state: StateView| #[trigger]
        super::manifest_found::<F>(dir, state) ==> !state.live_tables.contains(u64::MAX)
}

/// A directory that is sound is opened, unless the filesystem fails.
pub proof fn sound_directory_opens<F: Fs>(dir: Seq<char>, e: ErrorView)
    requires
        nothing_failed::<F>(),
        directory_is_sound::<F>(dir),
    ensures
        !super::opening_failed::<F>(e, dir),
{
    if super::opening_failed::<F>(e, dir) {
        if super::no_manifest::<F>(dir, e) {
            manifest_is_read::<F>(dir, e);
        } else if exists|state: StateView| #[trigger]
            super::manifest_found::<F>(dir, state) && super::unfit::<F>(dir, state, e) {
            let state = choose|state: StateView| #[trigger]
                super::manifest_found::<F>(dir, state) && super::unfit::<F>(dir, state, e);
            directory_is_fit::<F>(dir, state, e);
        }
    }
}

proof fn manifest_is_read<F: Fs>(dir: Seq<char>, e: ErrorView)
    requires
        nothing_failed::<F>(),
        directory_is_sound::<F>(dir),
    ensures
        !super::no_manifest::<F>(dir, e),
{
    let current = names::path_in(dir, names::CURRENT_FILENAME@);
    if super::no_manifest::<F>(dir, e) {
        let told = choose|told: core::result::Result<u64, IoErrorView>| #[trigger]
            F::sized(current, told) && if told is Ok {
                manifest::unfound::<F>(dir, e)
            } else {
                ||| fs::handed_on::<F::File>(e)
                ||| exists|paths: Seq<Seq<char>>| #[trigger]
                    F::listed(dir, paths) && directory::ids_in(paths).contains(u64::MAX) && e
                        == super::out_of_ids()
            };
        if told is Err {
            assert(F::sized(current, Err(told->Err_0)));
        }
        assert(manifest::unfound::<F>(dir, e));
    }
    if manifest::unnamed::<F>(dir, e) {
        let answer = choose|answer: core::result::Result<Seq<u8>, IoErrorView>| #[trigger]
            F::answered(current, OpenMode::Read, answer) && match answer {
                Ok(bytes) => fs::unread::<F::File>(bytes.len(), e) || names::generation_in(
                    names::utf8_lossy(bytes),
                ) == Err::<u64, ErrorView>(e),
                Err(x) => e == ErrorView::Io(x),
            };
        if answer is Err {
            assert(F::answered(current, OpenMode::Read, Err(answer->Err_0)));
        } else {
            assert(F::answered(current, OpenMode::Read, Ok(answer->Ok_0)));
        }
    } else if manifest::unfound::<F>(dir, e) {
        let generation = choose|generation: u64| #[trigger]
            manifest::named::<F>(dir, generation) && {
                ||| manifest::unreplayed::<F>(
                    names::path_in(dir, names::manifest_name(generation)),
                    e,
                )
                ||| fs::handed_on::<F::File>(e)
                ||| generation == u64::MAX && e == manifest::no_generation()
            };
        assert(manifest::named::<F>(dir, generation));
        let path = names::path_in(dir, names::manifest_name(generation));
        if manifest::unreplayed::<F>(path, e) {
            let answer = choose|answer: core::result::Result<Seq<u8>, IoErrorView>| #[trigger]
                F::answered(path, OpenMode::Read, answer) && match answer {
                    Ok(log) => fs::unread::<F::File>(log.len(), e) || manifest::replayed(
                        path,
                        log,
                    ) == Err::<StateView, ErrorView>(e),
                    Err(x) => x.kind != IoErrorKind::NotFound && e == ErrorView::Io(x),
                };
            assert(F::answered(path, OpenMode::Read, answer));
            if answer is Err {
                assert(F::answered(path, OpenMode::Read, Err(answer->Err_0)));
            } else {
                assert(F::answered(path, OpenMode::Read, Ok(answer->Ok_0)));
            }
        }
    }
}

proof fn directory_is_fit<F: Fs>(dir: Seq<char>, state: StateView, e: ErrorView)
    requires
        nothing_failed::<F>(),
        directory_is_sound::<F>(dir),
        super::manifest_found::<F>(dir, state),
    ensures
        !super::unfit::<F>(dir, state, e),
{
    let path = names::path_in(dir, WAL_FILENAME@);
    if exists|id: u64| #[trigger]
        state.live_tables.contains(id) && reader::unopened::<F>(
            names::path_in(dir, names::sst_name(id)),
            e,
        ) {
        let id = choose|id: u64| #[trigger]
            state.live_tables.contains(id) && reader::unopened::<F>(
                names::path_in(dir, names::sst_name(id)),
                e,
            );
        assert(tables_parse::<F>(dir, id));
        table_is_opened::<F>(dir, id, e);
    }
    assert forall|log: Seq<u8>| #[trigger]
        F::answered(path, OpenMode::Append, Ok(log)) implies rebuild::has_room(
        Seq::empty(),
        wal::replayed(log)->Ok_0,
    ) by {
        rebuild::total_is_encoded(wal::replayed(log)->Ok_0);
    }
}

/// A checkpoint in a directory that holds no database is made, unless the filesystem
/// fails.
pub proof fn checkpoint_succeeds<F: Fs>(target: Seq<char>, e: ErrorView)
    requires
        super::checkpoint::unlinked::<F>(target, e),
        forall|n: u64| !#[trigger]
            F::sized(names::path_in(target, names::CURRENT_FILENAME@), Ok(n)),
    ensures
        fs::handed_on::<F::File>(e),
{
}

} // verus!
