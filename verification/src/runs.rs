//! Whole runs of a database: writes, flushes, merges, snapshots and restarts, one
//! after the other and in any order. After every run, a read gives what a plain
//! map would that took the same writes, and a read through a snapshot that is
//! still in use gives what it gave when the snapshot was taken.
//!
//! Nothing here is code that runs.

use vstd::prelude::*;

use crate::batch::WriteView;
use crate::compaction;
use crate::error::ErrorView;
use crate::layers;
use crate::rebuild;
use crate::record::RecordView;
use crate::snapshots;
use crate::state;
use crate::state::{DbView, MergeStep, StoredTable};
use crate::versions;
use crate::wal;

verus! {

/// One thing that happens to a database.
pub enum Step {
    /// These writes are made together.
    Write { writes: Seq<WriteView> },
    /// Writes fail, and their sequence numbers are lost.
    Lose { n: nat },
    /// The MemTable is frozen.
    Freeze,
    /// The frozen MemTable is published as this table.
    Flush { t: StoredTable },
    /// A run of tables is merged. What is seen at the horizon or above is kept.
    Merge { m: MergeStep, horizon: u64 },
    /// A snapshot is taken.
    Hold,
    /// A snapshot with this horizon is released.
    Release { horizon: u64 },
    /// The database is closed, or crashes, and is opened again. Its manifest is
    /// written anew, and reads may ask the Bloom filters or not.
    Restart { manifest: Seq<u8>, bloom: bool },
}

/// Tables whose Bloom filters are asked or not.
pub open spec fn asked(tables: Seq<StoredTable>, bloom: bool) -> Seq<StoredTable> {
    tables.map_values(|t: StoredTable| StoredTable { bloom, ..t })
}

/// A database, and the records that its tables hold.
#[verifier::ext_equal]
pub struct Engine {
    pub db: DbView,
    pub records: Seq<Seq<RecordView>>,
}

impl Engine {
    /// What holds of a database at every point of a run.
    pub open spec fn stands(self) -> bool {
        &&& self.db.wf()
        &&& self.db.failure is None
        &&& state::all_hold(self.db.tables, self.records)
        &&& layers::in_layers(self.db, self.records)
    }

    /// The records that a merge leaves.
    pub open spec fn left(self, m: MergeStep, horizon: u64) -> Seq<RecordView> {
        compaction::compacted(self.records.subrange(m.i, m.j), horizon, m.i == 0)
    }

    /// Whether a step can be taken: there are numbers left, the log takes the
    /// writes, and a new table holds what it was written from. A merge keeps what
    /// the snapshots in use can see.
    pub open spec fn can(self, step: Step) -> bool {
        match step {
            Step::Write { writes } => {
                &&& self.db.next_seq + writes.len() <= u64::MAX
                &&& writes.len() > 0
                &&& wal::batch_fits(
                    wal::is_counted(self.db.log_kind()),
                    self.db.stamped(writes),
                )
            },
            Step::Lose { n } => self.db.next_seq + n <= u64::MAX,
            Step::Freeze => self.db.frozen is None && self.db.next_sst_id < u64::MAX,
            Step::Flush { t } => {
                &&& self.db.frozen matches Some(f) && t.id == f.id
                &&& t.holds(self.db.frozen_records())
                &&& forall|i: int|
                    0 <= i < self.db.active.len() ==> wal::batch_fits(
                        true,
                        seq![#[trigger] self.db.active[i]],
                    )
            },
            Step::Merge { m, horizon } => {
                &&& 0 <= m.i < m.j <= self.db.tables.len()
                &&& m.t.id == self.db.tables[m.j - 1].id
                &&& m.t.holds(self.left(m, horizon))
                &&& snapshots::is_lowest(self.db.horizons, horizon)
            },
            Step::Hold => true,
            Step::Release { horizon } => self.db.horizons.contains_key(horizon),
            Step::Restart { manifest, .. } => {
                &&& state::names(manifest, self.db.ids())
                &&& state::recorded(manifest) == state::recorded(self.db.manifest)
            },
        }
    }

    /// The database after a step.
    pub open spec fn after(self, step: Step) -> Engine {
        match step {
            Step::Write { writes } => Engine { db: self.db.with_writes(writes), ..self },
            Step::Lose { n } => Engine {
                db: DbView { next_seq: (self.db.next_seq + n) as u64, ..self.db },
                ..self
            },
            Step::Freeze => Engine { db: self.db.with_frozen(), ..self },
            Step::Flush { t } => Engine {
                db: self.db.with_flushed(t),
                records: self.records.push(self.db.frozen_records()),
            },
            Step::Merge { m, horizon } => Engine {
                db: self.db.with_merged(m.i, m.j, m.t),
                records: self.records.take(m.i).push(self.left(m, horizon)) + self.records.skip(
                    m.j,
                ),
            },
            Step::Hold => Engine {
                db: DbView {
                    horizons: snapshots::held_more(self.db.horizons, self.db.next_seq),
                    ..self.db
                },
                ..self
            },
            Step::Release { horizon } => Engine {
                db: DbView {
                    horizons: snapshots::held_less(self.db.horizons, horizon),
                    ..self.db
                },
                ..self
            },
            Step::Restart { manifest, bloom } => Engine {
                db: DbView {
                    tables: asked(self.db.tables, bloom),
                    manifest,
                    ..self.db.restarted()
                },
                ..self
            },
        }
    }

    /// The database after one step after another.
    pub open spec fn after_all(self, steps: Seq<Step>) -> Engine
        decreases steps.len(),
    {
        if steps.len() == 0 {
            self
        } else {
            self.after_all(steps.drop_last()).after(steps.last())
        }
    }

    /// Whether steps can be taken one after the other.
    pub open spec fn can_all(self, steps: Seq<Step>) -> bool
        decreases steps.len(),
    {
        steps.len() > 0 ==> self.can_all(steps.drop_last()) && self.after_all(
            steps.drop_last(),
        ).can(steps.last())
    }
}

// ------------------------------------------------------------------ the map
/// What a map holds for a key.
pub open spec fn value_in(map: Map<Seq<u8>, Seq<u8>>, key: Seq<u8>) -> Option<Seq<u8>> {
    if map.contains_key(key) {
        Some(map[key])
    } else {
        None
    }
}

/// A map after writes: a value is put in, or the key taken out.
pub open spec fn map_with(map: Map<Seq<u8>, Seq<u8>>, writes: Seq<WriteView>) -> Map<
    Seq<u8>,
    Seq<u8>,
>
    decreases writes.len(),
{
    if writes.len() == 0 {
        map
    } else {
        let before = map_with(map, writes.drop_last());
        match writes.last().value {
            Some(value) => before.insert(writes.last().key, value),
            None => before.remove(writes.last().key),
        }
    }
}

/// A map after the writes of a run. Nothing else changes it.
pub open spec fn map_after(map: Map<Seq<u8>, Seq<u8>>, steps: Seq<Step>) -> Map<Seq<u8>, Seq<u8>>
    decreases steps.len(),
{
    if steps.len() == 0 {
        map
    } else {
        let before = map_after(map, steps.drop_last());
        match steps.last() {
            Step::Write { writes } => map_with(before, writes),
            _ => before,
        }
    }
}

/// Whether every read gives what a map holds.
pub open spec fn reads_as(db: DbView, map: Map<Seq<u8>, Seq<u8>>) -> bool {
    forall|key: Seq<u8>| #[trigger]
        db.read(key, u64::MAX) == Ok::<Option<Seq<u8>>, ErrorView>(value_in(map, key))
}

// -------------------------------------------------------------------- laws
/// What writes give a key is what the last of them for that key does.
proof fn map_takes_last(map: Map<Seq<u8>, Seq<u8>>, writes: Seq<WriteView>, key: Seq<u8>)
    ensures
        value_in(map_with(map, writes), key) == match state::last_write(writes, key) {
            Some(value) => value,
            None => value_in(map, key),
        },
    decreases writes.len(),
{
    if writes.len() > 0 {
        map_takes_last(map, writes.drop_last(), key);
    }
}

/// A restart keeps what holds of every database.
proof fn restart_keeps_wf(e: Engine, manifest: Seq<u8>, bloom: bool)
    requires
        e.stands(),
        e.can(Step::Restart { manifest, bloom }),
    ensures
        e.after(Step::Restart { manifest, bloom }).db.wf(),
        state::all_hold(e.after(Step::Restart { manifest, bloom }).db.tables, e.records),
{
    let db = e.db;
    let after = e.after(Step::Restart { manifest, bloom }).db;
    assert forall|i: int| 0 <= i < after.tables.len() implies (#[trigger] after.tables[i]).holds(
        e.records[i],
    ) by {
        assert(db.tables[i].holds(e.records[i]));
        reveal(StoredTable::holds);
    }
    let none = Seq::<RecordView>::empty();
    let logged = db.logged();
    rebuild::inserted_all_sorted(none, logged);
    state::seq_after_bounds(
        state::recorded(db.manifest).next_seq as nat,
        logged,
        db.next_seq,
    );
    assert forall|i: int| 0 <= i < after.active.len() implies (#[trigger] after.active[i]).seq
        < after.next_seq by {
        assert(after.active.contains(after.active[i]));
        rebuild::inserted_all_has(none, logged, after.active[i]);
        let k = choose|k: int| 0 <= k < logged.len() && logged[k] == after.active[i];
        assert(logged[k].seq < db.restart_seq());
    }
    assert(none + logged =~= logged);
    assert(wal::replayed(db.log) == Ok::<Seq<RecordView>, ErrorView>(none + logged));
    assert(rebuild::rebuilt(none) == none);
    assert(state::backs(after.log, none, after.active));
    assert(after.ids() =~= db.ids());
    if db.tables.len() > 0 {
        let last = db.tables[db.tables.len() - 1];
        assert(db.ids().last() == last.id);
        assert(last.id < u64::MAX);
        assert forall|i: int| 0 <= i < after.tables.len() implies (#[trigger] after.tables[i]).id
            < after.next_sst_id by {
            assert(db.ids()[i] == db.tables[i].id);
            if i < db.tables.len() - 1 {
                assert(db.ids()[i] < db.ids()[db.tables.len() - 1]);
            }
        }
    }
}

/// A step keeps what holds of a database at every point of a run.
pub proof fn step_keeps(e: Engine, step: Step)
    requires
        e.stands(),
        e.can(step),
    ensures
        e.after(step).stands(),
{
    let db = e.db;
    let after = e.after(step);
    match step {
        Step::Write { writes } => {
            state::writes_keep_wf(db, writes);
            layers::writes_keep_layers(db, e.records, writes);
        },
        Step::Lose { n } => {
            state::lost_seqs_keep_wf(db, n);
            assert(layers::layers(after.db, e.records) =~= layers::layers(db, e.records));
        },
        Step::Freeze => {
            state::freeze_keeps_wf(db);
            layers::freeze_keeps_layers(db, e.records);
        },
        Step::Flush { t } => {
            state::flush_keeps_wf(db, t);
            layers::flush_keeps_layers(db, e.records, t);
            let tables = after.db.tables;
            assert forall|i: int| 0 <= i < tables.len() implies (#[trigger] tables[i]).holds(
                after.records[i],
            ) by {
                if i < db.tables.len() {
                    assert(db.tables[i].holds(e.records[i]));
                }
            }
        },
        Step::Merge { m, horizon } => {
            state::merge_keeps_wf(db, m.i, m.j, m.t);
            layers::merge_keeps_layers(db, e.records, m.i, m.j, m.t, horizon);
            let tables = after.db.tables;
            assert forall|k: int| 0 <= k < tables.len() implies (#[trigger] tables[k]).holds(
                after.records[k],
            ) by {
                if k < m.i {
                    assert(db.tables[k].holds(e.records[k]));
                } else if k > m.i {
                    assert(db.tables[k - m.i - 1 + m.j].holds(e.records[k - m.i - 1 + m.j]));
                }
            }
        },
        Step::Hold => {
            assert(after.db.ids() =~= db.ids());
            assert(layers::layers(after.db, e.records) =~= layers::layers(db, e.records));
        },
        Step::Release { .. } => {
            assert(after.db.ids() =~= db.ids());
            assert(layers::layers(after.db, e.records) =~= layers::layers(db, e.records));
        },
        Step::Restart { manifest, bloom } => {
            restart_keeps_wf(e, manifest, bloom);
            layers::restart_keeps_layers(db, e.records);
            assert(layers::layers(after.db, e.records) =~= layers::layers(
                db.restarted(),
                e.records,
            ));
        },
    }
}

/// A step that is no write changes no read, and a write gives its keys their
/// values.
proof fn step_reads(e: Engine, step: Step, key: Seq<u8>)
    requires
        e.stands(),
        e.can(step),
    ensures
        e.after(step).db.read(key, u64::MAX) == match step {
            Step::Write { writes } => match state::last_write(writes, key) {
                Some(value) => Ok::<Option<Seq<u8>>, ErrorView>(value),
                None => e.db.read(key, u64::MAX),
            },
            _ => e.db.read(key, u64::MAX),
        },
{
    match step {
        Step::Write { writes } => {
            state::writes_are_read(e.db, writes, key, u64::MAX);
        },
        Step::Merge { m, horizon } => {
            state::merge_keeps_reads(
                e.db,
                e.records,
                m.i,
                m.j,
                m.t,
                horizon,
                key,
                u64::MAX,
            );
        },
        _ => {
            quiet_step_reads(e, step, key, u64::MAX);
        },
    }
}

/// A step that is neither a write nor a merge changes no read at all.
proof fn quiet_step_reads(e: Engine, step: Step, key: Seq<u8>, bound: u64)
    requires
        e.stands(),
        e.can(step),
        !(step is Write) && !(step is Merge),
    ensures
        e.after(step).db.read(key, bound) == e.db.read(key, bound),
{
    match step {
        Step::Freeze => {
            state::freeze_keeps_reads(e.db, key, bound);
        },
        Step::Flush { t } => {
            state::flush_keeps_reads(e.db, t, key, bound);
        },
        Step::Restart { manifest, bloom } => {
            restart_keeps_wf(e, manifest, bloom);
            state::restart_keeps_reads(e.db, key, bound);
            let after = e.after(step).db;
            state::tables_read_back(e.db.tables, e.records, key, bound);
            state::tables_read_back(after.tables, e.records, key, bound);
            assert(after.in_memory(key, bound) == e.db.restarted().in_memory(key, bound));
        },
        _ => {},
    }
}

/// A database is a map: after any run, every read gives what the map would that
/// took the writes of the run, whatever was flushed, merged and restarted in
/// between.
pub proof fn run_is_a_map(e: Engine, map: Map<Seq<u8>, Seq<u8>>, steps: Seq<Step>)
    requires
        e.stands(),
        reads_as(e.db, map),
        e.can_all(steps),
    ensures
        e.after_all(steps).stands(),
        reads_as(e.after_all(steps).db, map_after(map, steps)),
    decreases steps.len(),
{
    if steps.len() > 0 {
        let front = steps.drop_last();
        let step = steps.last();
        run_is_a_map(e, map, front);
        let mid = e.after_all(front);
        let held = map_after(map, front);
        step_keeps(mid, step);
        assert forall|key: Seq<u8>| #[trigger]
            mid.after(step).db.read(key, u64::MAX) == Ok::<Option<Seq<u8>>, ErrorView>(
                value_in(map_after(map, steps), key),
            ) by {
            step_reads(mid, step, key);
            assert(mid.db.read(key, u64::MAX) == Ok::<Option<Seq<u8>>, ErrorView>(
                value_in(held, key),
            ));
            if let Step::Write { writes } = step {
                map_takes_last(held, writes, key);
            }
        }
    }
}

/// A database in which nothing was written is the empty map.
pub proof fn nothing_is_the_empty_map(db: DbView)
    requires
        db.active.len() == 0,
        db.frozen is None,
        db.tables.len() == 0,
    ensures
        reads_as(db, Map::empty()),
{
    assert forall|key: Seq<u8>| #[trigger]
        db.read(key, u64::MAX) == Ok::<Option<Seq<u8>>, ErrorView>(
            value_in(Map::empty(), key),
        ) by {
        assert(versions::first_visible(db.active, key, u64::MAX) is None);
    }
}

/// Whether a snapshot with this horizon is in use before every step of a run and
/// at its end.
pub open spec fn held_through(e: Engine, steps: Seq<Step>, horizon: u64) -> bool
    decreases steps.len(),
{
    &&& e.after_all(steps).db.horizons.contains_key(horizon)
    &&& steps.len() > 0 ==> held_through(e, steps.drop_last(), horizon)
}

/// A read through a snapshot gives what it gave when the snapshot was taken, as
/// long as the snapshot is in use: whatever was written, flushed and merged
/// since.
pub proof fn snapshot_is_kept(e: Engine, steps: Seq<Step>, horizon: u64, key: Seq<u8>)
    requires
        e.stands(),
        e.can_all(steps),
        horizon <= e.db.next_seq,
        held_through(e, steps, horizon),
    ensures
        e.after_all(steps).stands(),
        e.after_all(steps).db.next_seq >= horizon,
        e.after_all(steps).db.read(key, horizon) == e.db.read(key, horizon),
    decreases steps.len(),
{
    if steps.len() > 0 {
        let front = steps.drop_last();
        let step = steps.last();
        snapshot_is_kept(e, front, horizon, key);
        let mid = e.after_all(front);
        assert(mid.db.horizons.contains_key(horizon)) by {
            assert(held_through(e, front, horizon));
        }
        assert(mid.after(step).db.horizons.contains_key(horizon));
        step_keeps(mid, step);
        match step {
            Step::Write { writes } => {
                state::past_is_kept(mid.db, writes, key, horizon);
            },
            Step::Merge { m, horizon: low } => {
                assert(low <= horizon);
                state::merge_keeps_reads(
                    mid.db,
                    mid.records,
                    m.i,
                    m.j,
                    m.t,
                    low,
                    key,
                    horizon,
                );
            },
            _ => {
                quiet_step_reads(mid, step, key, horizon);
            },
        }
    }
}

} // verus!
