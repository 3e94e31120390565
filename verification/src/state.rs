//! What a database is: the records in memory, the tables on disk, the log and
//! the manifest; and what reads of it see.
//!
//! Nothing here is code that runs. [`Db`](crate::db::Db) is described by a
//! [`DbView`], and the laws of the engine are stated over it.

use vstd::prelude::*;

use crate::batch::WriteView;
use crate::compaction;
use crate::error::ErrorView;
use crate::frame;
use crate::header;
use crate::header::{Checksum, Kind};
use crate::ids;
use crate::manifest;
use crate::manifest::{StateView, VersionEdit};
use crate::memtable;
use crate::rebuild;
use crate::record::RecordView;
use crate::scan;
use crate::scan::{ItemView, MergeView};
use crate::sstable;
use crate::sstable::TableView;
use crate::versions;
use crate::wal;

verus! {

/// A table on disk: its id, the bytes of its file, and whether reads ask its
/// Bloom filter first.
#[verifier::ext_equal]
pub struct StoredTable {
    pub id: u64,
    pub file: Seq<u8>,
    pub bloom: bool,
}

impl StoredTable {
    /// The index, filter and count that the file holds.
    pub open spec fn table(self) -> TableView {
        sstable::parsed(self.file)->Ok_0
    }

    /// Whether the keys in the index ascend. In every table that was written
    /// by this engine they do.
    pub open spec fn ascends(self) -> bool {
        sstable::index_ascends(self.table().index)
    }

    /// What a lookup finds.
    #[verifier::opaque]
    pub open spec fn lookup(self, key: Seq<u8>, bound: u64) -> core::result::Result<
        Option<RecordView>,
        ErrorView,
    > {
        sstable::looked_up(self.file, self.table(), self.bloom, key, bound)
    }

    /// The records of a range of keys, and the failures of its blocks.
    pub open spec fn items(self, start: Option<Seq<u8>>, end: Option<Seq<u8>>) -> Seq<ItemView> {
        sstable::range_items(
            self.file,
            sstable::blocks_in_range(self.table().index, start, end),
            start,
            end,
        )
    }

    /// Whether the file is one that these records were written to.
    #[verifier::opaque]
    pub open spec fn holds(self, records: Seq<RecordView>) -> bool {
        &&& sstable::is_table(self.file, records)
        &&& sstable::storable(records)
        &&& versions::sorted(records)
        &&& self.file.len() <= u64::MAX
    }
}

/// Whether each table holds its share of the records.
pub open spec fn all_hold(tables: Seq<StoredTable>, records: Seq<Seq<RecordView>>) -> bool {
    &&& tables.len() == records.len()
    &&& forall|i: int| 0 <= i < tables.len() ==> (#[trigger] tables[i]).holds(records[i])
}

/// What a lookup in tables finds, from the newest, which is the last, to the
/// oldest.
pub open spec fn looked_up_in(
    tables: Seq<StoredTable>,
    key: Seq<u8>,
    bound: u64,
) -> core::result::Result<Option<RecordView>, ErrorView>
    decreases tables.len(),
{
    if tables.len() == 0 {
        Ok(None)
    } else {
        match tables.last().lookup(key, bound) {
            Err(e) => Err(e),
            Ok(Some(r)) => Ok(Some(r)),
            Ok(None) => looked_up_in(tables.drop_last(), key, bound),
        }
    }
}

/// A MemTable that is being flushed, and the id that its table gets.
#[verifier::ext_equal]
pub struct FrozenView {
    pub records: Seq<RecordView>,
    pub id: u64,
}

/// A merge of the tables from `i` up to `j` into the table `t`.
pub struct MergeStep {
    pub i: int,
    pub j: int,
    pub t: StoredTable,
}

/// What a database is.
#[verifier::ext_equal]
pub struct DbView {
    /// The MemTable that takes writes.
    pub active: Seq<RecordView>,
    /// The MemTable that is being flushed.
    pub frozen: Option<FrozenView>,
    /// The tables, from the oldest to the newest.
    pub tables: Seq<StoredTable>,
    /// The sequence number of the next write.
    pub next_seq: u64,
    /// The id of the next table.
    pub next_sst_id: u64,
    /// The write-ahead log.
    pub log: Seq<u8>,
    /// The manifest.
    pub manifest: Seq<u8>,
    /// The horizons of the snapshots in use, and how often each is in use.
    pub horizons: Map<u64, usize>,
    /// What went wrong first, if a flush or a compaction has failed.
    pub failure: Option<Seq<char>>,
}

/// Whether a log replays to what two MemTables hold: first the writes of the
/// one that was frozen, then those of the one that took its place.
pub open spec fn backs(log: Seq<u8>, frozen: Seq<RecordView>, active: Seq<RecordView>) -> bool {
    exists|a: Seq<RecordView>, b: Seq<RecordView>|
        wal::replayed(log) == Ok::<Seq<RecordView>, ErrorView>(#[trigger] (a + b))
            && rebuild::rebuilt(a) == frozen && rebuild::rebuilt(b) == active
}

/// Whether a manifest names these tables and no others.
pub open spec fn names(log: Seq<u8>, table_ids: Seq<u64>) -> bool {
    exists|edits: Seq<VersionEdit>|
        log == #[trigger] manifest::log_of(edits) && StateView::empty().applied_all(
            edits,
        ).live_tables == table_ids.to_set()
}

/// The state that a manifest records.
pub open spec fn recorded(log: Seq<u8>) -> StateView {
    manifest::replayed(Seq::empty(), log)->Ok_0
}

/// The sequence number after a recorded one and after those of records.
pub open spec fn seq_after(recorded: nat, records: Seq<RecordView>) -> nat
    decreases records.len(),
{
    if records.len() == 0 {
        recorded
    } else {
        let n = seq_after(recorded, records.drop_last());
        if records.last().seq >= n {
            (records.last().seq + 1) as nat
        } else {
            n
        }
    }
}

/// The table id after a recorded one and after ids that ascend.
pub open spec fn id_after(recorded: nat, table_ids: Seq<u64>) -> nat {
    if table_ids.len() > 0 && table_ids.last() >= recorded {
        (table_ids.last() + 1) as nat
    } else {
        recorded
    }
}

/// Records, each in a batch of its own.
pub open spec fn singles(records: Seq<RecordView>) -> Seq<Seq<RecordView>> {
    records.map_values(|r: RecordView| seq![r])
}

/// The records of a MemTable that lie in a key range, as a source of a scan.
pub open spec fn memory_items(
    records: Seq<RecordView>,
    start: Option<Seq<u8>>,
    end: Option<Seq<u8>>,
) -> Seq<ItemView> {
    scan::ok_items(records.filter(|r: RecordView| memtable::in_range(r, start, end)))
}

impl DbView {
    /// The records of the MemTable that is being flushed.
    pub open spec fn frozen_records(self) -> Seq<RecordView> {
        match self.frozen {
            Some(f) => f.records,
            None => Seq::empty(),
        }
    }

    /// The ids of the tables.
    pub open spec fn ids(self) -> Seq<u64> {
        self.tables.map_values(|t: StoredTable| t.id)
    }

    /// What kind of log this is.
    pub open spec fn log_kind(self) -> Kind {
        wal::wal_kind(self.log)->Ok_0
    }

    /// Whether the index of every table ascends.
    pub open spec fn ordered(self) -> bool {
        forall|i: int| 0 <= i < self.tables.len() ==> (#[trigger] self.tables[i]).ascends()
    }

    /// What holds of every database, even after a failure.
    ///
    /// The MemTables are in order, and every write in the active one is newer
    /// than every write in the frozen one. The log replays to what they hold.
    /// The ids of the tables ascend, and the next one is higher. The table of the
    /// frozen MemTable may be there before the MemTable goes.
    pub open spec fn sound(self) -> bool {
        &&& versions::sorted(self.active)
        &&& versions::sorted(self.frozen_records())
        &&& rebuild::newer(self.active, self.frozen_records())
        &&& rebuild::seqs_below(self.active, self.next_seq)
        &&& rebuild::seqs_below(self.frozen_records(), self.next_seq)
        &&& wal::intact(self.log, self.log_kind())
        &&& backs(self.log, self.frozen_records(), self.active)
        &&& ids::ascends(self.ids())
        &&& forall|i: int|
            0 <= i < self.tables.len() ==> (#[trigger] self.tables[i]).id < self.next_sst_id
        &&& self.frozen matches Some(f) ==> f.id < self.next_sst_id && forall|i: int|
            0 <= i < self.tables.len() ==> (#[trigger] self.tables[i]).id <= f.id
    }

    /// What holds of every database. Unless something has failed, the manifest
    /// names the tables, and the frozen MemTable is none of them yet.
    pub open spec fn wf(self) -> bool {
        &&& self.sound()
        &&& self.failure is None ==> names(self.manifest, self.ids())
        &&& self.failure is None ==> (self.frozen matches Some(f) ==> forall|i: int|
            0 <= i < self.tables.len() ==> (#[trigger] self.tables[i]).id < f.id)
    }

    /// The newest version of a key that is in memory.
    pub open spec fn in_memory(self, key: Seq<u8>, bound: u64) -> Option<RecordView> {
        match versions::first_visible(self.active, key, bound) {
            Some(r) => Some(r),
            None => versions::first_visible(self.frozen_records(), key, bound),
        }
    }

    /// What a read sees: the newest version with a sequence number below the
    /// bound, in memory first and in the newer tables before the older ones.
    pub open spec fn read(self, key: Seq<u8>, bound: u64) -> core::result::Result<
        Option<Seq<u8>>,
        ErrorView,
    > {
        match self.in_memory(key, bound) {
            Some(r) => Ok(r.value),
            None => match looked_up_in(self.tables, key, bound) {
                Err(e) => Err(e),
                Ok(r) => Ok(versions::value_of(r)),
            },
        }
    }

    /// The sources of a scan: the records in memory, and then those of the
    /// tables, from the newest to the oldest.
    pub open spec fn sources(self, start: Option<Seq<u8>>, end: Option<Seq<u8>>) -> Seq<
        Seq<ItemView>,
    > {
        seq![
            memory_items(self.active, start, end),
            memory_items(self.frozen_records(), start, end),
        ] + Seq::new(
            self.tables.len(),
            |i: int| self.tables[self.tables.len() - 1 - i].items(start, end),
        )
    }

    /// The merge that a scan is.
    pub open spec fn merge(
        self,
        start: Option<Seq<u8>>,
        end: Option<Seq<u8>>,
        bound: u64,
    ) -> MergeView {
        MergeView { sources: self.sources(start, end), seq_bound: bound, end: None, done: None }
    }

    /// What a scan gives: the first `limit` live keys of a range, with their
    /// values.
    pub open spec fn scanned(
        self,
        start: Option<Seq<u8>>,
        end: Option<Seq<u8>>,
        bound: u64,
        limit: nat,
    ) -> core::result::Result<Seq<(Seq<u8>, Seq<u8>)>, ErrorView> {
        scan::taken(scan::results(self.merge(start, end, bound)), limit)
    }

    /// The records that writes make, with consecutive sequence numbers.
    pub open spec fn stamped(self, writes: Seq<WriteView>) -> Seq<RecordView> {
        Seq::new(
            writes.len(),
            |i: int|
                RecordView {
                    key: writes[i].key,
                    value: writes[i].value,
                    seq: (self.next_seq + i) as u64,
                },
        )
    }

    /// The database after writes that were made together.
    pub open spec fn with_writes(self, writes: Seq<WriteView>) -> DbView {
        let batch = self.stamped(writes);
        DbView {
            active: rebuild::inserted_all(self.active, batch),
            next_seq: (self.next_seq + writes.len()) as u64,
            log: if writes.len() == 0 {
                self.log
            } else {
                self.log + wal::batch_frame(self.log_kind(), batch)
            },
            ..self
        }
    }

    /// The database once the active MemTable was frozen.
    pub open spec fn with_frozen(self) -> DbView {
        DbView {
            active: Seq::empty(),
            frozen: Some(FrozenView { records: self.active, id: self.next_sst_id }),
            next_sst_id: (self.next_sst_id + 1) as u64,
            ..self
        }
    }

    /// The database with one more table.
    pub open spec fn with_table(self, t: StoredTable) -> DbView {
        DbView { tables: self.tables.push(t), ..self }
    }

    /// The database once the frozen MemTable was published as this table.
    pub open spec fn with_flushed(self, t: StoredTable) -> DbView {
        DbView {
            frozen: None,
            tables: self.tables.push(t),
            log: wal::log_of(singles(self.active)),
            manifest: self.manifest + frame::frames(
                Checksum::Castagnoli,
                manifest::edit_payloads(
                    seq![
                        VersionEdit::AddTable { id: t.id },
                        VersionEdit::SetNextSstId(self.next_sst_id),
                        VersionEdit::SetNextSeq(self.next_seq),
                    ],
                ),
            ),
            ..self
        }
    }

    /// The database once the tables from `i` up to `j` were merged into one.
    pub open spec fn with_merged(self, i: int, j: int, t: StoredTable) -> DbView {
        DbView {
            tables: self.tables.take(i).push(t) + self.tables.skip(j),
            manifest: self.manifest + frame::frames(
                Checksum::Castagnoli,
                manifest::edit_payloads(
                    self.ids().subrange(i, j - 1).map_values(
                        |id: u64| VersionEdit::DeleteTable { id },
                    ),
                ),
            ),
            ..self
        }
    }

    /// The database after one merge after another.
    pub open spec fn with_all_merged(self, merges: Seq<MergeStep>) -> DbView
        decreases merges.len(),
    {
        if merges.len() == 0 {
            self
        } else {
            let m = merges.last();
            self.with_all_merged(merges.drop_last()).with_merged(m.i, m.j, m.t)
        }
    }

    /// The writes that the log holds.
    pub open spec fn logged(self) -> Seq<RecordView> {
        wal::replayed(self.log)->Ok_0
    }

    /// The sequence number that a restart goes on with: the one that the
    /// manifest records, or the one after the writes in the log.
    pub open spec fn restart_seq(self) -> nat {
        seq_after(recorded(self.manifest).next_seq as nat, self.logged())
    }

    /// The database that a restart finds: the tables are there, the log is
    /// replayed into a fresh MemTable, and the counters go on behind what the
    /// manifest records and what is there.
    pub open spec fn restarted(self) -> DbView {
        DbView {
            active: rebuild::rebuilt(self.logged()),
            frozen: None,
            next_seq: self.restart_seq() as u64,
            next_sst_id: id_after(
                recorded(self.manifest).next_sst_id as nat,
                self.ids(),
            ) as u64,
            horizons: Map::empty(),
            failure: None,
            ..self
        }
    }

    /// The database that a checkpoint of this one is: the same tables, and an
    /// empty log.
    pub open spec fn checkpointed(self) -> DbView {
        DbView {
            active: Seq::empty(),
            frozen: None,
            log: wal::log_of(Seq::empty()),
            manifest: manifest::log_of(self.checkpoint_state().snapshot()),
            horizons: Map::empty(),
            failure: None,
            ..self
        }
    }

    /// The state that a checkpoint of this database records.
    pub open spec fn checkpoint_state(self) -> StateView {
        StateView {
            live_tables: self.ids().to_set(),
            next_seq: self.next_seq,
            next_sst_id: self.next_sst_id,
        }
    }
}

// -------------------------------------------------------------------- laws
/// A manifest records what its edits lead to.
pub proof fn edits_are_recorded(edits: Seq<VersionEdit>)
    ensures
        recorded(manifest::log_of(edits)) == StateView::empty().applied_all(edits),
{
    let none = Seq::<VersionEdit>::empty();
    manifest::append_then_replay(Seq::empty(), none, edits);
    assert(none + edits =~= edits);
}

/// The number after a recorded one and after those of records is at least the
/// recorded one, and higher than those of the records. It is no higher than it
/// has to be.
pub proof fn seq_after_bounds(recorded: nat, records: Seq<RecordView>, bound: u64)
    ensures
        seq_after(recorded, records) >= recorded,
        forall|i: int|
            0 <= i < records.len() ==> (#[trigger] records[i]).seq < seq_after(recorded, records),
        recorded <= bound && rebuild::seqs_below(records, bound) ==> seq_after(recorded, records)
            <= bound,
    decreases records.len(),
{
    if records.len() > 0 {
        let front = records.drop_last();
        seq_after_bounds(recorded, front, bound);
        if rebuild::seqs_below(records, bound) {
            assert forall|i: int| 0 <= i < front.len() implies (#[trigger] front[i]).seq < bound by {
                assert(front[i] == records[i]);
            }
            assert(records[records.len() - 1].seq < bound);
        }
        assert forall|i: int| 0 <= i < records.len() implies (#[trigger] records[i]).seq
            < seq_after(recorded, records) by {
            if i < front.len() {
                assert(front[i] == records[i]);
            }
        }
    }
}

/// More records make the number after them no lower.
pub proof fn seq_after_grows(recorded: nat, a: Seq<RecordView>, b: Seq<RecordView>)
    ensures
        seq_after(recorded, a) <= seq_after(recorded, a + b),
    decreases b.len(),
{
    if b.len() == 0 {
        assert(a + b =~= a);
    } else {
        seq_after_grows(recorded, a, b.drop_last());
        assert((a + b).drop_last() =~= a + b.drop_last());
    }
}

/// A table that holds records finds the newest version among them.
pub proof fn table_reads_back(
    t: StoredTable,
    records: Seq<RecordView>,
    key: Seq<u8>,
    bound: u64,
)
    requires
        t.holds(records),
    ensures
        t.lookup(key, bound) == Ok::<Option<RecordView>, ErrorView>(
            versions::first_visible(records, key, bound),
        ),
        t.ascends(),
        versions::sorted(records),
        versions::key_sorted(records),
{
    reveal(StoredTable::holds);
    reveal(StoredTable::lookup);
    sstable::laws::table_reads_back(t.file, records, t.bloom, key, bound);
}

/// A lookup in tables that hold records finds the newest version among the
/// records, newer tables first.
pub proof fn tables_read_back(
    tables: Seq<StoredTable>,
    records: Seq<Seq<RecordView>>,
    key: Seq<u8>,
    bound: u64,
)
    requires
        all_hold(tables, records),
    ensures
        looked_up_in(tables, key, bound) == Ok::<Option<RecordView>, ErrorView>(
            versions::first_visible(compaction::newest_first(records), key, bound),
        ),
        forall|i: int| 0 <= i < tables.len() ==> (#[trigger] tables[i]).ascends(),
    decreases tables.len(),
{
    if tables.len() > 0 {
        let t = tables.last();
        let last = records.last();
        assert(tables[tables.len() - 1].holds(records[records.len() - 1]));
        table_reads_back(t, last, key, bound);
        let front = tables.drop_last();
        let rest = records.drop_last();
        assert forall|i: int| 0 <= i < front.len() implies (#[trigger] front[i]).holds(
            rest[i],
        ) by {
            assert(tables[i].holds(records[i]));
        }
        tables_read_back(front, rest, key, bound);
        versions::first_visible_concat(last, compaction::newest_first(rest), key, bound);
        assert forall|i: int| 0 <= i < tables.len() implies (#[trigger] tables[i]).ascends() by {
            if i < front.len() {
                assert(front[i].ascends());
            }
        }
    }
}

/// Where the tables hold records, a read sees the newest version among all
/// records: those in memory, then those of the tables, newer ones first.
pub proof fn read_sees_newest(
    db: DbView,
    records: Seq<Seq<RecordView>>,
    key: Seq<u8>,
    bound: u64,
)
    requires
        all_hold(db.tables, records),
    ensures
        db.read(key, bound) == Ok::<Option<Seq<u8>>, ErrorView>(
            versions::value_of(
                versions::first_visible(
                    db.active + db.frozen_records() + compaction::newest_first(records),
                    key,
                    bound,
                ),
            ),
        ),
        db.ordered(),
{
    tables_read_back(db.tables, records, key, bound);
    versions::first_visible_concat(
        db.active + db.frozen_records(),
        compaction::newest_first(records),
        key,
        bound,
    );
    versions::first_visible_concat(db.active, db.frozen_records(), key, bound);
}

/// A write is seen by every later read of its key. It changes no read of
/// another key, and no read from before it.
pub proof fn write_is_read(db: DbView, write: WriteView, key: Seq<u8>, bound: u64)
    requires
        db.wf(),
        db.next_seq < u64::MAX,
    ensures
        key == write.key && bound > db.next_seq ==> db.with_writes(seq![write]).read(key, bound)
            == Ok::<Option<Seq<u8>>, ErrorView>(write.value),
        key != write.key || bound <= db.next_seq ==> db.with_writes(seq![write]).read(key, bound)
            == db.read(key, bound),
{
    let batch = db.stamped(seq![write]);
    let r = batch[0];
    assert(batch.drop_last() =~= Seq::empty());
    reveal_with_fuel(rebuild::inserted_all, 2);
    assert(batch.last() == r);
    rebuild::write_is_seen(db.active, r, key, bound);
}

/// What the last of these writes for a key gives it, if there is one.
pub open spec fn last_write(writes: Seq<WriteView>, key: Seq<u8>) -> Option<Option<Seq<u8>>>
    decreases writes.len(),
{
    if writes.len() == 0 {
        None
    } else if writes.last().key == key {
        Some(writes.last().value)
    } else {
        last_write(writes.drop_last(), key)
    }
}

/// Writes that are made together are seen by every later read: of a key, the last
/// of them for that key. They change no read of another key.
pub proof fn writes_are_read(db: DbView, writes: Seq<WriteView>, key: Seq<u8>, bound: u64)
    requires
        db.wf(),
        db.next_seq + writes.len() <= bound,
    ensures
        db.with_writes(writes).read(key, bound) == match last_write(writes, key) {
            Some(value) => Ok::<Option<Seq<u8>>, ErrorView>(value),
            None => db.read(key, bound),
        },
    decreases writes.len(),
{
    if writes.len() > 0 {
        let front = writes.drop_last();
        let batch = db.stamped(writes);
        let r = batch.last();
        let s = rebuild::inserted_all(db.active, db.stamped(front));
        writes_are_read(db, front, key, bound);
        stamped_facts(db, front);
        assert(batch.drop_last() =~= db.stamped(front));
        assert(r.key == writes.last().key && r.value == writes.last().value);
        assert(r.seq == db.next_seq + front.len());
        rebuild::write_is_seen(s, r, key, bound);
    }
}

/// Writes that are made together change no read from before them.
pub proof fn past_is_kept(db: DbView, writes: Seq<WriteView>, key: Seq<u8>, bound: u64)
    requires
        db.wf(),
        db.next_seq + writes.len() <= u64::MAX,
        bound <= db.next_seq,
    ensures
        db.with_writes(writes).read(key, bound) == db.read(key, bound),
{
    past_is_kept_in(db.active, db.stamped(writes), key, bound);
}

proof fn past_is_kept_in(
    s: Seq<RecordView>,
    more: Seq<RecordView>,
    key: Seq<u8>,
    bound: u64,
)
    requires
        versions::sorted(s),
        rebuild::seqs_below(s, u64::MAX),
        forall|i: int| 0 <= i < more.len() ==> (#[trigger] more[i]).seq >= bound,
        forall|i: int, j: int|
            0 <= i < j < more.len() ==> (#[trigger] more[i]).seq < (#[trigger] more[j]).seq,
        rebuild::newer(more, s),
    ensures
        versions::first_visible(rebuild::inserted_all(s, more), key, bound)
            == versions::first_visible(s, key, bound),
    decreases more.len(),
{
    if more.len() > 0 {
        let front = more.drop_last();
        assert forall|i: int| 0 <= i < front.len() implies (#[trigger] front[i]).seq >= bound by {
            assert(front[i] == more[i]);
        }
        assert forall|i: int, j: int| 0 <= i < j < front.len() implies (#[trigger] front[i]).seq < (
        #[trigger] front[j]).seq by {
            assert(front[i] == more[i] && front[j] == more[j]);
        }
        assert forall|i: int, j: int| 0 <= i < front.len() && 0 <= j < s.len() implies (
        #[trigger] front[i]).seq > (#[trigger] s[j]).seq by {
            assert(front[i] == more[i]);
        }
        past_is_kept_in(s, front, key, bound);
        let t = rebuild::inserted_all(s, front);
        let r = more.last();
        rebuild::inserted_all_sorted(s, front);
        assert forall|i: int| 0 <= i < t.len() && (#[trigger] t[i]).key == r.key implies t[i].seq
            < r.seq by {
            assert(t.contains(t[i]));
            rebuild::inserted_all_has(s, front, t[i]);
            if s.contains(t[i]) {
                let j = choose|j: int| 0 <= j < s.len() && s[j] == t[i];
                assert(more[more.len() - 1].seq > s[j].seq);
            } else {
                let j = choose|j: int| 0 <= j < front.len() && front[j] == t[i];
                assert(more[j].seq < more[more.len() - 1].seq);
            }
        }
        rebuild::write_is_seen(t, r, key, bound);
    }
}

/// Freezing the MemTable changes no read.
pub proof fn freeze_keeps_reads(db: DbView, key: Seq<u8>, bound: u64)
    requires
        db.frozen is None,
    ensures
        db.with_frozen().read(key, bound) == db.read(key, bound),
{
}

/// Publishing the frozen MemTable as a table that holds its records changes no
/// read.
pub proof fn flush_keeps_reads(db: DbView, t: StoredTable, key: Seq<u8>, bound: u64)
    requires
        db.frozen is Some,
        t.holds(db.frozen_records()),
    ensures
        db.with_flushed(t).read(key, bound) == db.read(key, bound),
{
    table_reads_back(t, db.frozen_records(), key, bound);
    assert(db.tables.push(t).drop_last() =~= db.tables);
    assert(db.tables.push(t).last() == t);
}

proof fn newest_first_concat(a: Seq<Seq<RecordView>>, b: Seq<Seq<RecordView>>)
    ensures
        compaction::newest_first(a + b) == compaction::newest_first(b) + compaction::newest_first(
            a,
        ),
    decreases b.len(),
{
    if b.len() == 0 {
        assert(a + b =~= a);
        assert(compaction::newest_first(a + b) =~= compaction::newest_first(b)
            + compaction::newest_first(a));
    } else {
        newest_first_concat(a, b.drop_last());
        assert((a + b).drop_last() =~= a + b.drop_last());
        assert(compaction::newest_first(a + b) =~= compaction::newest_first(b)
            + compaction::newest_first(a));
    }
}

/// Merging a run of tables into one that holds what compaction keeps of them
/// changes no read at or above the horizon. Deletions may be dropped where the
/// run holds the oldest table.
pub proof fn merge_keeps_reads(
    db: DbView,
    records: Seq<Seq<RecordView>>,
    i: int,
    j: int,
    t: StoredTable,
    horizon: u64,
    key: Seq<u8>,
    bound: u64,
)
    requires
        all_hold(db.tables, records),
        0 <= i < j <= db.tables.len(),
        t.holds(compaction::compacted(records.subrange(i, j), horizon, i == 0)),
        horizon <= bound,
    ensures
        db.with_merged(i, j, t).read(key, bound) == db.read(key, bound),
{
    let run = records.subrange(i, j);
    let merged = compaction::compacted(run, horizon, i == 0);
    let older = records.take(i);
    let newer = records.skip(j);
    let after = older.push(merged) + newer;
    let tables = db.with_merged(i, j, t).tables;
    assert(all_hold(tables, after)) by {
        assert forall|k: int| 0 <= k < tables.len() implies (#[trigger] tables[k]).holds(
            after[k],
        ) by {
            if k < i {
                assert(db.tables[k].holds(records[k]));
            } else if k > i {
                assert(db.tables[k - i - 1 + j].holds(records[k - i - 1 + j]));
            }
        }
    }
    tables_read_back(db.tables, records, key, bound);
    tables_read_back(tables, after, key, bound);
    assert forall|k: int| 0 <= k < run.len() implies versions::key_sorted(#[trigger] run[k]) by {
        assert(db.tables[i + k].holds(records[i + k]));
        table_reads_back(db.tables[i + k], records[i + k], key, bound);
    }
    compaction::compaction_preserves(run, horizon, i == 0, key, bound);
    assert(records =~= older + run + newer);
    newest_first_concat(older + run, newer);
    newest_first_concat(older, run);
    newest_first_concat(older.push(merged), newer);
    newest_first_concat(older, seq![merged]);
    assert(older.push(merged) =~= older + seq![merged]);
    assert(seq![merged].drop_last() =~= Seq::<Seq<RecordView>>::empty());
    reveal_with_fuel(compaction::newest_first, 2);
    assert(compaction::newest_first(seq![merged]) =~= merged);
    let n = compaction::newest_first(newer);
    let o = compaction::newest_first(older);
    let r = compaction::newest_first(run);
    versions::first_visible_concat(n, r + o, key, bound);
    versions::first_visible_concat(r, o, key, bound);
    versions::first_visible_concat(n, merged + o, key, bound);
    versions::first_visible_concat(merged, o, key, bound);
    if i == 0 {
        assert(older =~= Seq::empty());
    }
}

/// A restart changes no read: what was in memory is what the log replays to.
pub proof fn restart_keeps_reads(db: DbView, key: Seq<u8>, bound: u64)
    requires
        db.wf(),
    ensures
        db.restarted().read(key, bound) == db.read(key, bound),
{
    log_reads(db, key, bound);
}

proof fn log_reads(db: DbView, key: Seq<u8>, bound: u64)
    requires
        db.wf(),
    ensures
        db.restarted().in_memory(key, bound) == db.in_memory(key, bound),
{
    let (a, b) = choose|a: Seq<RecordView>, b: Seq<RecordView>|
        wal::replayed(db.log) == Ok::<Seq<RecordView>, ErrorView>(#[trigger] (a + b))
            && rebuild::rebuilt(a) == db.frozen_records() && rebuild::rebuilt(b) == db.active;
    assert(rebuild::newer(b, rebuild::rebuilt(a))) by {
        let past = db.frozen_records();
        assert forall|i: int, j: int| 0 <= i < b.len() && 0 <= j < past.len() implies (
        #[trigger] b[i]).seq > (#[trigger] past[j]).seq by {
            let k = version_is_kept(b, i);
            assert(db.active[k].seq > past[j].seq);
        }
    }
    rebuild::rebuilt_reads(a, b, key, bound);
    versions::first_visible_concat(db.active, db.frozen_records(), key, bound);
    assert(versions::first_visible(Seq::<RecordView>::empty(), key, bound) is None);
}

/// The version of every record that was put in is still there.
pub proof fn version_is_kept(b: Seq<RecordView>, i: int) -> (k: int)
    requires
        0 <= i < b.len(),
    ensures
        0 <= k < rebuild::rebuilt(b).len(),
        rebuild::rebuilt(b)[k].seq == b[i].seq,
    decreases b.len(),
{
    let none = Seq::<RecordView>::empty();
    let front = b.drop_last();
    let s = rebuild::inserted_all(none, front);
    let t = rebuild::rebuilt(b);
    let r = b.last();
    memtable::inserted_has(s, r);
    rebuild::inserted_all_sorted(none, front);
    if i == front.len() {
        choose|k: int| 0 <= k < t.len() && t[k] == r
    } else {
        assert(front[i] == b[i]);
        let k = version_is_kept(front, i);
        let x = s[k];
        assert(s.contains(x));
        if x.key == r.key && x.seq == r.seq {
            choose|k: int| 0 <= k < t.len() && t[k] == r
        } else {
            assert(t.contains(x));
            choose|k: int| 0 <= k < t.len() && t[k] == x
        }
    }
}

/// A write that was acknowledged survives a restart.
pub proof fn write_survives(db: DbView, write: WriteView)
    requires
        db.wf(),
        db.next_seq < u64::MAX,
        wal::batch_fits(wal::is_counted(db.log_kind()), db.stamped(seq![write])),
    ensures
        db.with_writes(seq![write]).restarted().read(write.key, u64::MAX) == Ok::<
            Option<Seq<u8>>,
            ErrorView,
        >(write.value),
{
    writes_keep_wf(db, seq![write]);
    restart_keeps_reads(db.with_writes(seq![write]), write.key, u64::MAX);
    write_is_read(db, write, write.key, u64::MAX);
}

/// A flush may be cut short between the manifest and the log: with the new
/// table named and the old log in place, a restart still changes no read.
pub proof fn restart_in_flush_keeps_reads(
    db: DbView,
    t: StoredTable,
    key: Seq<u8>,
    bound: u64,
)
    requires
        db.wf(),
        db.frozen is Some,
        t.holds(db.frozen_records()),
    ensures
        db.with_table(t).restarted().read(key, bound) == db.read(
            key,
            bound,
        ),
{
    log_reads(db, key, bound);
    table_reads_back(t, db.frozen_records(), key, bound);
    assert(db.tables.push(t).drop_last() =~= db.tables);
    assert(db.tables.push(t).last() == t);
}

/// The tables in the middle of a merge of those from `i` up to `j`: the merged
/// table stands in the place of the newest of the run, and of the others those
/// from `k` on are still named.
pub open spec fn half_merged(
    tables: Seq<StoredTable>,
    i: int,
    j: int,
    k: int,
    t: StoredTable,
) -> Seq<StoredTable> {
    tables.take(i) + tables.subrange(k, j - 1).push(t) + tables.skip(j)
}

/// A merge may be cut short between the merged table and the manifest, which
/// forgets the merged ones one by one: a restart still changes no read at or
/// above the horizon. That rests on the deletions that the merge keeps.
pub proof fn restart_in_merge_keeps_reads(
    db: DbView,
    records: Seq<Seq<RecordView>>,
    i: int,
    j: int,
    k: int,
    t: StoredTable,
    horizon: u64,
    key: Seq<u8>,
    bound: u64,
)
    requires
        db.wf(),
        all_hold(db.tables, records),
        0 <= i <= k < j <= db.tables.len(),
        t.holds(compaction::compacted(records.subrange(i, j), horizon, false)),
        horizon <= bound,
    ensures
        (DbView { tables: half_merged(db.tables, i, j, k, t), ..db }).restarted().read(key, bound)
            == db.read(key, bound),
{
    log_reads(db, key, bound);
    let run = records.subrange(i, j);
    let merged = compaction::compacted(run, horizon, false);
    let older = records.take(i);
    let gone = records.subrange(i, k);
    let stale = records.subrange(k, j - 1);
    let top = records.subrange(j - 1, j);
    let newer = records.skip(j);
    let tables = half_merged(db.tables, i, j, k, t);
    let after = older + stale.push(merged) + newer;
    half_merged_hold(db.tables, records, i, j, k, t, merged);
    tables_read_back(db.tables, records, key, bound);
    tables_read_back(tables, after, key, bound);
    assert forall|e: int| 0 <= e < run.len() implies versions::key_sorted(#[trigger] run[e]) by {
        assert(db.tables[i + e].holds(records[i + e]));
        table_reads_back(db.tables[i + e], records[i + e], key, bound);
    }
    compaction::compaction_preserves(run, horizon, false, key, bound);
    assert(records =~= older + (gone + stale + top) + newer);
    assert(run =~= gone + stale + top);
    stale_is_hidden(older, gone, stale, top, newer, merged, key, bound);
}

proof fn half_merged_hold(
    tables: Seq<StoredTable>,
    records: Seq<Seq<RecordView>>,
    i: int,
    j: int,
    k: int,
    t: StoredTable,
    merged: Seq<RecordView>,
)
    requires
        all_hold(tables, records),
        0 <= i <= k < j <= tables.len(),
        t.holds(merged),
    ensures
        all_hold(
            half_merged(tables, i, j, k, t),
            records.take(i) + records.subrange(k, j - 1).push(merged) + records.skip(j),
        ),
{
    let half = half_merged(tables, i, j, k, t);
    let after = records.take(i) + records.subrange(k, j - 1).push(merged) + records.skip(j);
    assert forall|e: int| 0 <= e < half.len() implies (#[trigger] half[e]).holds(after[e]) by {
        if e < i {
            assert(tables[e].holds(records[e]));
        } else if e < i + (j - 1 - k) {
            assert(tables[e - i + k].holds(records[e - i + k]));
        } else if e > i + (j - 1 - k) {
            let f = e - i - (j - k) + j;
            assert(tables[f].holds(records[f]));
        }
    }
}

/// What a merged table was made of may stand behind it: it hides that.
proof fn stale_is_hidden(
    older: Seq<Seq<RecordView>>,
    gone: Seq<Seq<RecordView>>,
    stale: Seq<Seq<RecordView>>,
    top: Seq<Seq<RecordView>>,
    newer: Seq<Seq<RecordView>>,
    merged: Seq<RecordView>,
    key: Seq<u8>,
    bound: u64,
)
    requires
        versions::first_visible(merged, key, bound) == versions::first_visible(
            compaction::newest_first(gone + stale + top),
            key,
            bound,
        ),
    ensures
        versions::first_visible(
            compaction::newest_first(older + stale.push(merged) + newer),
            key,
            bound,
        ) == versions::first_visible(
            compaction::newest_first(older + (gone + stale + top) + newer),
            key,
            bound,
        ),
{
    let run = gone + stale + top;
    newest_first_concat(older + run, newer);
    newest_first_concat(older, run);
    newest_first_concat(gone + stale, top);
    newest_first_concat(gone, stale);
    newest_first_concat(older + stale.push(merged), newer);
    newest_first_concat(older, stale.push(merged));
    assert(stale.push(merged).drop_last() =~= stale);
    let n = compaction::newest_first(newer);
    let o = compaction::newest_first(older);
    let r = compaction::newest_first(run);
    let s = compaction::newest_first(stale);
    let g = compaction::newest_first(gone);
    let h = compaction::newest_first(top);
    assert(merged + s + o =~= merged + (s + o));
    versions::first_visible_concat(n, r + o, key, bound);
    versions::first_visible_concat(r, o, key, bound);
    versions::first_visible_concat(h, s + g, key, bound);
    versions::first_visible_concat(s, g, key, bound);
    versions::first_visible_concat(n, merged + (s + o), key, bound);
    versions::first_visible_concat(merged, s + o, key, bound);
    versions::first_visible_concat(s, o, key, bound);
}

/// What a checkpoint's manifest replays to: the tables of the database, and its
/// counters.
pub proof fn checkpoint_is_replayed(db: DbView, path: Seq<char>)
    requires
        db.wf(),
    ensures
        manifest::replayed(path, manifest::log_of(db.checkpoint_state().snapshot())) == Ok::<
            StateView,
            ErrorView,
        >(db.checkpoint_state()),
{
    let edits = db.checkpoint_state().snapshot();
    let none = Seq::<VersionEdit>::empty();
    assert(ids::ascends(db.ids()) && db.ids().to_set() == db.checkpoint_state().live_tables);
    manifest::snapshot_reproduces(db.checkpoint_state());
    manifest::append_then_replay(path, none, edits);
    assert(none + edits =~= edits);
}

/// A checkpoint of a database with nothing in memory opens as that database: it
/// goes on with the same counters, and every read gives the same.
pub proof fn checkpoint_reads_back(db: DbView, key: Seq<u8>, bound: u64)
    requires
        db.wf(),
        db.active.len() == 0,
        db.frozen is None,
    ensures
        db.checkpointed().wf(),
        db.checkpointed().restarted() == db.checkpointed(),
        db.checkpointed().read(key, bound) == db.read(key, bound),
{
    let copy = db.checkpointed();
    let edits = db.checkpoint_state().snapshot();
    let none = Seq::<RecordView>::empty();
    assert(copy.ids() =~= db.ids());
    assert(ids::ascends(db.ids()) && db.ids().to_set() == db.checkpoint_state().live_tables);
    manifest::snapshot_reproduces(db.checkpoint_state());
    edits_are_recorded(edits);
    assert(singles(none) =~= Seq::empty());
    rewritten_log(none);
    assert(copy.logged() == none);
    assert(rebuild::rebuilt(none) == none);
    assert(db.active =~= none);
    if db.tables.len() > 0 {
        assert(db.ids().last() == db.tables[db.tables.len() - 1].id);
    }
    assert(copy.restarted() =~= copy);
    assert(names(copy.manifest, copy.ids()));
}

// --------------------------------------------------- what operations keep
proof fn stamped_facts(db: DbView, writes: Seq<WriteView>)
    requires
        db.wf(),
        db.next_seq + writes.len() <= u64::MAX,
    ensures
        ({
            let batch = db.stamped(writes);
            let after = rebuild::inserted_all(db.active, batch);
            &&& versions::sorted(after)
            &&& rebuild::newer(after, db.frozen_records())
            &&& rebuild::seqs_below(after, (db.next_seq + writes.len()) as u64)
        }),
{
    let batch = db.stamped(writes);
    let after = rebuild::inserted_all(db.active, batch);
    let past = db.frozen_records();
    rebuild::inserted_all_sorted(db.active, batch);
    assert forall|i: int| 0 <= i < after.len() implies (#[trigger] after[i]).seq < db.next_seq
        + writes.len() && (forall|j: int|
        0 <= j < past.len() ==> after[i].seq > (#[trigger] past[j]).seq) by {
        let x = after[i];
        assert(after.contains(x));
        rebuild::inserted_all_has(db.active, batch, x);
        if db.active.contains(x) {
            let k = choose|k: int| 0 <= k < db.active.len() && db.active[k] == x;
            assert(db.active[k].seq < db.next_seq);
            assert forall|j: int| 0 <= j < past.len() implies x.seq > (#[trigger] past[j]).seq by {
                assert(db.active[k].seq > past[j].seq);
            }
        } else {
            let k = choose|k: int| 0 <= k < batch.len() && batch[k] == x;
            assert(x.seq == db.next_seq + k);
        }
    }
}

/// Writes keep what holds of every database: in particular, the log replays to
/// what is in memory.
pub proof fn writes_keep_wf(db: DbView, writes: Seq<WriteView>)
    requires
        db.wf(),
        db.next_seq + writes.len() <= u64::MAX,
        writes.len() > 0,
        wal::batch_fits(wal::is_counted(db.log_kind()), db.stamped(writes)),
    ensures
        db.with_writes(writes).wf(),
{
    let after = db.with_writes(writes);
    let batch = db.stamped(writes);
    stamped_facts(db, writes);
    wal::append_then_replay(db.log, db.log_kind(), batch);
    let (a, b) = choose|a: Seq<RecordView>, b: Seq<RecordView>|
        wal::replayed(db.log) == Ok::<Seq<RecordView>, ErrorView>(#[trigger] (a + b))
            && rebuild::rebuilt(a) == db.frozen_records() && rebuild::rebuilt(b) == db.active;
    rebuild::inserted_all_concat(Seq::empty(), b, batch);
    assert(a + b + batch =~= a + (b + batch));
    assert(wal::replayed(after.log) == Ok::<Seq<RecordView>, ErrorView>(a + (b + batch)));
    assert(backs(after.log, after.frozen_records(), after.active));
    assert(after.ids() =~= db.ids());
}

/// Giving out sequence numbers without a write keeps what holds of every
/// database.
pub proof fn lost_seqs_keep_wf(db: DbView, n: nat)
    requires
        db.wf(),
        db.next_seq + n <= u64::MAX,
    ensures
        (DbView { next_seq: (db.next_seq + n) as u64, ..db }).wf(),
{
    let after = DbView { next_seq: (db.next_seq + n) as u64, ..db };
    assert(after.ids() =~= db.ids());
    assert forall|i: int| 0 <= i < db.active.len() implies (#[trigger] db.active[i]).seq
        < after.next_seq by {}
    let past = db.frozen_records();
    assert forall|i: int| 0 <= i < past.len() implies (#[trigger] past[i]).seq
        < after.next_seq by {}
}

/// Freezing the MemTable keeps what holds of every database.
pub proof fn freeze_keeps_wf(db: DbView)
    requires
        db.wf(),
        db.frozen is None,
        db.next_sst_id < u64::MAX,
    ensures
        db.with_frozen().wf(),
{
    let after = db.with_frozen();
    let (a, b) = choose|a: Seq<RecordView>, b: Seq<RecordView>|
        wal::replayed(db.log) == Ok::<Seq<RecordView>, ErrorView>(#[trigger] (a + b))
            && rebuild::rebuilt(a) == db.frozen_records() && rebuild::rebuilt(b) == db.active;
    rebuild::rebuilt_empty(a);
    let none = Seq::<RecordView>::empty();
    assert(a + b =~= b + none);
    assert(wal::replayed(db.log) == Ok::<Seq<RecordView>, ErrorView>(b + none));
    assert(rebuild::rebuilt(none) == none);
    assert(backs(after.log, after.frozen_records(), after.active));
    assert(after.ids() =~= db.ids());
}

proof fn flat_singles(records: Seq<RecordView>)
    ensures
        wal::flat(singles(records)) == records,
    decreases records.len(),
{
    if records.len() > 0 {
        assert(singles(records).drop_last() =~= singles(records.drop_last()));
        flat_singles(records.drop_last());
        assert(wal::flat(singles(records)) =~= records);
    } else {
        assert(wal::flat(singles(records)) =~= records);
    }
}

/// A log with one batch for each record of a MemTable is intact and replays to
/// that MemTable.
pub proof fn rewritten_log(records: Seq<RecordView>)
    requires
        versions::sorted(records),
        forall|i: int|
            0 <= i < records.len() ==> wal::batch_fits(true, seq![#[trigger] records[i]]),
    ensures
        ({
            let log = wal::log_of(singles(records));
            &&& wal::intact(log, Kind::Versioned(header::WAL_VERSION))
            &&& wal::replayed(log) == Ok::<Seq<RecordView>, ErrorView>(records)
            &&& backs(log, Seq::empty(), records)
        }),
{
    let batches = singles(records);
    let log = wal::log_of(batches);
    assert forall|i: int| 0 <= i < batches.len() implies wal::batch_fits(
        true,
        #[trigger] batches[i],
    ) by {
        assert(batches[i] == seq![records[i]]);
    }
    wal::log_is_intact(batches);
    flat_singles(records);
    rebuild::rebuilt_in_order(records);
    let none = Seq::<RecordView>::empty();
    assert(none + records =~= records);
    assert(wal::replayed(log) == Ok::<Seq<RecordView>, ErrorView>(none + records));
    assert(rebuild::rebuilt(none) == none);
}

/// Publishing the frozen MemTable keeps what holds of every database: in
/// particular, the manifest names the new table.
pub proof fn flush_keeps_wf(db: DbView, t: StoredTable)
    requires
        db.wf(),
        db.failure is None,
        db.frozen matches Some(f) && t.id == f.id,
        forall|i: int|
            0 <= i < db.active.len() ==> wal::batch_fits(true, seq![#[trigger] db.active[i]]),
    ensures
        db.with_flushed(t).wf(),
{
    let after = db.with_flushed(t);
    rewritten_log(db.active);
    assert(after.ids() =~= db.ids().push(t.id));
    let ids = db.ids();
    assert forall|i: int, j: int| 0 <= i < j < after.ids().len() implies after.ids()[i]
        < after.ids()[j] by {
        assert(i < db.tables.len());
        assert(db.tables[i].id == ids[i]);
        if j < ids.len() {
            assert(ids[i] < ids[j]);
        }
    }
    assert forall|i: int| 0 <= i < after.tables.len() implies (#[trigger] after.tables[i]).id
        < after.next_sst_id by {
        if i < db.tables.len() {
            assert(db.tables[i].id < t.id);
        }
    }
    let edits = choose|edits: Seq<VersionEdit>|
        db.manifest == #[trigger] manifest::log_of(edits) && StateView::empty().applied_all(
            edits,
        ).live_tables == ids.to_set();
    let more = seq![
        VersionEdit::AddTable { id: t.id },
        VersionEdit::SetNextSstId(db.next_sst_id),
        VersionEdit::SetNextSeq(db.next_seq),
    ];
    manifest::manifest_grows(edits, more);
    manifest::applied_all_concat(StateView::empty(), edits, more);
    let start = StateView::empty().applied_all(edits);
    assert(more.drop_last().drop_last().drop_last() =~= Seq::empty());
    reveal_with_fuel(StateView::applied_all, 4);
    assert(start.applied_all(more).live_tables == start.live_tables.insert(t.id));
    ids.lemma_push_to_set_commute(t.id);
    assert(after.manifest == manifest::log_of(edits + more));
    assert(names(after.manifest, after.ids()));
}

/// The table of the frozen MemTable may join the others before the MemTable goes.
pub proof fn table_keeps_sound(db: DbView, t: StoredTable)
    requires
        db.wf(),
        db.failure is None,
        db.frozen matches Some(f) && t.id == f.id,
    ensures
        db.with_table(t).sound(),
{
    let after = db.with_table(t);
    let ids = db.ids();
    assert(after.ids() =~= ids.push(t.id));
    assert forall|i: int, j: int| 0 <= i < j < after.ids().len() implies after.ids()[i]
        < after.ids()[j] by {
        assert(db.tables[i].id == ids[i]);
        if j < ids.len() {
            assert(ids[i] < ids[j]);
        }
    }
}

/// Deleting tables leaves the others, and the counters as they were.
pub proof fn deleting_tables(start: StateView, gone: Seq<u64>)
    ensures
        start.applied_all(gone.map_values(|id: u64| VersionEdit::DeleteTable { id })) == (
        StateView { live_tables: start.live_tables.difference(gone.to_set()), ..start }),
    decreases gone.len(),
{
    let edits = gone.map_values(|id: u64| VersionEdit::DeleteTable { id });
    if gone.len() == 0 {
        assert(gone.to_set() =~= Set::empty());
        assert(start.live_tables.difference(gone.to_set()) =~= start.live_tables);
    } else {
        let front = gone.drop_last();
        let id = gone.last();
        deleting_tables(start, front);
        assert(edits.drop_last() =~= front.map_values(|id: u64| VersionEdit::DeleteTable { id }));
        assert(gone =~= front.push(id));
        front.lemma_push_to_set_commute(id);
        assert(start.live_tables.difference(gone.to_set()) =~= start.live_tables.difference(
            front.to_set(),
        ).remove(id));
    }
}

/// Merging a run of tables into one that takes the id of the newest of them
/// keeps what holds of every database: in particular, the manifest names the
/// tables that are left.
pub proof fn merge_keeps_wf(db: DbView, i: int, j: int, t: StoredTable)
    requires
        db.wf(),
        db.failure is None,
        0 <= i < j <= db.tables.len(),
        t.id == db.tables[j - 1].id,
    ensures
        db.with_merged(i, j, t).wf(),
{
    let after = db.with_merged(i, j, t);
    let ids = db.ids();
    let left = after.ids();
    let gone = ids.subrange(i, j - 1);
    assert(left =~= ids.take(i) + ids.skip(j - 1));
    assert forall|k: int| 0 <= k < after.tables.len() implies (#[trigger] after.tables[k]).id < (
    match after.frozen {
        Some(f) => f.id,
        None => after.next_sst_id,
    }) by {
        if k < i {
            assert(after.tables[k] == db.tables[k]);
        } else if k == i {
            assert(db.tables[j - 1].id == t.id);
        } else {
            assert(after.tables[k] == db.tables[k - i - 1 + j]);
        }
    }
    assert(ids::ascends(left)) by {
        assert forall|a: int, b: int| 0 <= a < b < left.len() implies left[a] < left[b] by {
            let x = if a < i {
                a
            } else {
                a - i + j - 1
            };
            let y = if b < i {
                b
            } else {
                b - i + j - 1
            };
            assert(left[a] == ids[x] && left[b] == ids[y]);
        }
    }
    let edits = choose|edits: Seq<VersionEdit>|
        db.manifest == #[trigger] manifest::log_of(edits) && StateView::empty().applied_all(
            edits,
        ).live_tables == ids.to_set();
    let more = gone.map_values(|id: u64| VersionEdit::DeleteTable { id });
    manifest::manifest_grows(edits, more);
    manifest::applied_all_concat(StateView::empty(), edits, more);
    deleting_tables(StateView::empty().applied_all(edits), gone);
    assert(ids.to_set().difference(gone.to_set()) =~= left.to_set()) by {
        assert forall|x: u64| #[trigger] ids.to_set().difference(gone.to_set()).contains(x)
            <==> left.to_set().contains(x) by {
            if ids.contains(x) && !gone.contains(x) {
                let k = choose|k: int| 0 <= k < ids.len() && ids[k] == x;
                if i <= k < j - 1 {
                    assert(gone[k - i] == x);
                } else if k < i {
                    assert(left[k] == x);
                } else {
                    assert(left[k - (j - 1) + i] == x);
                }
            }
            if left.contains(x) {
                let k = choose|k: int| 0 <= k < left.len() && left[k] == x;
                let y = if k < i {
                    k
                } else {
                    k - i + j - 1
                };
                assert(ids[y] == x);
                if gone.contains(x) {
                    let g = choose|g: int| 0 <= g < gone.len() && gone[g] == x;
                    assert(ids[i + g] == x);
                    assert(i + g != y);
                }
            }
        }
    }
    assert(after.manifest == manifest::log_of(edits + more));
    assert(names(after.manifest, after.ids()));
}

/// Writes that are made together get consecutive numbers, from the next one on, in the
/// order in which they were made, and the next number is the one behind them.
pub proof fn writes_are_numbered(db: DbView, writes: Seq<WriteView>, i: int)
    requires
        0 <= i < writes.len(),
        db.next_seq + writes.len() <= u64::MAX,
    ensures
        db.stamped(writes).len() == writes.len(),
        db.stamped(writes)[i].seq == db.next_seq + i,
        db.stamped(writes)[i].key == writes[i].key,
        db.stamped(writes)[i].value == writes[i].value,
        db.with_writes(writes).next_seq == db.next_seq + writes.len(),
{
}

/// The id after a recorded one and after tables is at least the recorded one, higher
/// than those of the tables, and no higher than it has to be.
pub proof fn id_after_bounds(recorded: nat, table_ids: Seq<u64>, bound: nat)
    requires
        ids::ascends(table_ids),
    ensures
        id_after(recorded, table_ids) >= recorded,
        forall|i: int|
            0 <= i < table_ids.len() ==> #[trigger] table_ids[i] < id_after(recorded, table_ids),
        recorded <= bound && (forall|i: int|
            0 <= i < table_ids.len() ==> #[trigger] table_ids[i] < bound) ==> id_after(
            recorded,
            table_ids,
        ) <= bound,
{
    if table_ids.len() > 0 {
        let last = table_ids[table_ids.len() - 1];
        assert(last == table_ids.last());
        assert forall|i: int| 0 <= i < table_ids.len() implies #[trigger] table_ids[i]
            < id_after(recorded, table_ids) by {
            assert(i < table_ids.len() - 1 ==> table_ids[i] < last);
        }
    }
}

} // verus!
