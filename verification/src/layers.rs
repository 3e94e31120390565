//! The records of a database in layers: what newer layers hold is newer. Every
//! operation keeps them so, and so does a restart at any point. That is why a
//! lookup may stop at the first layer that has the key, and why a scan gives
//! what lookups give.
//!
//! Nothing here is code that runs.

use vstd::prelude::*;

use crate::batch::WriteView;
use crate::bytes;
use crate::compaction;
use crate::error::ErrorView;
use crate::manifest;
use crate::manifest::{StateView, VersionEdit};
use crate::memtable;
use crate::rebuild;
use crate::record::RecordView;
use crate::scan;
use crate::scan::MergeView;
use crate::sstable;
use crate::state;
use crate::state::{DbView, StoredTable};
use crate::versions;
use crate::wal;

verus! {

// ------------------------------------------------------- scans and lookups
/// The records of a database in layers, newer ones first: the active MemTable,
/// the frozen one, and the tables.
pub open spec fn layers(db: DbView, records: Seq<Seq<RecordView>>) -> Seq<Seq<RecordView>> {
    seq![db.active, db.frozen_records()] + Seq::new(
        records.len(),
        |i: int| records[records.len() - 1 - i],
    )
}

/// Whether a version in a newer layer is newer than every version of the same
/// key in an older one, but for those that stand in both. In a database it is:
/// a MemTable is frozen and flushed whole, and tables are merged in runs. A
/// version stands in two layers if a restart cut a flush or a merge short.
pub open spec fn layered(ls: Seq<Seq<RecordView>>) -> bool {
    forall|a: int, b: int, x: RecordView, y: RecordView|
        0 <= a < b < ls.len() && #[trigger] ls[a].contains(x) && #[trigger] ls[b].contains(y)
            && x.key == y.key ==> x.seq > y.seq || ls[a].contains(y)
}

/// The layers, one behind the other.
pub open spec fn stacked(ls: Seq<Seq<RecordView>>) -> Seq<RecordView>
    decreases ls.len(),
{
    if ls.len() == 0 {
        Seq::empty()
    } else {
        ls[0] + stacked(ls.drop_first())
    }
}

proof fn filtered(s: Seq<RecordView>, p: spec_fn(RecordView) -> bool)
    requires
        versions::sorted(s),
    ensures
        versions::sorted(s.filter(p)),
        forall|x: RecordView| #[trigger] s.filter(p).contains(x) <==> s.contains(x) && p(x),
    decreases s.len(),
{
    reveal(Seq::filter);
    let t = s.filter(p);
    if s.len() > 0 {
        let front = s.drop_last();
        let last = s.last();
        let u = front.filter(p);
        assert forall|i: int, j: int| 0 <= i < j < front.len() implies versions::precedes(
            #[trigger] front[i],
            #[trigger] front[j],
        ) by {
            assert(front[i] == s[i] && front[j] == s[j]);
        }
        filtered(front, p);
        assert forall|x: RecordView| #[trigger] s.contains(x) <==> front.contains(x) || x
            == last by {
            if s.contains(x) {
                let i = choose|i: int| 0 <= i < s.len() && s[i] == x;
                if i < front.len() {
                    assert(front[i] == x);
                }
            }
            if front.contains(x) {
                let i = choose|i: int| 0 <= i < front.len() && front[i] == x;
                assert(s[i] == x);
            }
            assert(s[s.len() - 1] == last);
        }
        if p(last) {
            assert(t == u.push(last));
            assert forall|x: RecordView| #[trigger] t.contains(x) <==> u.contains(x) || x
                == last by {
                if t.contains(x) {
                    let i = choose|i: int| 0 <= i < t.len() && t[i] == x;
                    if i < u.len() {
                        assert(u[i] == x);
                    }
                }
                if u.contains(x) {
                    let i = choose|i: int| 0 <= i < u.len() && u[i] == x;
                    assert(t[i] == x);
                }
                assert(t[t.len() - 1] == last);
            }
            assert forall|i: int, j: int| 0 <= i < j < t.len() implies versions::precedes(
                #[trigger] t[i],
                #[trigger] t[j],
            ) by {
                assert(t[i] == u[i]);
                if j < u.len() {
                    assert(t[j] == u[j]);
                } else {
                    assert(u.contains(u[i]));
                    assert(front.contains(u[i]));
                    let k = choose|k: int| 0 <= k < front.len() && front[k] == u[i];
                    assert(versions::precedes(s[k], s[s.len() - 1]));
                }
            }
        } else {
            assert(t == u);
        }
    } else {
        assert(t =~= Seq::empty());
    }
}

/// In layers, the first version that is seen is the newest of all.
proof fn first_is_newest(ls: Seq<Seq<RecordView>>, key: Seq<u8>, bound: u64)
    requires
        layered(ls),
        forall|i: int| 0 <= i < ls.len() ==> versions::sorted(#[trigger] ls[i]),
    ensures
        match versions::first_visible(stacked(ls), key, bound) {
            Some(r) => versions::visible(r, key, bound) && (exists|i: int|
                0 <= i < ls.len() && (#[trigger] ls[i]).contains(r)) && forall|
                i: int,
                x: RecordView,
            |
                0 <= i < ls.len() && #[trigger] ls[i].contains(x) && versions::visible(
                    x,
                    key,
                    bound,
                ) ==> x.seq < r.seq || x == r,
            None => forall|i: int, x: RecordView|
                0 <= i < ls.len() && #[trigger] ls[i].contains(x) ==> !versions::visible(
                    x,
                    key,
                    bound,
                ),
        },
    decreases ls.len(),
{
    if ls.len() > 0 {
        let top = ls[0];
        let rest = ls.drop_first();
        assert forall|i: int| 0 <= i < rest.len() implies versions::sorted(#[trigger] rest[i]) by {
            assert(rest[i] == ls[i + 1]);
        }
        assert(layered(rest)) by {
            assert forall|a: int, b: int, x: RecordView, y: RecordView|
                0 <= a < b < rest.len() && #[trigger] rest[a].contains(x)
                    && #[trigger] rest[b].contains(y) && x.key == y.key implies x.seq > y.seq
                || rest[a].contains(y) by {
                assert(ls[a + 1].contains(x) && ls[b + 1].contains(y));
            }
        }
        first_is_newest(rest, key, bound);
        versions::first_visible_concat(top, stacked(rest), key, bound);
        assert(versions::sorted(top));
        rebuild::seen_facts(top, key, bound);
        match versions::first_visible(top, key, bound) {
            Some(r) => {
                assert(ls[0].contains(r));
                assert forall|i: int, x: RecordView|
                    0 <= i < ls.len() && #[trigger] ls[i].contains(x) && versions::visible(
                        x,
                        key,
                        bound,
                    ) implies x.seq < r.seq || x == r by {
                    if i > 0 {
                        assert(ls[0].contains(r) && ls[i].contains(x));
                    }
                    if top.contains(x) && x.seq == r.seq {
                        same_version(top, x, r);
                    }
                }
            },
            None => {
                assert forall|i: int, x: RecordView|
                    0 <= i < ls.len() && #[trigger] ls[i].contains(x) && versions::visible(
                        x,
                        key,
                        bound,
                    ) implies 0 < i && rest[i - 1].contains(x) by {
                    if i > 0 {
                        assert(rest[i - 1] == ls[i]);
                    }
                }
                if let Some(r) = versions::first_visible(stacked(rest), key, bound) {
                    let j = choose|j: int| 0 <= j < rest.len() && (#[trigger] rest[j]).contains(r);
                    assert(ls[j + 1].contains(r));
                }
            },
        }
    }
}

proof fn same_version(s: Seq<RecordView>, x: RecordView, y: RecordView)
    requires
        versions::sorted(s),
        s.contains(x),
        s.contains(y),
        x.key == y.key,
        x.seq == y.seq,
    ensures
        x == y,
{
    let i = choose|i: int| 0 <= i < s.len() && s[i] == x;
    let j = choose|j: int| 0 <= j < s.len() && s[j] == y;
    if i < j {
        versions::precedes_total(s[i], s[j]);
    } else if j < i {
        versions::precedes_total(s[j], s[i]);
    }
}

proof fn stacked_concat(a: Seq<Seq<RecordView>>, b: Seq<Seq<RecordView>>)
    ensures
        stacked(a + b) == stacked(a) + stacked(b),
    decreases a.len(),
{
    if a.len() == 0 {
        assert(a + b =~= b);
        assert(stacked(a + b) =~= stacked(a) + stacked(b));
    } else {
        stacked_concat(a.drop_first(), b);
        assert((a + b).drop_first() =~= a.drop_first() + b);
        assert(stacked(a + b) =~= stacked(a) + stacked(b));
    }
}

proof fn stacked_tables(records: Seq<Seq<RecordView>>)
    ensures
        stacked(Seq::new(records.len(), |i: int| records[records.len() - 1 - i]))
            == compaction::newest_first(records),
    decreases records.len(),
{
    let ls = Seq::new(records.len(), |i: int| records[records.len() - 1 - i]);
    if records.len() > 0 {
        let front = records.drop_last();
        stacked_tables(front);
        assert(ls.drop_first() =~= Seq::new(front.len(), |i: int| front[front.len() - 1 - i]));
    }
}

proof fn layers_are_sorted(db: DbView, records: Seq<Seq<RecordView>>)
    requires
        db.wf(),
        state::all_hold(db.tables, records),
    ensures
        forall|i: int|
            0 <= i < layers(db, records).len() ==> versions::sorted(
                #[trigger] layers(db, records)[i],
            ),
        stacked(layers(db, records)) == db.active + db.frozen_records()
            + compaction::newest_first(records),
{
    let ls = layers(db, records);
    let memory = seq![db.active, db.frozen_records()];
    let below = Seq::new(records.len(), |i: int| records[records.len() - 1 - i]);
    assert forall|i: int| 0 <= i < ls.len() implies versions::sorted(#[trigger] ls[i]) by {
        if i >= 2 {
            let k = records.len() - 1 - (i - 2);
            assert(db.tables[k].holds(records[k]));
            state::table_reads_back(db.tables[k], records[k], Seq::empty(), 0);
        }
    }
    stacked_concat(memory, below);
    stacked_tables(records);
    assert(memory.drop_first().drop_first() =~= Seq::empty());
    assert(memory.drop_first()[0] == db.frozen_records());
    reveal_with_fuel(stacked, 3);
    assert(stacked(memory) =~= db.active + db.frozen_records());
    assert(stacked(ls) =~= db.active + db.frozen_records() + compaction::newest_first(records));
}

proof fn source_of_layer(
    db: DbView,
    records: Seq<Seq<RecordView>>,
    start: Option<Seq<u8>>,
    end: Option<Seq<u8>>,
    i: int,
)
    requires
        state::all_hold(db.tables, records),
        0 <= i < layers(db, records).len(),
    ensures
        db.sources(start, end).len() == layers(db, records).len(),
        db.sources(start, end)[i] == state::memory_items(layers(db, records)[i], start, end),
{
    if i >= 2 {
        let k = records.len() - 1 - (i - 2);
        assert(db.tables[k].holds(records[k]));
        reveal(StoredTable::holds);
        sstable::laws::table_range_reads_back(db.tables[k].file, records[k], start, end);
    }
}

/// A scan gives what lookups give: its results are the keys of the range for
/// which a read gives a value, each with that value, in order of the keys.
pub proof fn scan_agrees_with_reads(
    db: DbView,
    records: Seq<Seq<RecordView>>,
    start: Option<Seq<u8>>,
    end: Option<Seq<u8>>,
    bound: u64,
)
    requires
        db.wf(),
        state::all_hold(db.tables, records),
        layered(layers(db, records)),
    ensures
        ({
            let found = scan::results(db.merge(start, end, bound));
            &&& forall|i: int| 0 <= i < found.len() ==> (#[trigger] found[i]) is Ok
            &&& forall|i: int, j: int|
                0 <= i < j < found.len() ==> bytes::lex_lt(
                    (#[trigger] found[i])->Ok_0.0,
                    (#[trigger] found[j])->Ok_0.0,
                )
            &&& forall|k: Seq<u8>, v: Seq<u8>|
                #![trigger found.contains(Ok::<(Seq<u8>, Seq<u8>), ErrorView>((k, v)))]
                found.contains(Ok::<(Seq<u8>, Seq<u8>), ErrorView>((k, v)))
                    <==> key_in_range(k, start, end) && db.read(k, bound) == Ok::<
                    Option<Seq<u8>>,
                    ErrorView,
                >(Some(v))
        }),
{
    let m = db.merge(start, end, bound);
    let ls = layers(db, records);
    layers_are_sorted(db, records);
    merge_of_layers(db, records, start, end, bound);
    scan::scan_law(m);
    let found = scan::results(m);
    assert forall|k: Seq<u8>, v: Seq<u8>|
        #![trigger found.contains(Ok::<(Seq<u8>, Seq<u8>), ErrorView>((k, v)))]
        found.contains(Ok::<(Seq<u8>, Seq<u8>), ErrorView>((k, v))) <==> key_in_range(
            k,
            start,
            end,
        ) && db.read(k, bound) == Ok::<Option<Seq<u8>>, ErrorView>(Some(v)) by {
        assert(found.contains(Ok::<(Seq<u8>, Seq<u8>), ErrorView>((k, v))) <==> scan::live(
            m,
            k,
            v,
        ));
        state::read_sees_newest(db, records, k, bound);
        first_is_newest(ls, k, bound);
        live_is_first(m, ls, start, end, k, v);
    }
}

/// Whether a key lies in a range: the start is included, the end is not.
pub open spec fn key_in_range(
    key: Seq<u8>,
    start: Option<Seq<u8>>,
    end: Option<Seq<u8>>,
) -> bool {
    &&& start matches Some(k) ==> !bytes::lex_lt(key, k)
    &&& end matches Some(k) ==> bytes::lex_lt(key, k)
}

proof fn live_is_first(
    m: MergeView,
    ls: Seq<Seq<RecordView>>,
    start: Option<Seq<u8>>,
    end: Option<Seq<u8>>,
    key: Seq<u8>,
    value: Seq<u8>,
)
    requires
        m.end is None,
        m.done is None,
        forall|x: RecordView| #[trigger]
            scan::has(m, x) <==> memtable::in_range(x, start, end) && exists|i: int|
                0 <= i < ls.len() && (#[trigger] ls[i]).contains(x),
        match versions::first_visible(stacked(ls), key, m.seq_bound) {
            Some(r) => versions::visible(r, key, m.seq_bound) && (exists|i: int|
                0 <= i < ls.len() && (#[trigger] ls[i]).contains(r)) && forall|
                i: int,
                x: RecordView,
            |
                0 <= i < ls.len() && #[trigger] ls[i].contains(x) && versions::visible(
                    x,
                    key,
                    m.seq_bound,
                ) ==> x.seq < r.seq || x == r,
            None => forall|i: int, x: RecordView|
                0 <= i < ls.len() && #[trigger] ls[i].contains(x) ==> !versions::visible(
                    x,
                    key,
                    m.seq_bound,
                ),
        },
    ensures
        scan::live(m, key, value) <==> key_in_range(key, start, end) && versions::value_of(
            versions::first_visible(stacked(ls), key, m.seq_bound),
        ) == Some(value),
{
    let first = versions::first_visible(stacked(ls), key, m.seq_bound);
    if scan::live(m, key, value) {
        let r = choose|r: RecordView| #[trigger]
            scan::newest(m, key, r) && r.value == Some(value);
        assert(scan::has(m, r));
        let i = choose|i: int| 0 <= i < ls.len() && (#[trigger] ls[i]).contains(r);
        assert(ls[i].contains(r));
        assert(first is Some);
        assert(scan::has(m, first->0));
    }
    if key_in_range(key, start, end) && versions::value_of(first) == Some(value) {
        let r = first->0;
        assert(scan::has(m, r));
        assert forall|x: RecordView| #[trigger]
            scan::has(m, x) && versions::visible(x, key, m.seq_bound) implies x.seq <= r.seq by {
            let i = choose|i: int| 0 <= i < ls.len() && (#[trigger] ls[i]).contains(x);
            assert(ls[i].contains(x));
        }
        assert(scan::newest(m, key, r));
    }
}

proof fn merge_of_layers(
    db: DbView,
    records: Seq<Seq<RecordView>>,
    start: Option<Seq<u8>>,
    end: Option<Seq<u8>>,
    bound: u64,
)
    requires
        db.wf(),
        state::all_hold(db.tables, records),
        layered(layers(db, records)),
        forall|i: int|
            0 <= i < layers(db, records).len() ==> versions::sorted(
                #[trigger] layers(db, records)[i],
            ),
    ensures
        scan::well_sourced(db.merge(start, end, bound)),
        forall|x: RecordView| #[trigger]
            scan::has(db.merge(start, end, bound), x) <==> memtable::in_range(x, start, end)
                && exists|i: int|
                0 <= i < layers(db, records).len() && (#[trigger] layers(db, records)[i]).contains(
                    x,
                ),
{
    let m = db.merge(start, end, bound);
    let ls = layers(db, records);
    let p = |r: RecordView| memtable::in_range(r, start, end);
    assert forall|i: int| 0 <= i < ls.len() implies m.sources.len() == ls.len()
        && #[trigger] m.sources[i] == scan::ok_items(ls[i].filter(p)) && versions::sorted(
        ls[i].filter(p),
    ) && (forall|x: RecordView| #[trigger]
        ls[i].filter(p).contains(x) <==> ls[i].contains(x) && p(x)) by {
        source_of_layer(db, records, start, end, i);
        filtered(ls[i], p);
    }
    assert(m.sources.len() == ls.len()) by {
        source_of_layer(db, records, start, end, 0);
    }
    assert forall|x: RecordView| #[trigger] scan::has(m, x) <==> memtable::in_range(x, start, end)
        && exists|i: int| 0 <= i < ls.len() && (#[trigger] ls[i]).contains(x) by {
        if scan::has(m, x) {
            let (i, j) = choose|i: int, j: int|
                0 <= i < m.sources.len() && 0 <= j < m.sources[i].len()
                    && #[trigger] m.sources[i][j] == Ok::<RecordView, ErrorView>(x);
            assert(ls[i].filter(p)[j] == x);
            assert(ls[i].filter(p).contains(x));
            assert(ls[i].contains(x));
        }
        if memtable::in_range(x, start, end) && exists|i: int|
            0 <= i < ls.len() && (#[trigger] ls[i]).contains(x) {
            let i = choose|i: int| 0 <= i < ls.len() && (#[trigger] ls[i]).contains(x);
            assert(m.sources[i] == scan::ok_items(ls[i].filter(p)));
            assert(ls[i].filter(p).contains(x));
            let j = choose|j: int| 0 <= j < ls[i].filter(p).len() && ls[i].filter(p)[j] == x;
            assert(m.sources[i][j] == Ok::<RecordView, ErrorView>(x));
        }
    }
    assert forall|i: int, j: int| 0 <= i < m.sources.len() && 0 <= j < m.sources[i].len() implies (
    #[trigger] m.sources[i][j]) is Ok by {}
    assert forall|i: int, j: int, k: int|
        #![trigger m.sources[i][j], m.sources[i][k]]
        0 <= i < m.sources.len() && 0 <= j < k < m.sources[i].len() implies versions::precedes(
        m.sources[i][j]->Ok_0,
        m.sources[i][k]->Ok_0,
    ) by {
        assert(m.sources[i] == scan::ok_items(ls[i].filter(p)));
        assert(versions::precedes(ls[i].filter(p)[j], ls[i].filter(p)[k]));
    }
    assert forall|a: RecordView, b: RecordView| #[trigger]
        scan::has(m, a) && #[trigger] scan::has(m, b) && a.key == b.key && a.seq
            == b.seq implies a == b by {
        let i = choose|i: int| 0 <= i < ls.len() && (#[trigger] ls[i]).contains(a);
        let j = choose|j: int| 0 <= j < ls.len() && (#[trigger] ls[j]).contains(b);
        assert(ls[i].contains(a) && ls[j].contains(b));
        if i <= j {
            same_version(ls[i], a, b);
        } else {
            same_version(ls[j], b, a);
        }
    }
}

// ------------------------------------------------- operations keep the layers
/// Whether the layers of a database are in order, and its next write is newer
/// than all that the tables hold, even after a restart.
pub open spec fn in_layers(db: DbView, records: Seq<Seq<RecordView>>) -> bool {
    &&& layered(layers(db, records))
    &&& db.restart_seq() <= db.next_seq
    &&& forall|i: int|
        0 <= i < records.len() ==> versions::sorted(#[trigger] records[i]) && rebuild::seqs_below(
            records[i],
            db.restart_seq() as u64,
        )
}

proof fn below_next(db: DbView, records: Seq<Seq<RecordView>>, b: int, y: RecordView)
    requires
        db.wf(),
        in_layers(db, records),
        0 <= b < layers(db, records).len(),
        layers(db, records)[b].contains(y),
    ensures
        y.seq < db.next_seq,
{
    let layer = layers(db, records)[b];
    let j = choose|j: int| 0 <= j < layer.len() && layer[j] == y;
    if b == 0 {
        assert(db.active[j].seq < db.next_seq);
    } else if b == 1 {
        assert(db.frozen_records()[j].seq < db.next_seq);
    } else {
        let t = records.len() - 1 - (b - 2);
        assert(rebuild::seqs_below(records[t], db.restart_seq() as u64));
        assert(records[t][j] == y);
    }
}

/// Writes keep the layers in order.
pub proof fn writes_keep_layers(
    db: DbView,
    records: Seq<Seq<RecordView>>,
    writes: Seq<WriteView>,
)
    requires
        db.wf(),
        in_layers(db, records),
        db.next_seq + writes.len() <= u64::MAX,
        writes.len() > 0,
        wal::batch_fits(wal::is_counted(db.log_kind()), db.stamped(writes)),
    ensures
        in_layers(db.with_writes(writes), records),
{
    let after = db.with_writes(writes);
    let batch = db.stamped(writes);
    let old_layers = layers(db, records);
    let new_layers = layers(after, records);
    assert(rebuild::newer(batch, db.active)) by {
        assert forall|i: int, j: int| 0 <= i < batch.len() && 0 <= j < db.active.len() implies (
        #[trigger] batch[i]).seq > (#[trigger] db.active[j]).seq by {}
    }
    assert forall|a: int, b: int, x: RecordView, y: RecordView|
        0 <= a < b < new_layers.len() && #[trigger] new_layers[a].contains(x)
            && #[trigger] new_layers[b].contains(y) && x.key == y.key implies x.seq > y.seq
        || new_layers[a].contains(y) by {
        assert(new_layers[b] == old_layers[b]);
        assert(old_layers[b].contains(y));
        if a > 0 {
            assert(old_layers[a].contains(x));
        } else {
            rebuild::inserted_all_has(db.active, batch, x);
            rebuild::inserted_all_adds(db.active, batch, y);
            if db.active.contains(x) {
                assert(old_layers[0].contains(x));
            } else {
                let k = choose|k: int| 0 <= k < batch.len() && batch[k] == x;
                assert(x.seq == db.next_seq + k);
                below_next(db, records, b, y);
            }
        }
    }
    let kept = state::recorded(db.manifest).next_seq as nat;
    let logged = db.logged();
    wal::append_then_replay(db.log, db.log_kind(), batch);
    assert(after.logged() == logged + batch);
    state::seq_after_grows(kept, logged, batch);
    state::seq_after_bounds(kept, logged, after.next_seq);
    assert forall|i: int| 0 <= i < (logged + batch).len() implies (#[trigger] (logged
        + batch)[i]).seq < after.next_seq by {
        if i < logged.len() {
            assert(logged[i].seq < db.restart_seq());
        } else {
            assert((logged + batch)[i] == batch[i - logged.len()]);
        }
    }
    state::seq_after_bounds(kept, logged + batch, after.next_seq);
    assert forall|i: int| 0 <= i < records.len() implies versions::sorted(#[trigger] records[i])
        && rebuild::seqs_below(records[i], after.restart_seq() as u64) by {
        assert(rebuild::seqs_below(records[i], db.restart_seq() as u64));
        assert forall|k: int| 0 <= k < records[i].len() implies (#[trigger] records[i][k]).seq
            < after.restart_seq() as u64 by {
            assert(records[i][k].seq < db.restart_seq() as u64);
        }
    }
}

/// Freezing the MemTable keeps the layers in order.
pub proof fn freeze_keeps_layers(db: DbView, records: Seq<Seq<RecordView>>)
    requires
        db.frozen is None,
        in_layers(db, records),
    ensures
        in_layers(db.with_frozen(), records),
{
    let before = layers(db, records);
    let after = layers(db.with_frozen(), records);
    assert forall|a: int, b: int, x: RecordView, y: RecordView|
        0 <= a < b < after.len() && #[trigger] after[a].contains(x)
            && #[trigger] after[b].contains(y) && x.key == y.key implies x.seq > y.seq
        || after[a].contains(y) by {
        if a == 1 {
            assert(before[0].contains(x));
            assert(before[b].contains(y));
        } else if a > 1 {
            assert(before[a].contains(x) && before[b].contains(y));
        }
    }
}

/// Publishing the frozen MemTable keeps the layers in order.
pub proof fn flush_keeps_layers(
    db: DbView,
    records: Seq<Seq<RecordView>>,
    t: StoredTable,
)
    requires
        db.wf(),
        db.failure is None,
        in_layers(db, records),
        forall|i: int|
            0 <= i < db.active.len() ==> wal::batch_fits(true, seq![#[trigger] db.active[i]]),
    ensures
        in_layers(db.with_flushed(t), records.push(db.frozen_records())),
{
    let more = records.push(db.frozen_records());
    let flushed = db.with_flushed(t);
    let before = layers(db, records);
    let after = layers(flushed, more);
    assert forall|a: int, b: int, x: RecordView, y: RecordView|
        0 <= a < b < after.len() && #[trigger] after[a].contains(x)
            && #[trigger] after[b].contains(y) && x.key == y.key implies x.seq > y.seq
        || after[a].contains(y) by {
        assert(b >= 2);
        assert(after[b] == before[b - 1]);
        assert(before[b - 1].contains(y));
        if a == 0 {
            assert(before[0].contains(x));
        } else {
            assert(a >= 2);
            assert(after[a] == before[a - 1]);
            assert(before[a - 1].contains(x));
        }
    }
    flush_is_recorded(db, t);
    state::rewritten_log(db.active);
    state::seq_after_bounds(db.next_seq as nat, db.active, db.next_seq);
    assert(flushed.restart_seq() == db.next_seq);
    assert forall|i: int| 0 <= i < more.len() implies versions::sorted(#[trigger] more[i])
        && rebuild::seqs_below(more[i], db.next_seq) by {
        if i < records.len() {
            assert(rebuild::seqs_below(records[i], db.restart_seq() as u64));
            assert(more[i] == records[i]);
            assert forall|k: int| 0 <= k < more[i].len() implies (#[trigger] more[i][k]).seq
                < db.next_seq by {
                assert(records[i][k].seq < db.restart_seq() as u64);
            }
        }
    }
}

/// A flush records the next sequence number.
proof fn flush_is_recorded(db: DbView, t: StoredTable)
    requires
        db.wf(),
        db.failure is None,
    ensures
        state::recorded(db.with_flushed(t).manifest).next_seq == db.next_seq,
{
    let edits = choose|edits: Seq<VersionEdit>|
        db.manifest == #[trigger] manifest::log_of(edits) && StateView::empty().applied_all(
            edits,
        ).live_tables == db.ids().to_set();
    let more = seq![
        VersionEdit::AddTable { id: t.id },
        VersionEdit::SetNextSstId(db.next_sst_id),
        VersionEdit::SetNextSeq(db.next_seq),
    ];
    manifest::manifest_grows(edits, more);
    state::edits_are_recorded(edits + more);
    assert((edits + more).last() == VersionEdit::SetNextSeq(db.next_seq));
}

/// Merging tables leaves the counters in the manifest as they were.
proof fn merge_is_recorded(db: DbView, i: int, j: int, t: StoredTable)
    requires
        db.wf(),
        db.failure is None,
        0 <= i < j <= db.tables.len(),
    ensures
        state::recorded(db.with_merged(i, j, t).manifest).next_seq == state::recorded(
            db.manifest,
        ).next_seq,
{
    let edits = choose|edits: Seq<VersionEdit>|
        db.manifest == #[trigger] manifest::log_of(edits) && StateView::empty().applied_all(
            edits,
        ).live_tables == db.ids().to_set();
    let gone = db.ids().subrange(i, j - 1);
    let more = gone.map_values(|id: u64| VersionEdit::DeleteTable { id });
    manifest::manifest_grows(edits, more);
    manifest::applied_all_concat(StateView::empty(), edits, more);
    state::deleting_tables(StateView::empty().applied_all(edits), gone);
    state::edits_are_recorded(edits);
    state::edits_are_recorded(edits + more);
}

/// Where a record stood in the layers before a merge.
proof fn layer_before(
    db: DbView,
    records: Seq<Seq<RecordView>>,
    i: int,
    j: int,
    t: StoredTable,
    horizon: u64,
    a: int,
    x: RecordView,
) -> (p: int)
    requires
        0 <= i < j <= records.len(),
        0 <= a < records.len() - (j - i) + 3,
        layers(
            db.with_merged(i, j, t),
            records.take(i).push(
                compaction::compacted(records.subrange(i, j), horizon, i == 0),
            ) + records.skip(j),
        )[a].contains(x),
    ensures
        0 <= p < layers(db, records).len(),
        layers(db, records)[p].contains(x),
        a < 2 + records.len() - j ==> p == a,
        a == 2 + records.len() - j ==> a <= p < a + (j - i),
        a > 2 + records.len() - j ==> p == a + (j - i) - 1,
{
    let run = records.subrange(i, j);
    let merged = compaction::compacted(run, horizon, i == 0);
    if a == 2 + records.len() - j {
        assert(merged.contains(x));
        compaction::compacted_has(run, horizon, i == 0, x);
        let g = choose|g: int| 0 <= g < run.len() && (#[trigger] run[g]).contains(x);
        assert(records[i + g].contains(x));
        let p = 2 + records.len() - 1 - (i + g);
        assert(layers(db, records)[p] == records[i + g]);
        p
    } else if a < 2 + records.len() - j {
        assert(layers(db, records)[a].contains(x));
        a
    } else {
        let p = a + (j - i) - 1;
        assert(layers(db, records)[p].contains(x));
        p
    }
}

/// A run of tables is in layers too.
proof fn run_is_layered(db: DbView, records: Seq<Seq<RecordView>>, i: int, j: int)
    requires
        in_layers(db, records),
        0 <= i <= j <= records.len(),
    ensures
        compaction::layered(records.subrange(i, j)),
        forall|k: int|
            0 <= k < j - i ==> versions::sorted(#[trigger] records.subrange(i, j)[k]),
{
    let run = records.subrange(i, j);
    let ls = layers(db, records);
    assert forall|a: int, b: int, x: RecordView, y: RecordView|
        0 <= a < b < run.len() && #[trigger] run[b].contains(x) && #[trigger] run[a].contains(y)
            && x.key == y.key implies x.seq > y.seq || run[b].contains(y) by {
        let p = 2 + records.len() - 1 - (i + b);
        let q = 2 + records.len() - 1 - (i + a);
        assert(ls[p] == run[b] && ls[q] == run[a]);
        assert(ls[p].contains(x) && ls[q].contains(y));
    }
    assert forall|k: int| 0 <= k < j - i implies versions::sorted(#[trigger] run[k]) by {
        assert(versions::sorted(records[i + k]));
    }
}

/// Merging a run of tables keeps the layers in order.
pub proof fn merge_keeps_layers(
    db: DbView,
    records: Seq<Seq<RecordView>>,
    i: int,
    j: int,
    t: StoredTable,
    horizon: u64,
)
    requires
        db.wf(),
        db.failure is None,
        in_layers(db, records),
        0 <= i < j <= records.len() == db.tables.len(),
    ensures
        in_layers(
            db.with_merged(i, j, t),
            records.take(i).push(
                compaction::compacted(records.subrange(i, j), horizon, i == 0),
            ) + records.skip(j),
        ),
{
    let run = records.subrange(i, j);
    let merged = compaction::compacted(run, horizon, i == 0);
    let fewer = records.take(i).push(merged) + records.skip(j);
    let before = layers(db, records);
    let after = layers(db.with_merged(i, j, t), fewer);
    let at = 2 + records.len() - j;
    run_is_layered(db, records, i, j);
    assert forall|a: int, b: int, x: RecordView, y: RecordView|
        0 <= a < b < after.len() && #[trigger] after[a].contains(x)
            && #[trigger] after[b].contains(y) && x.key == y.key implies x.seq > y.seq
        || after[a].contains(y) by {
        let p = layer_before(db, records, i, j, t, horizon, a, x);
        let q = layer_before(db, records, i, j, t, horizon, b, y);
        assert(before[p].contains(x) && before[q].contains(y));
        if x.seq > y.seq {
        } else if a == at {
            assert(i > 0);
            assert(before[p].contains(y));
            let g = 2 + records.len() - 1 - p - i;
            assert(run[g] == before[p]);
            if x.seq < y.seq {
                compaction::newer_is_kept(run, horizon, x, y, g);
            } else {
                same_version(run[g], x, y);
            }
            assert(after[a] == merged);
        } else {
            assert(after[a] == before[p]);
        }
    }
    merge_is_recorded(db, i, j, t);
    assert forall|k: int| 0 <= k < run.len() implies versions::key_sorted(#[trigger] run[k]) by {
        versions::sorted_by_key(run[k]);
    }
    compaction::compaction_preserves(run, horizon, i == 0, Seq::empty(), horizon);
    let bound = db.restart_seq() as u64;
    assert forall|k: int| 0 <= k < fewer.len() implies versions::sorted(#[trigger] fewer[k])
        && rebuild::seqs_below(fewer[k], bound) by {
        if k < i {
            assert(rebuild::seqs_below(records[k], bound));
        } else if k > i {
            assert(rebuild::seqs_below(records[k - i - 1 + j], bound));
        } else {
            assert forall|e: int| 0 <= e < merged.len() implies (#[trigger] merged[e]).seq
                < bound by {
                assert(merged.contains(merged[e]));
                compaction::compacted_has(run, horizon, i == 0, merged[e]);
                let g = choose|g: int|
                    0 <= g < run.len() && (#[trigger] run[g]).contains(merged[e]);
                let h = choose|h: int| 0 <= h < run[g].len() && run[g][h] == merged[e];
                assert(rebuild::seqs_below(records[i + g], bound));
                assert(records[i + g][h].seq < bound);
            }
        }
    }
}

// --------------------------------------------------- a restart keeps the layers
/// What a restart finds in the log is what was in memory.
proof fn restart_has(db: DbView, x: RecordView)
    requires
        db.wf(),
    ensures
        rebuild::rebuilt(db.logged()).contains(x) <==> db.active.contains(x)
            || db.frozen_records().contains(x),
{
    let (a, b) = choose|a: Seq<RecordView>, b: Seq<RecordView>|
        wal::replayed(db.log) == Ok::<Seq<RecordView>, ErrorView>(#[trigger] (a + b))
            && rebuild::rebuilt(a) == db.frozen_records() && rebuild::rebuilt(b) == db.active;
    let past = db.frozen_records();
    assert(rebuild::newer(b, past)) by {
        assert forall|i: int, j: int| 0 <= i < b.len() && 0 <= j < past.len() implies (
        #[trigger] b[i]).seq > (#[trigger] past[j]).seq by {
            let k = state::version_is_kept(b, i);
            assert(db.active[k].seq > past[j].seq);
        }
    }
    rebuild::inserted_all_concat(Seq::empty(), a, b);
    rebuild::inserted_all_adds(past, b, x);
}

/// A restart keeps the layers in order: what is written after it is newer than
/// all that was written before.
pub proof fn restart_keeps_layers(db: DbView, records: Seq<Seq<RecordView>>)
    requires
        db.wf(),
        in_layers(db, records),
    ensures
        in_layers(db.restarted(), records),
{
    let before = layers(db, records);
    let after = layers(db.restarted(), records);
    let found = rebuild::rebuilt(db.logged());
    assert forall|a: int, b: int, x: RecordView, y: RecordView|
        0 <= a < b < after.len() && #[trigger] after[a].contains(x)
            && #[trigger] after[b].contains(y) && x.key == y.key implies x.seq > y.seq
        || after[a].contains(y) by {
        assert(b >= 2);
        assert(before[b].contains(y));
        if a == 0 {
            restart_has(db, x);
            restart_has(db, y);
            assert(before[0].contains(x) || before[1].contains(x));
        } else {
            assert(before[a].contains(x));
        }
    }
}

/// A flush may be cut short between the manifest and the log. With the new table
/// named and the old log in place, a restart keeps the layers in order, whether
/// or not the manifest has come to record the next sequence number.
pub proof fn restart_in_flush_keeps_layers(
    db: DbView,
    records: Seq<Seq<RecordView>>,
    t: StoredTable,
    log: Seq<u8>,
)
    requires
        db.wf(),
        in_layers(db, records),
        state::recorded(log).next_seq == state::recorded(db.manifest).next_seq || state::recorded(
            log,
        ).next_seq == db.next_seq,
    ensures
        in_layers(
            (DbView { tables: db.tables.push(t), manifest: log, ..db }).restarted(),
            records.push(db.frozen_records()),
        ),
{
    let cut = DbView { tables: db.tables.push(t), manifest: log, ..db };
    let past = db.frozen_records();
    let more = records.push(past);
    let before = layers(db, records);
    let after = layers(cut.restarted(), more);
    assert forall|a: int, b: int, x: RecordView, y: RecordView|
        0 <= a < b < after.len() && #[trigger] after[a].contains(x)
            && #[trigger] after[b].contains(y) && x.key == y.key implies x.seq > y.seq
        || after[a].contains(y) by {
        assert(b >= 2);
        assert(after[b] == before[b - 1]);
        assert(before[b - 1].contains(y));
        if a == 0 {
            restart_has(db, x);
            restart_has(db, y);
            assert(before[0].contains(x) || before[1].contains(x));
        } else {
            assert(a >= 2);
            assert(after[a] == before[a - 1]);
            assert(before[a - 1].contains(x));
        }
    }
    let kept = state::recorded(db.manifest).next_seq as nat;
    let now = state::recorded(log).next_seq as nat;
    let logged = db.logged();
    state::seq_after_bounds(kept, logged, db.next_seq);
    assert forall|i: int| 0 <= i < logged.len() implies (#[trigger] logged[i]).seq
        < db.next_seq by {
        assert(logged[i].seq < db.restart_seq());
    }
    state::seq_after_bounds(now, logged, db.next_seq);
    let bound = cut.restart_seq() as u64;
    assert forall|i: int| 0 <= i < more.len() implies versions::sorted(#[trigger] more[i])
        && rebuild::seqs_below(more[i], bound) by {
        if i < records.len() {
            assert(more[i] == records[i]);
            assert(rebuild::seqs_below(records[i], db.restart_seq() as u64));
            assert forall|k: int| 0 <= k < more[i].len() implies (#[trigger] more[i][k]).seq
                < bound by {
                assert(records[i][k].seq < db.restart_seq() as u64);
            }
        } else {
            assert forall|k: int| 0 <= k < past.len() implies (#[trigger] past[k]).seq < bound by {
                assert(past.contains(past[k]));
                restart_has(db, past[k]);
                rebuild::inserted_all_has(Seq::empty(), logged, past[k]);
                let e = choose|e: int| 0 <= e < logged.len() && logged[e] == past[k];
                assert(logged[e].seq < cut.restart_seq());
            }
        }
    }
}

/// Where a record stood in the layers before a merge that was cut short.
proof fn layer_before_cut(
    db: DbView,
    records: Seq<Seq<RecordView>>,
    i: int,
    j: int,
    k: int,
    horizon: u64,
    a: int,
    x: RecordView,
) -> (p: int)
    requires
        0 <= i <= k < j <= records.len(),
        0 <= a < records.len() - (k - i) + 2,
        layers(
            db,
            records.take(i) + records.subrange(k, j - 1).push(
                compaction::compacted(records.subrange(i, j), horizon, false),
            ) + records.skip(j),
        )[a].contains(x),
    ensures
        0 <= p < layers(db, records).len(),
        layers(db, records)[p].contains(x),
        a < 2 + records.len() - j ==> p == a,
        a == 2 + records.len() - j ==> a <= p < a + (j - i),
        2 + records.len() - j < a <= 2 + records.len() - k - 1 ==> p == a,
        a > 2 + records.len() - k - 1 ==> p == a + (k - i),
{
    let run = records.subrange(i, j);
    let merged = compaction::compacted(run, horizon, false);
    let half = records.take(i) + records.subrange(k, j - 1).push(merged) + records.skip(j);
    let ls = layers(db, records);
    if a == 2 + records.len() - j {
        assert(half[half.len() - 1 - (a - 2)] == merged);
        compaction::compacted_has(run, horizon, false, x);
        let g = choose|g: int| 0 <= g < run.len() && (#[trigger] run[g]).contains(x);
        assert(records[i + g].contains(x));
        let p = 2 + records.len() - 1 - (i + g);
        assert(ls[p] == records[i + g]);
        p
    } else if a <= 2 + records.len() - k - 1 {
        assert(ls[a].contains(x));
        a
    } else {
        let p = a + (k - i);
        assert(ls[p].contains(x));
        p
    }
}

/// A merge that keeps deletions may be cut short between the merged table and
/// the manifest: a restart keeps the layers in order.
pub proof fn restart_in_merge_keeps_layers(
    db: DbView,
    records: Seq<Seq<RecordView>>,
    i: int,
    j: int,
    k: int,
    t: StoredTable,
    horizon: u64,
    log: Seq<u8>,
)
    requires
        db.wf(),
        in_layers(db, records),
        0 <= i <= k < j <= records.len() == db.tables.len(),
        state::recorded(log).next_seq == state::recorded(db.manifest).next_seq,
    ensures
        in_layers(
            (DbView {
                tables: state::half_merged(db.tables, i, j, k, t),
                manifest: log,
                ..db
            }).restarted(),
            records.take(i) + records.subrange(k, j - 1).push(
                compaction::compacted(records.subrange(i, j), horizon, false),
            ) + records.skip(j),
        ),
{
    let cut = (DbView {
        tables: state::half_merged(db.tables, i, j, k, t),
        manifest: log,
        ..db
    }).restarted();
    let found = db.restarted();
    restart_keeps_layers(db, records);
    let run = records.subrange(i, j);
    let merged = compaction::compacted(run, horizon, false);
    let half = records.take(i) + records.subrange(k, j - 1).push(merged) + records.skip(j);
    let before = layers(found, records);
    let after = layers(cut, half);
    let at = 2 + records.len() - j;
    assert(after =~= layers(found, half));
    run_is_layered(found, records, i, j);
    assert forall|a: int, b: int, x: RecordView, y: RecordView|
        0 <= a < b < after.len() && #[trigger] after[a].contains(x)
            && #[trigger] after[b].contains(y) && x.key == y.key implies x.seq > y.seq
        || after[a].contains(y) by {
        let p = layer_before_cut(found, records, i, j, k, horizon, a, x);
        let q = layer_before_cut(found, records, i, j, k, horizon, b, y);
        assert(before[p].contains(x) && before[q].contains(y));
        if a == at {
            assert(after[a] == merged);
            let g = 2 + records.len() - 1 - p - i;
            assert(run[g] == before[p]);
            kept_in_run(found, records, i, j, horizon, g, x, q, y);
        } else {
            assert(after[a] == before[p]);
        }
    }
    assert forall|e: int| 0 <= e < run.len() implies versions::key_sorted(#[trigger] run[e]) by {
        versions::sorted_by_key(run[e]);
    }
    compaction::compaction_preserves(run, horizon, false, Seq::empty(), horizon);
    let bound = cut.restart_seq() as u64;
    assert forall|e: int| 0 <= e < half.len() implies versions::sorted(#[trigger] half[e])
        && rebuild::seqs_below(half[e], bound) by {
        if e < i {
            assert(rebuild::seqs_below(records[e], bound));
        } else if e < i + (j - 1 - k) {
            assert(rebuild::seqs_below(records[e - i + k], bound));
        } else if e > i + (j - 1 - k) {
            assert(rebuild::seqs_below(records[e - i - (j - k) + j], bound));
        } else {
            merged_below(run, horizon, bound);
        }
    }
}

/// What is left of records below a bound is below it.
proof fn merged_below(run: Seq<Seq<RecordView>>, horizon: u64, bound: u64)
    requires
        forall|g: int| 0 <= g < run.len() ==> rebuild::seqs_below(#[trigger] run[g], bound),
    ensures
        rebuild::seqs_below(compaction::compacted(run, horizon, false), bound),
{
    let merged = compaction::compacted(run, horizon, false);
    assert forall|e: int| 0 <= e < merged.len() implies (#[trigger] merged[e]).seq < bound by {
        assert(merged.contains(merged[e]));
        compaction::compacted_has(run, horizon, false, merged[e]);
        let g = choose|g: int| 0 <= g < run.len() && (#[trigger] run[g]).contains(merged[e]);
        let h = choose|h: int| 0 <= h < run[g].len() && run[g][h] == merged[e];
        assert(run[g][h].seq < bound);
    }
}

/// A version that a merge keeps is newer than a version of its key in or below
/// the run, or the merge keeps that one too.
proof fn kept_in_run(
    db: DbView,
    records: Seq<Seq<RecordView>>,
    i: int,
    j: int,
    horizon: u64,
    g: int,
    x: RecordView,
    q: int,
    y: RecordView,
)
    requires
        in_layers(db, records),
        0 <= i < j <= records.len(),
        0 <= g < j - i,
        records[i + g].contains(x),
        compaction::compacted(records.subrange(i, j), horizon, false).contains(x),
        2 + records.len() - j <= q < layers(db, records).len(),
        layers(db, records)[q].contains(y),
        x.key == y.key,
    ensures
        x.seq > y.seq || compaction::compacted(records.subrange(i, j), horizon, false).contains(y),
{
    let run = records.subrange(i, j);
    let ls = layers(db, records);
    let p = 2 + records.len() - 1 - (i + g);
    run_is_layered(db, records, i, j);
    assert(ls[p] == records[i + g] && run[g] == records[i + g]);
    assert(ls[p].contains(x) && ls[q].contains(y));
    if !(x.seq > y.seq) {
        // The run holds that version, in one table or another.
        let h = if q <= p {
            2 + records.len() - 1 - q - i
        } else {
            g
        };
        assert(run[h].contains(y)) by {
            if q <= p {
                assert(run[h] == ls[q]);
            }
        }
        if x.seq < y.seq {
            compaction::newer_is_kept(run, horizon, x, y, h);
        } else if q <= p {
            same_version(ls[q], y, x);
        } else {
            same_version(ls[p], x, y);
        }
    }
}

/// A key lies in a range if it is the start or comes behind it, and comes before the
/// end. A range without a start or an end is open there.
pub proof fn range_is_by_key_order(key: Seq<u8>, start: Seq<u8>, end: Seq<u8>)
    ensures
        key_in_range(key, Some(start), Some(end)) <==> (key == start || bytes::lex_lt(start, key))
            && bytes::lex_lt(key, end),
        key_in_range(key, Some(start), None) <==> (key == start || bytes::lex_lt(start, key)),
        key_in_range(key, None, Some(end)) <==> bytes::lex_lt(key, end),
        key_in_range(key, None, None),
{
    bytes::lex_total(key, start);
}

/// A scan gives the first keys of a range that have a value, each with what a read gives
/// for it, in order, and as many as were asked for: it leaves one out only if it comes
/// behind all that it gives and those are as many.
pub proof fn scan_gives_the_first_values(
    db: DbView,
    records: Seq<Seq<RecordView>>,
    start: Option<Seq<u8>>,
    end: Option<Seq<u8>>,
    limit: nat,
    bound: u64,
)
    requires
        db.wf(),
        state::all_hold(db.tables, records),
        layered(layers(db, records)),
    ensures
        ({
            let taken = db.scanned(start, end, bound, limit);
            &&& taken is Ok
            &&& taken->Ok_0.len() <= limit
            &&& forall|i: int|
                0 <= i < taken->Ok_0.len() ==> key_in_range(
                    (#[trigger] taken->Ok_0[i]).0,
                    start,
                    end,
                ) && db.read(taken->Ok_0[i].0, bound) == Ok::<Option<Seq<u8>>, ErrorView>(
                    Some(taken->Ok_0[i].1),
                )
            &&& forall|i: int, j: int|
                0 <= i < j < taken->Ok_0.len() ==> bytes::lex_lt(
                    (#[trigger] taken->Ok_0[i]).0,
                    (#[trigger] taken->Ok_0[j]).0,
                )
            &&& forall|k: Seq<u8>, v: Seq<u8>|
                key_in_range(k, start, end) && #[trigger] is_value(db.read(k, bound), v)
                    && !taken->Ok_0.contains((k, v)) ==> taken->Ok_0.len() == limit && forall|
                    i: int,
                |
                    0 <= i < limit ==> bytes::lex_lt((#[trigger] taken->Ok_0[i]).0, k)
        }),
{
    let found = scan::results(db.merge(start, end, bound));
    scan_agrees_with_reads(db, records, start, end, bound);
    scan::taken_all(found, limit);
    let taken = scan::taken(found, limit)->Ok_0;
    assert forall|i: int| 0 <= i < taken.len() implies key_in_range(
        (#[trigger] taken[i]).0,
        start,
        end,
    ) && db.read(taken[i].0, bound) == Ok::<Option<Seq<u8>>, ErrorView>(Some(taken[i].1)) by {
        assert(found[i] == Ok::<(Seq<u8>, Seq<u8>), ErrorView>((taken[i].0, taken[i].1)));
        assert(found.contains(
            Ok::<(Seq<u8>, Seq<u8>), ErrorView>((taken[i].0, taken[i].1)),
        ));
    }
    assert forall|i: int, j: int| 0 <= i < j < taken.len() implies bytes::lex_lt(
        (#[trigger] taken[i]).0,
        (#[trigger] taken[j]).0,
    ) by {
        assert(taken[i] == found[i]->Ok_0);
        assert(taken[j] == found[j]->Ok_0);
    }
    assert forall|k: Seq<u8>, v: Seq<u8>|
        key_in_range(k, start, end) && #[trigger] is_value(db.read(k, bound), v)
            && !taken.contains((k, v)) implies taken.len() == limit && forall|i: int|
        0 <= i < limit ==> bytes::lex_lt((#[trigger] taken[i]).0, k) by {
        let r = Ok::<(Seq<u8>, Seq<u8>), ErrorView>((k, v));
        assert(found.contains(r));
        let at = choose|at: int| 0 <= at < found.len() && found[at] == r;
        if at < taken.len() {
            assert(taken[at] == found[at]->Ok_0);
            assert(taken[at] == (k, v));
        }
        assert forall|i: int| 0 <= i < limit implies bytes::lex_lt((#[trigger] taken[i]).0, k) by {
            assert(taken[i] == found[i]->Ok_0);
            assert(bytes::lex_lt(found[i]->Ok_0.0, found[at]->Ok_0.0));
        }
    }
}

/// Whether a read gave this value.
pub open spec fn is_value(
    r: core::result::Result<Option<Seq<u8>>, ErrorView>,
    value: Seq<u8>,
) -> bool {
    r == Ok::<Option<Seq<u8>>, ErrorView>(Some(value))
}

} // verus!
