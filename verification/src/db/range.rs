//! Scans: the live keys of a range, in order.

use std::collections::VecDeque;
use std::sync::Arc;
use vstd::prelude::*;

use super::{Db, SsTable};
use crate::error::{ErrorView, Result};
use crate::fs;
use crate::fs::Fs;
use crate::memtable;
use crate::record;
use crate::record::Record;
use crate::scan;
use crate::scan::{Item, ItemView, Merge, MergeView, Step, StepView};
use crate::snapshots::Snapshot;
use crate::sstable;
use crate::state;

verus! {

/// Keys and their values.
pub open spec fn pair_views(pairs: Seq<(Vec<u8>, Vec<u8>)>) -> Seq<(Seq<u8>, Seq<u8>)> {
    pairs.map_values(|kv: (Vec<u8>, Vec<u8>)| (kv.0@, kv.1@))
}

/// A scan that is under way. A block of a table is read once the blocks before
/// it are used up, so that a scan reads no more than it needs.
struct Scan<'a, F: Fs> {
    merge: Merge,
    /// The tables, which are the sources from the third on.
    tables: Vec<Arc<SsTable<F>>>,
    /// Of each table, the next block to read.
    next: Vec<usize>,
    /// Of each table, the end of the blocks that can hold keys of the range.
    to: Vec<usize>,
    start: Option<&'a [u8]>,
    end: Option<&'a [u8]>,
}

impl<'a, F: Fs> Scan<'a, F> {
    spec fn wf(&self) -> bool {
        &&& self.merge@.sources.len() == self.tables@.len() + 2
        &&& self.merge@.end is None
        &&& scan::all_ok(self.merge@.sources)
        &&& self.next@.len() == self.tables@.len()
        &&& self.to@.len() == self.tables@.len()
        &&& super::all_readable(self.tables@)
        &&& forall|k: int|
            0 <= k < self.tables@.len() ==> (#[trigger] self.next@[k]) <= self.to@[k]
                <= self.tables@[k].reader.table().index.len()
    }

    /// What is still to be read of a table.
    spec fn rest(&self, k: int) -> Seq<ItemView> {
        let reader = self.tables@[k].reader;
        sstable::range_items(
            reader.contents(),
            reader.table().index.subrange(self.next@[k] as int, self.to@[k] as int),
            memtable::key_view(self.start),
            memtable::key_view(self.end),
        )
    }

    spec fn rests(&self) -> Seq<Seq<ItemView>> {
        Seq::new(
            self.merge@.sources.len(),
            |i: int|
                if i < 2 {
                    Seq::empty()
                } else {
                    self.rest(i - 2)
                },
        )
    }

    /// The merge of all that has been read and all that is still to be read.
    spec fn full(&self) -> MergeView {
        MergeView { sources: scan::extended(self.merge@.sources, self.rests()), ..self.merge@ }
    }

    /// Whether none of the first `n` sources is dry that has more to come.
    spec fn fed(&self, n: int) -> bool {
        forall|i: int|
            0 <= i < n && (#[trigger] self.rests()[i]).len() > 0 ==> self.merge@.sources[i].len()
                > 0
    }

    /// Read on where a table's source has run dry.
    fn refill(&mut self) -> (r: Result<()>)
        requires
            old(self).wf(),
        ensures
            final(self).wf(),
            final(self).full() == old(self).full(),
            final(self).tables@ == old(self).tables@,
            old(self).tables@.len() == 0 ==> r is Ok,
            r is Ok ==> final(self).fed(final(self).rests().len() as int),
            r matches Err(e) ==> fs::handed_on::<F::File>(e@) || old(self).full().stepped().0 == StepView::Found(
                Err::<(Seq<u8>, Seq<u8>), ErrorView>(e@),
            ),
    {
        let n: usize = self.tables.len();
        let mut k: usize = 0;
        while k < n
            invariant
                self.wf(),
                self.full() == old(self).full(),
                self.tables@ == old(self).tables@,
                k <= n == self.tables@.len(),
                self.fed(k + 2),
            decreases n - k,
        {
            self.refill_one(k)?;
            k += 1;
        }
        Ok(())
    }

    fn refill_one(&mut self, k: usize) -> (r: Result<()>)
        requires
            old(self).wf(),
            k < old(self).tables@.len(),
            old(self).fed(k + 2),
        ensures
            final(self).wf(),
            final(self).tables@ == old(self).tables@,
            final(self).full() == old(self).full(),
            r is Ok ==> final(self).fed(k + 3),
            r matches Err(e) ==> fs::handed_on::<F::File>(e@) || old(self).full().stepped().0 == StepView::Found(
                Err::<(Seq<u8>, Seq<u8>), ErrorView>(e@),
            ),
    {
        let total: usize = self.merge.source_count();
        assert(k + 2 < total);
        let at: usize = k + 2;
        while self.merge.is_dry(at) && self.next[k] < self.to[k]
            invariant
                self.wf(),
                self.tables@ == old(self).tables@,
                self.full() == old(self).full(),
                k < self.tables@.len(),
                at == k + 2,
                self.fed(k + 2),
            decreases self.to@[k as int] - self.next@[k as int],
        {
            let ghost was = *self;
            let block: usize = self.next[k];
            proof {
                self.next_block(k as int);
            }
            let records = match self.tables[k].reader.load_in_range(block, self.start, self.end) {
                Ok(records) => records,
                Err(e) => {
                    proof {
                        if !fs::handed_on::<F::File>(e@) {
                            let full = self.full();
                            assert(full.sources[at as int] =~= self.rest(k as int));
                            assert forall|i: int|
                                0 <= i < at && (#[trigger] full.sources[i]).len()
                                    > 0 implies full.sources[i][0] is Ok by {
                                assert(full.sources[i] == self.merge@.sources[i]
                                    + self.rests()[i]);
                                assert(self.merge@.sources[i].len() > 0);
                                assert(self.merge@.sources[i][0] is Ok);
                            }
                            scan::failure_is_next(full, at as int);
                        }
                    }
                    return Err(e);
                },
            };
            let ghost found = record::views(records@);
            self.next[k] = block + 1;
            self.merge.feed(at, records);
            proof {
                let after = self.merge@.sources;
                assert forall|i: int, j: int| 0 <= i < after.len() && 0 <= j < after[i].len()
                    implies (#[trigger] after[i][j]) is Ok by {
                    if i != at {
                        assert(was.merge@.sources[i][j] is Ok);
                    }
                }
                assert forall|i: int| 0 <= i < after.len() implies #[trigger] after[i]
                    + self.rests()[i] == was.merge@.sources[i] + was.rests()[i] by {
                    if i == at {
                        assert(self.rests()[i] == self.rest(k as int));
                        assert(was.rests()[i] == was.rest(k as int));
                        assert(after[i] + self.rests()[i] =~= was.merge@.sources[i]
                            + was.rests()[i]);
                    } else {
                        assert(after[i] == was.merge@.sources[i]);
                        if i >= 2 {
                            assert(self.next@[i - 2] == was.next@[i - 2]);
                        }
                        assert(self.rests()[i] == was.rests()[i]);
                    }
                }
                assert(self.full().sources =~= was.full().sources);
                assert forall|i: int| 0 <= i < k + 2 && (#[trigger] self.rests()[i]).len()
                    > 0 implies self.merge@.sources[i].len() > 0 by {
                    if i >= 2 {
                        assert(self.next@[i - 2] == was.next@[i - 2]);
                    }
                    assert(self.rests()[i] == was.rests()[i]);
                }
            }
        }
        proof {
            if self.next@[k as int] >= self.to@[k as int] {
                let reader = self.tables@[k as int].reader;
                assert(reader.table().index.subrange(
                    self.next@[k as int] as int,
                    self.to@[k as int] as int,
                ) =~= Seq::empty());
                assert(self.rests()[at as int] == self.rest(k as int));
            }
        }
        Ok(())
    }

    /// What is still to be read of a table starts with the next block.
    proof fn next_block(&self, k: int)
        requires
            self.wf(),
            0 <= k < self.tables@.len(),
            self.next@[k] < self.to@[k],
        ensures
            ({
                let reader = self.tables@[k].reader;
                let index = reader.table().index;
                let start = memtable::key_view(self.start);
                let end = memtable::key_view(self.end);
                self.rest(k) == sstable::block_items(
                    reader.contents(),
                    index[self.next@[k] as int],
                    start,
                    end,
                ) + sstable::range_items(
                    reader.contents(),
                    index.subrange(self.next@[k] + 1, self.to@[k] as int),
                    start,
                    end,
                )
            }),
    {
        let index = self.tables@[k].reader.table().index;
        let left = index.subrange(self.next@[k] as int, self.to@[k] as int);
        assert(left.drop_first() =~= index.subrange(self.next@[k] + 1, self.to@[k] as int));
    }

    /// The first results, up to `limit` of them.
    fn collect(&mut self, limit: usize) -> (r: Result<Vec<(Vec<u8>, Vec<u8>)>>)
        requires
            old(self).wf(),
        ensures
            ({
                let said = scan::taken(scan::results(old(self).full()), limit as nat);
                match r {
                    Ok(v) => said == Ok::<Seq<(Seq<u8>, Seq<u8>)>, ErrorView>(pair_views(v@)),
                    Err(e) => fs::handed_on::<F::File>(e@) || said == Err::<Seq<(Seq<u8>, Seq<u8>)>, ErrorView>(e@),
                }
            }),
            old(self).tables@.len() == 0 ==> r is Ok,
    {
        let ghost all = scan::results(self.full());
        let ghost said = scan::taken(all, limit as nat);
        let mut out: Vec<(Vec<u8>, Vec<u8>)> = Vec::new();
        proof {
            assert(pair_views(out@) =~= Seq::empty());
            if let Ok(v) = said {
                assert(pair_views(out@) + v =~= v);
            }
        }
        while out.len() < limit
            invariant
                self.wf(),
                self.tables@ == old(self).tables@,
                all == scan::results(old(self).full()),
                said == scan::taken(all, limit as nat),
                out@.len() <= limit,
                ({
                    let left = scan::taken(
                        scan::results(self.full()),
                        (limit - out@.len()) as nat,
                    );
                    match left {
                        Ok(v) => said == Ok::<Seq<(Seq<u8>, Seq<u8>)>, ErrorView>(
                            pair_views(out@) + v,
                        ),
                        Err(e) => said == Err::<Seq<(Seq<u8>, Seq<u8>)>, ErrorView>(e),
                    }
                }),
            decreases scan::items_left(self.full().sources),
        {
            proof {
                scan::results_step(self.full());
            }
            self.refill()?;
            let ghost full = self.full();
            let ghost rests = self.rests();
            let ghost before = out@;
            proof {
                scan::step_sees_heads(self.merge@, rests);
                scan::step_keeps_ok(self.merge@);
            }
            let step = self.merge.step();
            proof {
                assert(self.rests() =~= rests);
                assert(self.full() == full.stepped().1);
            }
            match step {
                Step::Done => {
                    assert(pair_views(out@) + Seq::empty() =~= pair_views(out@));
                    return Ok(out);
                },
                Step::Passed => {},
                Step::Found(Err(e)) => return Err(e),
                Step::Found(Ok(kv)) => {
                    out.push(kv);
                    proof {
                        let next = scan::results(self.full());
                        let x = Ok::<(Seq<u8>, Seq<u8>), ErrorView>((kv.0@, kv.1@));
                        assert((seq![x] + next).drop_first() =~= next);
                        assert(pair_views(out@) =~= pair_views(before).push((kv.0@, kv.1@)));
                        if let Ok(v) = scan::taken(next, (limit - out@.len()) as nat) {
                            assert(pair_views(before) + (seq![(kv.0@, kv.1@)] + v) =~= pair_views(
                                out@,
                            ) + v);
                        }
                    }
                },
            }
        }
        assert(pair_views(out@) + Seq::empty() =~= pair_views(out@));
        Ok(out)
    }
}

/// The records of a MemTable that lie in a key range.
fn memory_source(table: &memtable::MemTable, start: Option<&[u8]>, end: Option<&[u8]>) -> (r:
    VecDeque<Item>)
    requires
        table.wf(),
    ensures
        r@.map_values(|i: Item| scan::item_view(i)) == state::memory_items(
            table@,
            memtable::key_view(start),
            memtable::key_view(end),
        ),
{
    let records = table.range_slice(start, end);
    let n: usize = records.len();
    let mut out: VecDeque<Record> = VecDeque::new();
    let mut i: usize = 0;
    assert(record::views(out@) =~= record::views(records@).take(0));
    while i < n
        invariant
            i <= n == records@.len(),
            record::views(out@) == record::views(records@).take(i as int),
        decreases n - i,
    {
        let ghost was = out@;
        out.push_back(records[i].clone());
        i += 1;
        proof {
            assert(record::views(out@) =~= record::views(was).push(records@[i - 1]@));
            assert(record::views(out@) =~= record::views(records@).take(i as int));
        }
    }
    assert(record::views(records@).take(n as int) =~= record::views(records@));
    scan::items_of(out)
}

/// Whether the blocks of a table from one up to another are those that can hold
/// keys of a range.
spec fn covers<F: Fs>(
    t: Arc<SsTable<F>>,
    from: usize,
    to: usize,
    start: Option<Seq<u8>>,
    end: Option<Seq<u8>>,
) -> bool {
    let index = t.reader.table().index;
    &&& from <= to <= index.len()
    &&& sstable::index_ascends(index) ==> index.subrange(from as int, to as int)
        == sstable::blocks_in_range(index, start, end)
}

impl<F: Fs> Db<F> {
    /// The first `limit` live keys from `start` on and before `end`, with their
    /// values, in order of the keys. Without a start or an end, the range is
    /// open on that side.
    pub fn scan(&self, start: Option<&[u8]>, end: Option<&[u8]>, limit: usize) -> (r: Result<
        Vec<(Vec<u8>, Vec<u8>)>,
    >)
        requires
            self.wf(),
        ensures
            self.lists(r, memtable::key_view(start), memtable::key_view(end), u64::MAX, limit),
    {
        self.scan_below(start, end, u64::MAX, limit)
    }

    /// What [`scan`](Db::scan) would have given when the snapshot was taken.
    pub fn scan_at(
        &self,
        snapshot: &Snapshot,
        start: Option<&[u8]>,
        end: Option<&[u8]>,
        limit: usize,
    ) -> (r: Result<Vec<(Vec<u8>, Vec<u8>)>>)
        requires
            self.wf(),
        ensures
            self.lists(
                r,
                memtable::key_view(start),
                memtable::key_view(end),
                snapshot.sees_below(),
                limit,
            ),
    {
        self.scan_below(start, end, snapshot.horizon(), limit)
    }

    /// What a scan gives back. After a failure it refuses. A scan of tables may
    /// fail because the filesystem does.
    pub open spec fn lists(
        &self,
        r: Result<Vec<(Vec<u8>, Vec<u8>)>>,
        start: Option<Seq<u8>>,
        end: Option<Seq<u8>>,
        bound: u64,
        limit: usize,
    ) -> bool {
        match self@.failure {
            Some(m) => r is Err && r->Err_0@ == ErrorView::Poisoned(m),
            None => {
                let said = self@.scanned(start, end, bound, limit as nat);
                &&& limit == 0 || self@.tables.len() == 0 ==> r is Ok
                &&& self@.ordered() ==> match r {
                    Ok(v) => said == Ok::<Seq<(Seq<u8>, Seq<u8>)>, ErrorView>(pair_views(v@)),
                    Err(e) => fs::handed_on::<F::File>(e@) || said == Err::<Seq<(Seq<u8>, Seq<u8>)>, ErrorView>(e@),
                }
            },
        }
    }

    fn scan_below(
        &self,
        start: Option<&[u8]>,
        end: Option<&[u8]>,
        seq_bound: u64,
        limit: usize,
    ) -> (r: Result<Vec<(Vec<u8>, Vec<u8>)>>)
        requires
            self.wf(),
        ensures
            self.lists(r, memtable::key_view(start), memtable::key_view(end), seq_bound, limit),
    {
        self.health()?;
        if limit == 0 {
            let none: Vec<(Vec<u8>, Vec<u8>)> = Vec::new();
            assert(pair_views(none@) =~= Seq::empty());
            return Ok(none);
        }
        let ghost start_view = memtable::key_view(start);
        let ghost end_view = memtable::key_view(end);
        let mut sources: Vec<VecDeque<Item>> = Vec::new();
        sources.push(memory_source(&self.active, start, end));
        match &self.frozen {
            Some(frozen) => {
                sources.push(memory_source(frozen, start, end));
            },
            None => {
                let none: VecDeque<Item> = VecDeque::new();
                proof {
                    reveal(Seq::filter);
                    assert(none@.map_values(|i: Item| scan::item_view(i)) =~= state::memory_items(
                        Seq::empty(),
                        start_view,
                        end_view,
                    ));
                }
                sources.push(none);
            },
        }
        let ghost memory = sources@;
        let n: usize = self.sstables.len();
        let mut tables: Vec<Arc<SsTable<F>>> = Vec::new();
        let mut next: Vec<usize> = Vec::new();
        let mut to: Vec<usize> = Vec::new();
        let mut i: usize = n;
        while i > 0
            invariant
                self.wf(),
                i <= n == self.sstables@.len(),
                memory.len() == 2,
                sources@.len() == tables@.len() + 2,
                forall|k: int| 0 <= k < 2 ==> #[trigger] sources@[k] == memory[k],
                forall|k: int|
                    2 <= k < sources@.len() ==> (#[trigger] sources@[k])@ == Seq::<Item>::empty(),
                tables@.len() == n - i,
                next@.len() == n - i,
                to@.len() == n - i,
                start_view == memtable::key_view(start),
                end_view == memtable::key_view(end),
                forall|k: int|
                    0 <= k < n - i ==> #[trigger] tables@[k] == self.sstables@[n - 1 - k],
                forall|k: int|
                    0 <= k < n - i ==> #[trigger] covers(
                        tables@[k],
                        next@[k],
                        to@[k],
                        start_view,
                        end_view,
                    ),
            decreases i,
        {
            i -= 1;
            let table = Arc::clone(&self.sstables[i]);
            let ghost before = tables@;
            let ghost was_next = next@;
            let ghost was_to = to@;
            assert(self.sstables@[i as int].reader.wf());
            let (from, upto) = table.reader.block_range(start, end);
            tables.push(table);
            next.push(from);
            to.push(upto);
            sources.push(VecDeque::new());
            proof {
                assert forall|k: int| 0 <= k < n - i implies #[trigger] covers(
                    tables@[k],
                    next@[k],
                    to@[k],
                    start_view,
                    end_view,
                ) by {
                    if k < before.len() {
                        assert(covers(before[k], was_next[k], was_to[k], start_view, end_view));
                    }
                }
            }
        }
        let mut scan: Scan<'_, F> = Scan {
            merge: Merge::new(sources, seq_bound, None),
            tables,
            next,
            to,
            start,
            end,
        };
        proof {
            let s = scan.merge@.sources;
            assert(s[0] == state::memory_items(self@.active, start_view, end_view));
            assert(s[1] == state::memory_items(self@.frozen_records(), start_view, end_view));
            assert forall|k: int| 2 <= k < s.len() implies #[trigger] s[k]
                == Seq::<ItemView>::empty() by {
                assert(s[k] =~= Seq::<ItemView>::empty());
            }
            assert forall|a: int, b: int| 0 <= a < s.len() && 0 <= b < s[a].len() implies (
            #[trigger] s[a][b]) is Ok by {
                if a >= 2 {
                    assert(s[a].len() == 0);
                }
            }
            assert forall|k: int| 0 <= k < scan.tables@.len() implies (
            #[trigger] scan.tables@[k]).reader.wf() by {
                assert(scan.tables@[k] == self.sstables@[n - 1 - k]);
            }
            assert forall|k: int| 0 <= k < scan.tables@.len() implies (#[trigger] scan.next@[k])
                <= scan.to@[k] <= scan.tables@[k].reader.table().index.len() by {
                assert(covers(
                    scan.tables@[k],
                    scan.next@[k],
                    scan.to@[k],
                    start_view,
                    end_view,
                ));
            }
            assert(scan.wf());
            if self@.ordered() {
                let whole = self@.merge(start_view, end_view, seq_bound);
                assert forall|k: int| 0 <= k < s.len() implies #[trigger] scan.full().sources[k]
                    == whole.sources[k] by {
                    if k < 2 {
                        assert(s[k] + Seq::<ItemView>::empty() =~= s[k]);
                    } else {
                        let t = self.sstables@[n - 1 - (k - 2)];
                        assert(scan.tables@[k - 2] == t);
                        assert(covers(
                            scan.tables@[k - 2],
                            scan.next@[k - 2],
                            scan.to@[k - 2],
                            start_view,
                            end_view,
                        ));
                        assert(self@.tables[n - 1 - (k - 2)] == t.stored());
                        assert(self@.tables[n - 1 - (k - 2)].ascends());
                        t.reader.wf_facts();
                        assert(scan.full().sources[k] =~= scan.rest(k - 2));
                    }
                }
                assert(scan.full().sources =~= whole.sources);
                assert(scan.full() == whole);
            }
        }
        scan.collect(limit)
    }
}

} // verus!
