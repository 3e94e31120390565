//! Merging a key range across the MemTables and every table.
//!
//! Each source is in the same order, by key and newest version first, so the
//! merge walks them side by side and keeps, for each key, the first record
//! below the caller's horizon. Sequence numbers are global, so which source a
//! record comes from never matters. A key whose newest visible record is a
//! tombstone is deleted and is not a result.

use std::collections::VecDeque;
use vstd::prelude::*;

use crate::bytes;
use crate::bytes::Order;
use crate::error::{ErrorView, Result};
use crate::record;
use crate::record::{Record, RecordView};
use crate::versions;

verus! {

/// One record of a source, or the source's failure.
pub type Item = Result<Record>;

/// The content of an [`Item`].
pub type ItemView = core::result::Result<RecordView, ErrorView>;

/// The content of a result: a key and its value, or a failure.
pub type LiveView = core::result::Result<(Seq<u8>, Seq<u8>), ErrorView>;

/// The content of an item.
pub open spec fn item_view(item: Item) -> ItemView {
    match item {
        Ok(r) => Ok(r@),
        Err(e) => Err(e@),
    }
}

/// The content of sources.
pub open spec fn source_views(sources: Seq<VecDeque<Item>>) -> Seq<Seq<ItemView>> {
    sources.map_values(|s: VecDeque<Item>| s@.map_values(|i: Item| item_view(i)))
}

/// Whether head `a` is taken before head `b`, where `b` comes from a later
/// source: a failure is, and else the smaller key is, and of one key the
/// version that is not older.
pub open spec fn goes_first(a: ItemView, b: ItemView) -> bool {
    match (a, b) {
        (Err(_), _) => true,
        (Ok(_), Err(_)) => false,
        (Ok(x), Ok(y)) => bytes::lex_lt(x.key, y.key) || (x.key == y.key && x.seq >= y.seq),
    }
}

/// The source to take from next, of the first `n`: the one whose head goes
/// first.
pub open spec fn next_of(sources: Seq<Seq<ItemView>>, n: int) -> Option<int>
    decreases n,
{
    if n <= 0 {
        None
    } else {
        match next_of(sources, n - 1) {
            None => if sources[n - 1].len() > 0 {
                Some(n - 1)
            } else {
                None
            },
            Some(i) => if sources[n - 1].len() == 0 || goes_first(
                sources[i][0],
                sources[n - 1][0],
            ) {
                Some(i)
            } else {
                Some(n - 1)
            },
        }
    }
}

/// How many items are left.
pub open spec fn items_left(sources: Seq<Seq<ItemView>>) -> nat
    decreases sources.len(),
{
    if sources.len() == 0 {
        0
    } else {
        items_left(sources.drop_last()) + sources.last().len()
    }
}

/// What a step of a merge comes to.
pub enum StepView {
    /// The sources are at their ends.
    Done,
    /// A record that is no result was passed over.
    Passed,
    /// A result.
    Found(LiveView),
}

/// What a merge works on: the sources, and the key that is settled.
#[verifier::ext_equal]
pub struct MergeView {
    pub sources: Seq<Seq<ItemView>>,
    pub seq_bound: u64,
    pub end: Option<Seq<u8>>,
    pub done: Option<Seq<u8>>,
}

impl MergeView {
    /// The source to take from next.
    pub open spec fn next_source(self) -> Option<int> {
        next_of(self.sources, self.sources.len() as int)
    }

    /// The merge without the head of source `i`.
    pub open spec fn advanced(self, i: int) -> MergeView {
        MergeView { sources: self.sources.update(i, self.sources[i].drop_first()), ..self }
    }

    /// The merge without source `i`.
    pub open spec fn dropped(self, i: int) -> MergeView {
        MergeView { sources: self.sources.update(i, Seq::empty()), ..self }
    }

    /// Whether a key is behind the range.
    pub open spec fn past_end(self, key: Seq<u8>) -> bool {
        self.end matches Some(e) && !bytes::lex_lt(key, e)
    }

    /// What the next step comes to, and what is left after it: the head that
    /// goes first is taken. It is a result unless it is past the end, not
    /// visible, a version of a key that is settled, or a deletion.
    pub open spec fn stepped(self) -> (StepView, MergeView) {
        match self.next_source() {
            None => (StepView::Done, self),
            Some(i) => match self.sources[i][0] {
                Err(e) => (StepView::Found(Err(e)), self.advanced(i)),
                Ok(r) => if self.past_end(r.key) {
                    (StepView::Passed, self.dropped(i))
                } else if self.done == Some(r.key) || r.seq >= self.seq_bound {
                    (StepView::Passed, self.advanced(i))
                } else {
                    let settled = MergeView { done: Some(r.key), ..self.advanced(i) };
                    match r.value {
                        Some(v) => (StepView::Found(Ok((r.key, v))), settled),
                        None => (StepView::Passed, settled),
                    }
                },
            },
        }
    }

    /// The next result, and what is left after it.
    pub open spec fn next_result(self) -> (Option<LiveView>, MergeView)
        decreases items_left(self.sources),
    {
        proof {
            merge_shrinks(self);
        }
        match self.stepped() {
            (StepView::Done, m) => (None, m),
            (StepView::Passed, m) => m.next_result(),
            (StepView::Found(x), m) => (Some(x), m),
        }
    }
}

proof fn items_left_update(sources: Seq<Seq<ItemView>>, i: int, s: Seq<ItemView>)
    requires
        0 <= i < sources.len(),
    ensures
        items_left(sources.update(i, s)) == items_left(sources) - sources[i].len() + s.len(),
    decreases sources.len(),
{
    let t = sources.update(i, s);
    if i == sources.len() - 1 {
        assert(t.drop_last() =~= sources.drop_last());
    } else {
        items_left_update(sources.drop_last(), i, s);
        assert(t.drop_last() =~= sources.drop_last().update(i, s));
    }
}

/// The source to take from is one that has an item, and its head goes first: no
/// head of an earlier source goes before it or level with it, and none of a
/// later source before it.
proof fn next_of_facts(sources: Seq<Seq<ItemView>>, n: int)
    requires
        0 <= n <= sources.len(),
    ensures
        match next_of(sources, n) {
            None => forall|j: int| 0 <= j < n ==> (#[trigger] sources[j]).len() == 0,
            Some(i) => 0 <= i < n && sources[i].len() > 0,
        },
    decreases n,
{
    if n > 0 {
        next_of_facts(sources, n - 1);
    }
}

/// A merge always comes to an end: taking an item or dropping a source leaves
/// fewer items.
pub proof fn merge_shrinks(m: MergeView)
    ensures
        m.next_source() matches Some(i) ==> 0 <= i < m.sources.len() && m.sources[i].len() > 0
            && items_left(m.advanced(i).sources) < items_left(m.sources) && items_left(
            m.dropped(i).sources,
        ) < items_left(m.sources),
        m.next_source() is None ==> forall|j: int|
            0 <= j < m.sources.len() ==> (#[trigger] m.sources[j]).len() == 0,
{
    next_of_facts(m.sources, m.sources.len() as int);
    if let Some(i) = m.next_source() {
        items_left_update(m.sources, i, m.sources[i].drop_first());
        items_left_update(m.sources, i, Seq::empty());
    }
}

/// Merges sources in order into one stream of live values, by key.
pub struct Merge {
    sources: Vec<VecDeque<Item>>,
    seq_bound: u64,
    end: Option<Vec<u8>>,
    /// The key that is settled: every other version of it is passed over.
    done: Option<Vec<u8>>,
}

/// The content of an optional key.
pub open spec fn opt_view(key: Option<Vec<u8>>) -> Option<Seq<u8>> {
    match key {
        Some(k) => Some(k@),
        None => None,
    }
}

/// The content of a result of a merge.
pub open spec fn live_view(r: Option<Result<(Vec<u8>, Vec<u8>)>>) -> Option<LiveView> {
    match r {
        None => None,
        Some(Ok(kv)) => Some(Ok((kv.0@, kv.1@))),
        Some(Err(e)) => Some(Err(e@)),
    }
}

impl View for Merge {
    type V = MergeView;

    closed spec fn view(&self) -> MergeView {
        MergeView {
            sources: source_views(self.sources@),
            seq_bound: self.seq_bound,
            end: opt_view(self.end),
            done: opt_view(self.done),
        }
    }
}

impl Merge {
    /// A merge of these sources, of what is below `seq_bound` and before `end`.
    pub fn new(sources: Vec<VecDeque<Item>>, seq_bound: u64, end: Option<Vec<u8>>) -> (r: Merge)
        ensures
            r@ == (MergeView {
                sources: source_views(sources@),
                seq_bound,
                end: opt_view(end),
                done: None,
            }),
    {
        Merge { sources, seq_bound, end, done: None }
    }

    /// The source whose head goes first. A failure at the head of any source
    /// goes before all else, so that it is reported and not overtaken.
    fn next_source(&self) -> (r: Option<usize>)
        ensures
            match r {
                Some(i) => self@.next_source() == Some(i as int) && i < self.sources@.len()
                    && self.sources@[i as int]@.len() > 0,
                None => self@.next_source() is None,
            },
    {
        let ghost s = self@.sources;
        let n: usize = self.sources.len();
        let mut best: Option<usize> = None;
        let mut i: usize = 0;
        while i < n
            invariant
                i <= n == self.sources@.len(),
                s == self@.sources,
                match best {
                    Some(b) => next_of(s, i as int) == Some(b as int) && b < i
                        && self.sources@[b as int]@.len() > 0,
                    None => next_of(s, i as int) is None,
                },
            decreases n - i,
        {
            assert(s[i as int].len() == self.sources@[i as int]@.len());
            if self.sources[i].len() > 0 {
                let keep = match best {
                    None => false,
                    Some(b) => {
                        assert(s[b as int][0] == item_view(self.sources@[b as int]@[0]));
                        assert(s[i as int][0] == item_view(self.sources@[i as int]@[0]));
                        Self::first_head(&self.sources[b][0], &self.sources[i][0])
                    },
                };
                if !keep {
                    best = Some(i);
                }
            }
            i += 1;
        }
        best
    }

    /// Whether head `a` is taken before head `b` of a later source.
    fn first_head(a: &Item, b: &Item) -> (r: bool)
        ensures
            r == goes_first(item_view(*a), item_view(*b)),
    {
        match a {
            Err(_) => true,
            Ok(x) => match b {
                Err(_) => false,
                Ok(y) => {
                    proof {
                        bytes::lex_total(x@.key, y@.key);
                    }
                    match bytes::order(x.key.as_slice(), y.key.as_slice()) {
                        Order::Less => true,
                        Order::Greater => false,
                        Order::Equal => x.seq >= y.seq,
                    }
                },
            },
        }
    }

    /// The next live value, or the next failure.
    pub fn next(&mut self) -> (r: Option<Result<(Vec<u8>, Vec<u8>)>>)
        ensures
            live_view(r) == old(self)@.next_result().0,
            final(self)@ == old(self)@.next_result().1,
    {
        let ghost start = self@;
        loop
            invariant
                self@.next_result() == start.next_result(),
                start == old(self)@,
            decreases items_left(self@.sources),
        {
            let ghost now = self@;
            proof {
                merge_shrinks(now);
            }
            match self.step() {
                Step::Done => return None,
                Step::Found(x) => return Some(x),
                Step::Passed => {},
            }
        }
    }

    /// Take one record, or find that there is none left.
    pub fn step(&mut self) -> (r: Step)
        ensures
            step_view(r) == old(self)@.stepped().0,
            final(self)@ == old(self)@.stepped().1,
    {
        let ghost now = self@;
        proof {
            merge_shrinks(now);
        }
        let index: usize = match self.next_source() {
            Some(i) => i,
            None => return Step::Done,
        };
        assert(now.sources[index as int][0] == item_view(self.sources@[index as int]@[0]));
        let item = match self.sources[index].pop_front() {
            Some(item) => item,
            None => return Step::Done,
        };
        assert(self@ =~~= now.advanced(index as int));
        let record = match item {
            Ok(record) => record,
            Err(e) => return Step::Found(Err(e)),
        };
        let past = match &self.end {
            Some(end) => !bytes::less(record.key.as_slice(), end.as_slice()),
            None => false,
        };
        if past {
            // The source is in order, so there is nothing more in range in it.
            self.sources[index].clear();
            assert(self@ =~~= now.dropped(index as int));
            return Step::Passed;
        }
        let settled = match &self.done {
            Some(k) => bytes::same(k.as_slice(), record.key.as_slice()),
            None => false,
        };
        if settled || record.seq >= self.seq_bound {
            return Step::Passed;
        }
        self.done = Some(bytes::copy(record.key.as_slice()));
        assert(self@ =~~= (MergeView { done: Some(record@.key), ..now.advanced(index as int) }));
        match record.value {
            Some(value) => Step::Found(Ok((record.key, value))),
            None => Step::Passed,
        }
    }

    /// How many sources there are.
    pub fn source_count(&self) -> (r: usize)
        ensures
            r == self@.sources.len(),
    {
        self.sources.len()
    }

    /// Whether a source has nothing left to give.
    pub fn is_dry(&self, i: usize) -> (r: bool)
        requires
            i < self@.sources.len(),
        ensures
            r == (self@.sources[i as int].len() == 0),
    {
        self.sources[i].len() == 0
    }

    /// Give a source more records, behind those that it has.
    pub fn feed(&mut self, i: usize, records: VecDeque<Record>)
        requires
            i < old(self)@.sources.len(),
        ensures
            final(self)@ == (MergeView {
                sources: old(self)@.sources.update(
                    i as int,
                    old(self)@.sources[i as int] + ok_items(record::views(records@)),
                ),
                ..old(self)@
            }),
    {
        let mut more = items_of(records);
        let ghost before = self.sources@;
        let ghost added = more@;
        self.sources[i].append(&mut more);
        proof {
            let s = self.sources@;
            assert(s[i as int]@ =~= before[i as int]@ + added);
            assert forall|k: int| 0 <= k < s.len() implies #[trigger] source_views(s)[k]
                == old(self)@.sources.update(
                i as int,
                old(self)@.sources[i as int] + ok_items(record::views(records@)),
            )[k] by {
                if k == i {
                    assert(source_views(s)[k] =~= old(self)@.sources[k] + ok_items(
                        record::views(records@),
                    ));
                }
            }
            assert(self@.sources =~= old(self)@.sources.update(
                i as int,
                old(self)@.sources[i as int] + ok_items(record::views(records@)),
            ));
        }
    }
}

/// What a step of a merge comes to.
pub enum Step {
    /// The sources are at their ends.
    Done,
    /// A record that is no result was passed over.
    Passed,
    /// A result.
    Found(Result<(Vec<u8>, Vec<u8>)>),
}

/// What a [`Step`] is.
pub open spec fn step_view(r: Step) -> StepView {
    match r {
        Step::Done => StepView::Done,
        Step::Passed => StepView::Passed,
        Step::Found(x) => StepView::Found(live_view(Some(x))->0),
    }
}

/// Records as items of a source.
pub open spec fn ok_items(records: Seq<RecordView>) -> Seq<ItemView> {
    records.map_values(|r: RecordView| Ok::<RecordView, ErrorView>(r))
}

/// Records as items of a source.
pub fn items_of(mut records: VecDeque<Record>) -> (r: VecDeque<Item>)
    ensures
        r@.map_values(|i: Item| item_view(i)) == ok_items(record::views(records@)),
{
    let ghost all = record::views(records@);
    let mut out: VecDeque<Item> = VecDeque::new();
    proof {
        assert(out@.map_values(|i: Item| item_view(i)) =~= ok_items(all.take(0)));
        assert(record::views(records@) =~= all.skip(0));
    }
    let ghost mut done: int = 0;
    while records.len() > 0
        invariant
            0 <= done <= all.len(),
            record::views(records@) == all.skip(done),
            out@.map_values(|i: Item| item_view(i)) == ok_items(all.take(done)),
        decreases records@.len(),
    {
        let ghost was = records@;
        if let Some(r) = records.pop_front() {
            let ghost before = out@;
            out.push_back(Ok(r));
            proof {
                assert(record::views(was).len() == was.len());
                assert(r@ == record::views(was)[0]);
                assert(all.skip(done)[0] == all[done]);
                assert(records@ =~= was.drop_first());
                assert(record::views(records@) =~= record::views(was).drop_first());
                assert(record::views(records@) =~= all.skip(done + 1));
                assert(out@.map_values(|i: Item| item_view(i)) =~= before.map_values(
                    |i: Item| item_view(i),
                ).push(Ok::<RecordView, ErrorView>(r@)));
                assert(ok_items(all.take(done + 1)) =~= ok_items(all.take(done)).push(
                    Ok::<RecordView, ErrorView>(all[done]),
                ));
                done = done + 1;
            }
        }
    }
    proof {
        assert(record::views(records@).len() == 0);
        assert(all.take(done) =~= all);
    }
    out
}

// -------------------------------------------------------------------- laws
/// Whether a record is in one of the sources.
pub open spec fn has(m: MergeView, r: RecordView) -> bool {
    exists|i: int, j: int|
        0 <= i < m.sources.len() && 0 <= j < m.sources[i].len() && #[trigger] m.sources[i][j]
            == Ok::<RecordView, ErrorView>(r)
}

/// Whether the sources are as the engine's are: no source has failed, each is
/// in order, and a version is the same record wherever it stands.
pub open spec fn well_sourced(m: MergeView) -> bool {
    &&& forall|i: int, j: int|
        0 <= i < m.sources.len() && 0 <= j < m.sources[i].len() ==> (#[trigger] m.sources[i][j])
            is Ok
    &&& forall|i: int, j: int, k: int|
        #![trigger m.sources[i][j], m.sources[i][k]]
        0 <= i < m.sources.len() && 0 <= j < k < m.sources[i].len() ==> versions::precedes(
            m.sources[i][j]->Ok_0,
            m.sources[i][k]->Ok_0,
        )
    &&& forall|a: RecordView, b: RecordView| #[trigger]
        has(m, a) && #[trigger] has(m, b) && a.key == b.key && a.seq == b.seq ==> a == b
}

/// Whether `r` is the newest record of `key` below the horizon.
pub open spec fn newest(m: MergeView, key: Seq<u8>, r: RecordView) -> bool {
    &&& has(m, r)
    &&& versions::visible(r, key, m.seq_bound)
    &&& forall|x: RecordView| #[trigger]
        has(m, x) && versions::visible(x, key, m.seq_bound) ==> x.seq <= r.seq
}

/// Whether `key` has this value: it is in the range, it is not settled, and its
/// newest record below the horizon is a put of the value.
pub open spec fn live(m: MergeView, key: Seq<u8>, value: Seq<u8>) -> bool {
    &&& !m.past_end(key)
    &&& m.done matches Some(d) ==> bytes::lex_lt(d, key)
    &&& exists|r: RecordView| #[trigger] newest(m, key, r) && r.value == Some(value)
}

/// What stays true in a merge: the sources are as they should be, and nothing
/// that is left comes before the key that is settled.
spec fn steady(m: MergeView) -> bool {
    &&& well_sourced(m)
    &&& m.done matches Some(d) ==> forall|r: RecordView| #[trigger]
        has(m, r) ==> bytes::lex_le(d, r.key)
}

/// `a` is taken no later than `b`.
spec fn not_after(a: RecordView, b: RecordView) -> bool {
    bytes::lex_lt(a.key, b.key) || (a.key == b.key && a.seq >= b.seq)
}

proof fn not_after_transitive(a: RecordView, b: RecordView, c: RecordView)
    requires
        not_after(a, b),
        not_after(b, c),
    ensures
        not_after(a, c),
{
    if bytes::lex_lt(a.key, b.key) && bytes::lex_lt(b.key, c.key) {
        bytes::lex_transitive(a.key, b.key, c.key);
    }
}

proof fn next_head_first(m: MergeView, n: int)
    requires
        well_sourced(m),
        0 <= n <= m.sources.len(),
    ensures
        next_of(m.sources, n) matches Some(i) ==> 0 <= i < n && m.sources[i].len() > 0
            && forall|j: int|
            0 <= j < n && m.sources[j].len() > 0 ==> not_after(
                m.sources[i][0]->Ok_0,
                (#[trigger] m.sources[j])[0]->Ok_0,
            ),
    decreases n,
{
    if n > 0 {
        next_head_first(m, n - 1);
        next_of_facts(m.sources, n - 1);
        next_of_facts(m.sources, n);
        if let Some(i) = next_of(m.sources, n) {
            assert(m.sources[i][0] is Ok);
            assert forall|j: int| 0 <= j < n && m.sources[j].len() > 0 implies not_after(
                m.sources[i][0]->Ok_0,
                (#[trigger] m.sources[j])[0]->Ok_0,
            ) by {
                if let Some(p) = next_of(m.sources, n - 1) {
                    assert(m.sources[p][0] is Ok);
                    if m.sources[n - 1].len() > 0 {
                        assert(m.sources[n - 1][0] is Ok);
                        let a = m.sources[p][0]->Ok_0;
                        let b = m.sources[n - 1][0]->Ok_0;
                        bytes::lex_total(a.key, b.key);
                        if i == n - 1 && j < n - 1 {
                            assert(not_after(b, a));
                            assert(not_after(a, m.sources[j][0]->Ok_0));
                            not_after_transitive(b, a, m.sources[j][0]->Ok_0);
                        }
                    }
                }
            }
        }
    }
}

/// The head that is taken comes first of all records.
proof fn next_is_first(m: MergeView, x: RecordView)
    requires
        well_sourced(m),
        has(m, x),
    ensures
        m.next_source() is Some,
        not_after(m.sources[m.next_source()->0][0]->Ok_0, x),
{
    let (i, j) = choose|i: int, j: int|
        0 <= i < m.sources.len() && 0 <= j < m.sources[i].len() && #[trigger] m.sources[i][j]
            == Ok::<RecordView, ErrorView>(x);
    next_of_facts(m.sources, m.sources.len() as int);
    next_head_first(m, m.sources.len() as int);
    assert(m.sources[i].len() > 0);
    let head = m.sources[i][0]->Ok_0;
    assert(m.sources[i][0] is Ok);
    if j > 0 {
        assert(versions::precedes(head, m.sources[i][j]->Ok_0));
    }
    assert(not_after(head, x));
    not_after_transitive(m.sources[m.next_source()->0][0]->Ok_0, head, x);
}

/// What is left when a head is taken: everything but that record.
proof fn advanced_has(m: MergeView, i: int)
    requires
        0 <= i < m.sources.len(),
        m.sources[i].len() > 0,
    ensures
        forall|x: RecordView| #[trigger] has(m.advanced(i), x) ==> has(m, x),
        forall|x: RecordView| #[trigger]
            has(m, x) ==> has(m.advanced(i), x) || m.sources[i][0] == Ok::<RecordView, ErrorView>(
                x,
            ),
        m.sources[i][0] matches Ok(r) ==> has(m, r),
{
    let a = m.advanced(i);
    assert forall|x: RecordView| #[trigger] has(a, x) implies has(m, x) by {
        let (p, q) = choose|p: int, q: int|
            0 <= p < a.sources.len() && 0 <= q < a.sources[p].len() && #[trigger] a.sources[p][q]
                == Ok::<RecordView, ErrorView>(x);
        let q2 = if p == i {
            q + 1
        } else {
            q
        };
        assert(m.sources[p][q2] == Ok::<RecordView, ErrorView>(x));
    }
    assert forall|x: RecordView| #[trigger] has(m, x) implies has(a, x) || m.sources[i][0] == Ok::<
        RecordView,
        ErrorView,
    >(x) by {
        let (p, q) = choose|p: int, q: int|
            0 <= p < m.sources.len() && 0 <= q < m.sources[p].len() && #[trigger] m.sources[p][q]
                == Ok::<RecordView, ErrorView>(x);
        if p == i {
            if q > 0 {
                assert(a.sources[p][q - 1] == Ok::<RecordView, ErrorView>(x));
            }
        } else {
            assert(a.sources[p][q] == Ok::<RecordView, ErrorView>(x));
        }
    }
    if let Ok(r) = m.sources[i][0] {
        assert(m.sources[i][0] == Ok::<RecordView, ErrorView>(r));
    }
}

proof fn advanced_steady(m: MergeView, i: int)
    requires
        steady(m),
        0 <= i < m.sources.len(),
        m.sources[i].len() > 0,
    ensures
        steady(m.advanced(i)),
{
    let a = m.advanced(i);
    advanced_has(m, i);
    assert forall|p: int, q: int| 0 <= p < a.sources.len() && 0 <= q < a.sources[p].len() implies (
    #[trigger] a.sources[p][q]) is Ok by {
        let q2 = if p == i {
            q + 1
        } else {
            q
        };
        assert(a.sources[p][q] == m.sources[p][q2]);
    }
    assert forall|p: int, j: int, k: int|
        #![trigger a.sources[p][j], a.sources[p][k]]
        0 <= p < a.sources.len() && 0 <= j < k < a.sources[p].len() implies versions::precedes(
        a.sources[p][j]->Ok_0,
        a.sources[p][k]->Ok_0,
    ) by {
        let d: int = if p == i {
            1
        } else {
            0
        };
        assert(a.sources[p][j] == m.sources[p][j + d]);
        assert(a.sources[p][k] == m.sources[p][k + d]);
    }
}

/// What is left when a source that is past the range is dropped: everything in
/// the range.
proof fn dropped_has(m: MergeView, i: int)
    requires
        well_sourced(m),
        0 <= i < m.sources.len(),
        m.sources[i].len() > 0,
        m.past_end(m.sources[i][0]->Ok_0.key),
    ensures
        forall|x: RecordView| #[trigger] has(m.dropped(i), x) ==> has(m, x),
        forall|x: RecordView| #[trigger]
            has(m, x) && !m.past_end(x.key) ==> has(m.dropped(i), x),
{
    let a = m.dropped(i);
    assert forall|x: RecordView| #[trigger] has(a, x) implies has(m, x) by {
        let (p, q) = choose|p: int, q: int|
            0 <= p < a.sources.len() && 0 <= q < a.sources[p].len() && #[trigger] a.sources[p][q]
                == Ok::<RecordView, ErrorView>(x);
        assert(m.sources[p][q] == Ok::<RecordView, ErrorView>(x));
    }
    assert forall|x: RecordView| #[trigger] has(m, x) && !m.past_end(x.key) implies has(a, x) by {
        let (p, q) = choose|p: int, q: int|
            0 <= p < m.sources.len() && 0 <= q < m.sources[p].len() && #[trigger] m.sources[p][q]
                == Ok::<RecordView, ErrorView>(x);
        if p == i {
            let head = m.sources[i][0]->Ok_0;
            let end = m.end->0;
            if q > 0 {
                assert(versions::precedes(m.sources[i][0]->Ok_0, m.sources[i][q]->Ok_0));
                if bytes::lex_lt(head.key, x.key) {
                    bytes::lex_transitive(head.key, x.key, end);
                }
            }
        } else {
            assert(a.sources[p][q] == Ok::<RecordView, ErrorView>(x));
        }
    }
}

proof fn dropped_steady(m: MergeView, i: int)
    requires
        steady(m),
        0 <= i < m.sources.len(),
        m.sources[i].len() > 0,
        m.past_end(m.sources[i][0]->Ok_0.key),
    ensures
        steady(m.dropped(i)),
{
    let a = m.dropped(i);
    dropped_has(m, i);
    assert forall|p: int, q: int| 0 <= p < a.sources.len() && 0 <= q < a.sources[p].len() implies (
    #[trigger] a.sources[p][q]) is Ok by {
        assert(a.sources[p][q] == m.sources[p][q]);
    }
    assert forall|p: int, j: int, k: int|
        #![trigger a.sources[p][j], a.sources[p][k]]
        0 <= p < a.sources.len() && 0 <= j < k < a.sources[p].len() implies versions::precedes(
        a.sources[p][j]->Ok_0,
        a.sources[p][k]->Ok_0,
    ) by {
        assert(a.sources[p][j] == m.sources[p][j]);
        assert(a.sources[p][k] == m.sources[p][k]);
    }
}

/// If two merges have the same visible records of a key, the key has the same
/// newest record in both.
proof fn same_newest(m: MergeView, a: MergeView, key: Seq<u8>, r: RecordView)
    requires
        m.seq_bound == a.seq_bound,
        forall|x: RecordView|
            versions::visible(x, key, m.seq_bound) ==> #[trigger] has(m, x) == has(a, x),
    ensures
        newest(m, key, r) == newest(a, key, r),
{
    assert(versions::visible(r, key, m.seq_bound) ==> has(m, r) == has(a, r));
    if newest(m, key, r) {
        assert forall|x: RecordView| #[trigger]
            has(a, x) && versions::visible(x, key, m.seq_bound) implies x.seq <= r.seq by {
            assert(has(m, x));
        }
    }
    if newest(a, key, r) {
        assert forall|x: RecordView| #[trigger]
            has(m, x) && versions::visible(x, key, m.seq_bound) implies x.seq <= r.seq by {
            assert(has(a, x));
        }
    }
}

/// One result of a merge: the first live key with its value, and a merge in
/// which the other live keys are left.
proof fn next_result_law(m: MergeView)
    requires
        steady(m),
    ensures
        ({
            let (x, rest) = m.next_result();
            match x {
                None => forall|k: Seq<u8>, v: Seq<u8>| !#[trigger] live(m, k, v),
                Some(Err(e)) => false,
                Some(Ok((k0, v0))) => {
                    &&& steady(rest)
                    &&& rest.done == Some(k0)
                    &&& live(m, k0, v0)
                    &&& items_left(rest.sources) < items_left(m.sources)
                    &&& forall|k: Seq<u8>, v: Seq<u8>| #[trigger]
                        live(m, k, v) <==> (k == k0 && v == v0) || live(rest, k, v)
                },
            }
        }),
    decreases items_left(m.sources),
{
    merge_shrinks(m);
    match m.next_source() {
        None => {
            assert forall|k: Seq<u8>, v: Seq<u8>| !#[trigger] live(m, k, v) by {
                if live(m, k, v) {
                    let r = choose|r: RecordView| #[trigger]
                        newest(m, k, r) && r.value == Some(v);
                    next_is_first(m, r);
                }
            }
        },
        Some(i) => {
            assert(m.sources[i][0] is Ok);
            let r = m.sources[i][0]->Ok_0;
            let adv = m.advanced(i);
            advanced_has(m, i);
            if m.past_end(r.key) {
                let a = m.dropped(i);
                dropped_has(m, i);
                dropped_steady(m, i);
                next_result_law(a);
                assert forall|k: Seq<u8>, v: Seq<u8>| #[trigger] live(m, k, v) == live(a, k, v) by {
                    if !m.past_end(k) {
                        assert forall|x: RecordView|
                            versions::visible(x, k, m.seq_bound) implies #[trigger] has(m, x)
                            == has(a, x) by {}
                        same_newest_all(m, a, k);
                    }
                }
                assert(m.next_result() == a.next_result());
            } else if m.done == Some(r.key) || r.seq >= m.seq_bound {
                advanced_steady(m, i);
                next_result_law(adv);
                assert forall|k: Seq<u8>, v: Seq<u8>| #[trigger] live(m, k, v) == live(
                    adv,
                    k,
                    v,
                ) by {
                    if m.done == Some(k) {
                        bytes::lex_irreflexive(k);
                    } else {
                        assert forall|x: RecordView|
                            versions::visible(x, k, m.seq_bound) implies #[trigger] has(m, x)
                            == has(adv, x) by {}
                        same_newest_all(m, adv, k);
                    }
                }
                assert(m.next_result() == adv.next_result());
            } else {
                let rest = MergeView { done: Some(r.key), ..adv };
                advanced_steady(m, i);
                assert(forall|x: RecordView| #[trigger] has(rest, x) <==> has(adv, x)) by {
                    assert(rest.sources == adv.sources);
                    assert forall|x: RecordView| #[trigger] has(rest, x) <==> has(adv, x) by {
                        same_has(rest, adv, x);
                    }
                }
                assert(well_sourced(rest));
                assert forall|x: RecordView| #[trigger] has(rest, x) implies bytes::lex_le(
                    r.key,
                    x.key,
                ) by {
                    assert(has(adv, x));
                    next_is_first(m, x);
                }
                assert(newest(m, r.key, r)) by {
                    assert forall|x: RecordView| #[trigger]
                        has(m, x) && versions::visible(x, r.key, m.seq_bound) implies x.seq
                        <= r.seq by {
                        next_is_first(m, x);
                        bytes::lex_irreflexive(r.key);
                    }
                }
                if let Some(d) = m.done {
                    assert(has(m, r));
                    assert(bytes::lex_lt(d, r.key));
                }
                assert forall|k: Seq<u8>, v: Seq<u8>| #[trigger] live(m, k, v) <==> (k == r.key
                    && r.value == Some(v)) || live(rest, k, v) by {
                    bytes::lex_total(r.key, k);
                    if k == r.key {
                        if live(m, k, v) {
                            let y = choose|y: RecordView| #[trigger]
                                newest(m, k, y) && y.value == Some(v);
                            assert(y.seq == r.seq);
                            assert(y == r);
                        }
                    } else {
                        assert forall|x: RecordView|
                            versions::visible(x, k, m.seq_bound) implies #[trigger] has(m, x)
                            == has(rest, x) by {}
                        same_newest_all(m, rest, k);
                        if live(m, k, v) {
                            let y = choose|y: RecordView| #[trigger]
                                newest(m, k, y) && y.value == Some(v);
                            next_is_first(m, y);
                        }
                        if live(rest, k, v) {
                            if let Some(d) = m.done {
                                bytes::lex_transitive(d, r.key, k);
                            }
                        }
                    }
                }
                match r.value {
                    Some(v) => {},
                    None => {
                        next_result_law(rest);
                        assert(m.next_result() == rest.next_result());
                        assert forall|k: Seq<u8>, v: Seq<u8>| #[trigger] live(m, k, v) == live(
                            rest,
                            k,
                            v,
                        ) by {}
                    },
                }
            }
        },
    }
}

proof fn same_has(a: MergeView, b: MergeView, x: RecordView)
    requires
        a.sources == b.sources,
    ensures
        has(a, x) == has(b, x),
{
    if has(a, x) {
        let (p, q) = choose|p: int, q: int|
            0 <= p < a.sources.len() && 0 <= q < a.sources[p].len() && #[trigger] a.sources[p][q]
                == Ok::<RecordView, ErrorView>(x);
        assert(b.sources[p][q] == Ok::<RecordView, ErrorView>(x));
    }
    if has(b, x) {
        let (p, q) = choose|p: int, q: int|
            0 <= p < b.sources.len() && 0 <= q < b.sources[p].len() && #[trigger] b.sources[p][q]
                == Ok::<RecordView, ErrorView>(x);
        assert(a.sources[p][q] == Ok::<RecordView, ErrorView>(x));
    }
}

proof fn same_newest_all(m: MergeView, a: MergeView, key: Seq<u8>)
    requires
        m.seq_bound == a.seq_bound,
        forall|x: RecordView|
            versions::visible(x, key, m.seq_bound) ==> #[trigger] has(m, x) == has(a, x),
    ensures
        forall|r: RecordView| #[trigger] newest(m, key, r) == newest(a, key, r),
        forall|r: RecordView| #[trigger] newest(a, key, r) == newest(m, key, r),
{
    assert forall|r: RecordView| #[trigger] newest(m, key, r) == newest(a, key, r) by {
        same_newest(m, a, key, r);
    }
}

/// Each result takes items.
pub proof fn next_shrinks(m: MergeView)
    ensures
        m.next_result().0 is Some ==> items_left(m.next_result().1.sources) < items_left(
            m.sources,
        ),
    decreases items_left(m.sources),
{
    merge_shrinks(m);
    if let Some(i) = m.next_source() {
        if let Ok(r) = m.sources[i][0] {
            if m.past_end(r.key) {
                next_shrinks(m.dropped(i));
            } else if m.done == Some(r.key) || r.seq >= m.seq_bound {
                next_shrinks(m.advanced(i));
            } else if r.value is None {
                next_shrinks(MergeView { done: Some(r.key), ..m.advanced(i) });
            }
        }
    }
}

/// All results of a merge, in order.
pub open spec fn results(m: MergeView) -> Seq<LiveView>
    decreases items_left(m.sources),
{
    proof {
        next_shrinks(m);
    }
    match m.next_result() {
        (None, _) => Seq::empty(),
        (Some(x), rest) => seq![x] + results(rest),
    }
}

proof fn results_law(m: MergeView)
    requires
        steady(m),
    ensures
        forall|i: int| 0 <= i < results(m).len() ==> (#[trigger] results(m)[i]) is Ok,
        forall|i: int, j: int|
            0 <= i < j < results(m).len() ==> bytes::lex_lt(
                (#[trigger] results(m)[i])->Ok_0.0,
                (#[trigger] results(m)[j])->Ok_0.0,
            ),
        forall|i: int|
            0 <= i < results(m).len() ==> live(
                m,
                (#[trigger] results(m)[i])->Ok_0.0,
                results(m)[i]->Ok_0.1,
            ),
        forall|k: Seq<u8>, v: Seq<u8>| #[trigger]
            live(m, k, v) ==> results(m).contains(Ok::<(Seq<u8>, Seq<u8>), ErrorView>((k, v))),
    decreases items_left(m.sources),
{
    next_result_law(m);
    let all = results(m);
    let (x, rest) = m.next_result();
    if let Some(Ok((k0, v0))) = x {
        results_law(rest);
        let tail = results(rest);
        assert(all =~= seq![x->0] + tail);
        assert forall|i: int| 0 <= i < all.len() implies (#[trigger] all[i]) is Ok && live(
            m,
            all[i]->Ok_0.0,
            all[i]->Ok_0.1,
        ) by {
            if i > 0 {
                assert(all[i] == tail[i - 1]);
                assert(live(rest, tail[i - 1]->Ok_0.0, tail[i - 1]->Ok_0.1));
            }
        }
        assert forall|i: int, j: int| 0 <= i < j < all.len() implies bytes::lex_lt(
            (#[trigger] all[i])->Ok_0.0,
            (#[trigger] all[j])->Ok_0.0,
        ) by {
            assert(all[j] == tail[j - 1]);
            if i > 0 {
                assert(all[i] == tail[i - 1]);
            } else {
                assert(live(rest, tail[j - 1]->Ok_0.0, tail[j - 1]->Ok_0.1));
            }
        }
        assert forall|k: Seq<u8>, v: Seq<u8>| #[trigger] live(m, k, v) implies all.contains(
            Ok::<(Seq<u8>, Seq<u8>), ErrorView>((k, v)),
        ) by {
            if k == k0 && v == v0 {
                assert(all[0] == Ok::<(Seq<u8>, Seq<u8>), ErrorView>((k, v)));
            } else {
                assert(live(rest, k, v));
                let j = choose|j: int|
                    0 <= j < tail.len() && tail[j] == Ok::<(Seq<u8>, Seq<u8>), ErrorView>((k, v));
                assert(all[j + 1] == Ok::<(Seq<u8>, Seq<u8>), ErrorView>((k, v)));
            }
        }
    }
}

/// A scan gives every live key of the range once, in order, with its value, and
/// nothing else: a key is live if its newest record below the horizon, in
/// whatever source, is a put.
pub proof fn scan_law(m: MergeView)
    requires
        well_sourced(m),
        m.done is None,
    ensures
        forall|i: int| 0 <= i < results(m).len() ==> (#[trigger] results(m)[i]) is Ok,
        forall|i: int, j: int|
            0 <= i < j < results(m).len() ==> bytes::lex_lt(
                (#[trigger] results(m)[i])->Ok_0.0,
                (#[trigger] results(m)[j])->Ok_0.0,
            ),
        forall|k: Seq<u8>, v: Seq<u8>|
            results(m).contains(Ok::<(Seq<u8>, Seq<u8>), ErrorView>((k, v))) <==> #[trigger] live(
                m,
                k,
                v,
            ),
{
    results_law(m);
    let all = results(m);
    assert forall|k: Seq<u8>, v: Seq<u8>|
        all.contains(Ok::<(Seq<u8>, Seq<u8>), ErrorView>((k, v))) <==> #[trigger] live(m, k, v) by {
        if all.contains(Ok::<(Seq<u8>, Seq<u8>), ErrorView>((k, v))) {
            let j = choose|j: int|
                0 <= j < all.len() && all[j] == Ok::<(Seq<u8>, Seq<u8>), ErrorView>((k, v));
            assert(live(m, all[j]->Ok_0.0, all[j]->Ok_0.1));
        }
    }
}

/// The first `limit` results, unless there is a failure among them.
pub open spec fn taken(all: Seq<LiveView>, limit: nat) -> core::result::Result<
    Seq<(Seq<u8>, Seq<u8>)>,
    ErrorView,
>
    decreases all.len(),
{
    if limit == 0 || all.len() == 0 {
        Ok(Seq::empty())
    } else {
        match all[0] {
            Err(e) => Err(e),
            Ok(kv) => match taken(all.drop_first(), (limit - 1) as nat) {
                Err(e) => Err(e),
                Ok(rest) => Ok(seq![kv] + rest),
            },
        }
    }
}

/// Without failures, the first results are taken as they are.
pub proof fn taken_all(all: Seq<LiveView>, limit: nat)
    requires
        forall|i: int| 0 <= i < all.len() ==> (#[trigger] all[i]) is Ok,
    ensures
        taken(all, limit) matches Ok(v) && v.len() == (if limit < all.len() {
            limit
        } else {
            all.len()
        }) && forall|i: int| 0 <= i < v.len() ==> #[trigger] v[i] == all[i]->Ok_0,
    decreases all.len(),
{
    if limit > 0 && all.len() > 0 {
        let rest = all.drop_first();
        assert forall|i: int| 0 <= i < rest.len() implies (#[trigger] rest[i]) is Ok by {
            assert(rest[i] == all[i + 1]);
        }
        taken_all(rest, (limit - 1) as nat);
        let v = taken(rest, (limit - 1) as nat)->Ok_0;
        let all_v = taken(all, limit)->Ok_0;
        assert(all[0] is Ok);
        assert forall|i: int| 0 <= i < all_v.len() implies #[trigger] all_v[i]
            == all[i]->Ok_0 by {
            if i > 0 {
                assert(all_v[i] == v[i - 1]);
                assert(v[i - 1] == rest[i - 1]->Ok_0);
            }
        }
    }
}

/// What a step does to the results that are left.
pub proof fn results_step(m: MergeView)
    ensures
        match m.stepped() {
            (StepView::Done, _) => results(m).len() == 0,
            (StepView::Passed, n) => results(m) == results(n) && items_left(n.sources)
                < items_left(m.sources),
            (StepView::Found(x), n) => results(m) == seq![x] + results(n) && items_left(n.sources)
                < items_left(m.sources),
        },
{
    merge_shrinks(m);
    next_shrinks(m);
}

/// Sources with more behind each.
pub open spec fn extended(
    sources: Seq<Seq<ItemView>>,
    rest: Seq<Seq<ItemView>>,
) -> Seq<Seq<ItemView>> {
    Seq::new(sources.len(), |i: int| sources[i] + rest[i])
}

proof fn heads_decide(a: Seq<Seq<ItemView>>, b: Seq<Seq<ItemView>>, n: int)
    requires
        a.len() == b.len(),
        0 <= n <= a.len(),
        forall|i: int|
            0 <= i < a.len() ==> (#[trigger] a[i]).len() == 0 && b[i].len() == 0 || a[i].len() > 0
                && b[i].len() > 0 && a[i][0] == b[i][0],
    ensures
        next_of(a, n) == next_of(b, n),
        next_of(a, n) matches Some(i) ==> 0 <= i < n,
    decreases n,
{
    if n > 0 {
        heads_decide(a, b, n - 1);
        next_of_facts(a, n - 1);
        assert(a[n - 1].len() == 0 && b[n - 1].len() == 0 || a[n - 1].len() > 0 && b[n - 1].len()
            > 0 && a[n - 1][0] == b[n - 1][0]);
        if let Some(i) = next_of(a, n - 1) {
            assert(a[i].len() == 0 && b[i].len() == 0 || a[i].len() > 0 && b[i].len() > 0
                && a[i][0] == b[i][0]);
        }
    }
}

/// A step sees only the heads of the sources: as long as no source is dry that
/// has more to come, what comes later makes no difference to it.
pub proof fn step_sees_heads(m: MergeView, rest: Seq<Seq<ItemView>>)
    requires
        m.end is None,
        rest.len() == m.sources.len(),
        forall|i: int|
            0 <= i < rest.len() && (#[trigger] rest[i]).len() > 0 ==> m.sources[i].len() > 0,
    ensures
        ({
            let full = MergeView { sources: extended(m.sources, rest), ..m };
            &&& full.stepped().0 == m.stepped().0
            &&& full.stepped().1 == (MergeView {
                sources: extended(m.stepped().1.sources, rest),
                ..m.stepped().1
            })
            &&& m.stepped().1.sources.len() == m.sources.len()
            &&& m.stepped().1.end is None
        }),
{
    let full = MergeView { sources: extended(m.sources, rest), ..m };
    let a = m.sources;
    let b = full.sources;
    assert forall|i: int| 0 <= i < a.len() implies (#[trigger] a[i]).len() == 0 && b[i].len() == 0
        || a[i].len() > 0 && b[i].len() > 0 && a[i][0] == b[i][0] by {
        assert(b[i] == a[i] + rest[i]);
        assert(rest[i].len() > 0 ==> a[i].len() > 0);
    }
    heads_decide(a, b, a.len() as int);
    merge_shrinks(m);
    if let Some(i) = m.next_source() {
        assert(a[i].len() > 0);
        assert((a[i] + rest[i]).drop_first() =~= a[i].drop_first() + rest[i]);
        assert(full.advanced(i).sources =~= extended(m.advanced(i).sources, rest));
    }
}

/// Whether no source has a failure in it.
pub open spec fn all_ok(sources: Seq<Seq<ItemView>>) -> bool {
    forall|i: int, j: int|
        0 <= i < sources.len() && 0 <= j < sources[i].len() ==> (#[trigger] sources[i][j]) is Ok
}

/// Where no source has a failure in it, a step finds none and adds none.
pub proof fn step_keeps_ok(m: MergeView)
    requires
        all_ok(m.sources),
    ensures
        m.stepped().0 matches StepView::Found(x) ==> x is Ok,
        all_ok(m.stepped().1.sources),
{
    let after = m.stepped().1.sources;
    merge_shrinks(m);
    assert forall|i: int, j: int| 0 <= i < after.len() && 0 <= j < after[i].len() implies (
    #[trigger] after[i][j]) is Ok by {
        if let Some(k) = m.next_source() {
            if i == k {
                if after[i].len() == m.sources[i].len() - 1 {
                    assert(after[i][j] == m.sources[i][j + 1]);
                }
            } else {
                assert(after[i] == m.sources[i]);
                assert(m.sources[i][j] is Ok);
            }
        } else {
            assert(m.sources[i][j] is Ok);
        }
    }
}

/// A failure at the head of a source, with none at the heads before it, is what
/// comes next.
pub proof fn failure_is_next(m: MergeView, k: int)
    requires
        0 <= k < m.sources.len(),
        m.sources[k].len() > 0,
        m.sources[k][0] is Err,
        forall|i: int|
            0 <= i < k && (#[trigger] m.sources[i]).len() > 0 ==> m.sources[i][0] is Ok,
    ensures
        m.stepped().0 == StepView::Found(Err::<(Seq<u8>, Seq<u8>), ErrorView>(
            m.sources[k][0]->Err_0,
        )),
{
    failure_of(m.sources, k, m.sources.len() as int);
}

proof fn failure_of(sources: Seq<Seq<ItemView>>, k: int, n: int)
    requires
        0 <= k < n <= sources.len(),
        sources[k].len() > 0,
        sources[k][0] is Err,
        forall|i: int| 0 <= i < k && (#[trigger] sources[i]).len() > 0 ==> sources[i][0] is Ok,
    ensures
        next_of(sources, n) == Some(k),
    decreases n,
{
    if n == k + 1 {
        next_of_facts(sources, k);
        if let Some(i) = next_of(sources, k) {
            assert(sources[i][0] is Ok);
        }
    } else {
        failure_of(sources, k, n - 1);
    }
}

} // verus!
