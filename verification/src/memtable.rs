//! In-memory write buffer. Mutations land here behind the log and are kept in
//! order, so that a flush can write them straight into a table.
//!
//! Every version is kept and not just the newest, because a snapshot that was
//! taken between two writes of one key sees the older one. Versions are bounded
//! by the same threshold as everything else here: a thousand writes of one key
//! fill the table as a thousand keys would.

use vstd::prelude::*;

use crate::bytes;
use crate::record;
use crate::record::{Record, RecordView};
use crate::versions;

verus! {

/// The usual flush threshold: 4 MiB of data.
pub const DEFAULT_THRESHOLD: usize = 4_194_304;

/// How many bytes records take.
pub open spec fn total_size(s: Seq<RecordView>) -> nat
    decreases s.len(),
{
    if s.len() == 0 {
        0
    } else {
        total_size(s.drop_last()) + s.last().size()
    }
}

/// The records with `r` in its place: behind those that precede it, and instead
/// of the same version of the same key if that is there.
pub open spec fn inserted(s: Seq<RecordView>, r: RecordView) -> Seq<RecordView>
    decreases s.len(),
{
    if s.len() == 0 {
        seq![r]
    } else if versions::precedes(s[0], r) {
        seq![s[0]] + inserted(s.drop_first(), r)
    } else if s[0].key == r.key && s[0].seq == r.seq {
        seq![r] + s.drop_first()
    } else {
        seq![r] + s
    }
}

/// The records of a key range, start included and end excluded.
pub open spec fn in_range(r: RecordView, start: Option<Seq<u8>>, end: Option<Seq<u8>>) -> bool {
    &&& start matches Some(k) ==> !bytes::lex_lt(r.key, k)
    &&& end matches Some(k) ==> bytes::lex_lt(r.key, k)
}

/// The bytes of an optional key.
pub open spec fn key_view(key: Option<&[u8]>) -> Option<Seq<u8>> {
    match key {
        Some(k) => Some(k@),
        None => None,
    }
}

// -------------------------------------------------------------------- laws
/// The size of two runs is the sum of their sizes.
pub proof fn total_size_concat(a: Seq<RecordView>, b: Seq<RecordView>)
    ensures
        total_size(a + b) == total_size(a) + total_size(b),
    decreases b.len(),
{
    if b.len() == 0 {
        assert(a + b =~= a);
    } else {
        total_size_concat(a, b.drop_last());
        assert((a + b).drop_last() =~= a + b.drop_last());
    }
}

/// The size of one record.
pub proof fn total_size_single(r: RecordView)
    ensures
        total_size(seq![r]) == r.size(),
{
    reveal_with_fuel(total_size, 2);
    assert(seq![r].drop_last() =~= Seq::<RecordView>::empty());
}

/// Where a record goes, in records of which those before `at` precede it and
/// those from `at` on do not.
proof fn inserted_at(s: Seq<RecordView>, r: RecordView, at: int)
    requires
        0 <= at <= s.len(),
        forall|i: int| 0 <= i < at ==> versions::precedes(#[trigger] s[i], r),
        at < s.len() ==> !versions::precedes(s[at], r),
    ensures
        inserted(s, r) == if at < s.len() && s[at].key == r.key && s[at].seq == r.seq {
            s.update(at, r)
        } else {
            s.insert(at, r)
        },
    decreases s.len(),
{
    if at == 0 {
        if s.len() == 0 {
            assert(inserted(s, r) =~= s.insert(0, r));
        } else if s[0].key == r.key && s[0].seq == r.seq {
            assert(inserted(s, r) =~= s.update(0, r));
        } else {
            assert(inserted(s, r) =~= s.insert(0, r));
        }
    } else {
        assert(versions::precedes(s[0], r));
        let t = s.drop_first();
        assert forall|i: int| 0 <= i < at - 1 implies versions::precedes(#[trigger] t[i], r) by {
            assert(t[i] == s[i + 1]);
        }
        inserted_at(t, r, at - 1);
        if at < s.len() && s[at].key == r.key && s[at].seq == r.seq {
            assert(seq![s[0]] + t.update(at - 1, r) =~= s.update(at, r));
        } else {
            assert(seq![s[0]] + t.insert(at - 1, r) =~= s.insert(at, r));
        }
    }
}

/// Sorted records stay sorted.
pub proof fn inserted_sorted(s: Seq<RecordView>, r: RecordView)
    requires
        versions::sorted(s),
    ensures
        versions::sorted(inserted(s, r)),
    decreases s.len(),
{
    let t = inserted(s, r);
    if s.len() == 0 {
    } else if versions::precedes(s[0], r) {
        let rest = s.drop_first();
        assert forall|i: int, j: int| 0 <= i < j < rest.len() implies versions::precedes(
            #[trigger] rest[i],
            #[trigger] rest[j],
        ) by {
            assert(rest[i] == s[i + 1] && rest[j] == s[j + 1]);
        }
        inserted_sorted(rest, r);
        inserted_has(rest, r);
        let u = inserted(rest, r);
        assert forall|i: int, j: int| 0 <= i < j < t.len() implies versions::precedes(
            #[trigger] t[i],
            #[trigger] t[j],
        ) by {
            assert(t[j] == u[j - 1]);
            if i == 0 {
                assert(u.contains(u[j - 1]));
                if u[j - 1] != r {
                    assert(rest.contains(u[j - 1]));
                    let k = choose|k: int| 0 <= k < rest.len() && rest[k] == u[j - 1];
                    assert(s[k + 1] == t[j]);
                }
            } else {
                assert(t[i] == u[i - 1]);
            }
        }
    } else {
        versions::precedes_total(s[0], r);
        assert forall|i: int, j: int| 0 <= i < j < t.len() implies versions::precedes(
            #[trigger] t[i],
            #[trigger] t[j],
        ) by {
            if s[0].key == r.key && s[0].seq == r.seq {
                assert(t[j] == s[j]);
                if i == 0 {
                    assert(versions::precedes(s[0], s[j]));
                } else {
                    assert(t[i] == s[i]);
                }
            } else {
                assert(t[j] == s[j - 1]);
                if i == 0 {
                    if j > 1 {
                        assert(versions::precedes(s[0], s[j - 1]));
                        versions::precedes_transitive(r, s[0], s[j - 1]);
                    }
                } else {
                    assert(t[i] == s[i - 1]);
                }
            }
        }
    }
}

/// What an insert leaves: the new record, and the old ones but for the same
/// version of the same key.
pub proof fn inserted_has(s: Seq<RecordView>, r: RecordView)
    ensures
        inserted(s, r).contains(r),
        forall|x: RecordView| #[trigger]
            inserted(s, r).contains(x) && x != r ==> s.contains(x),
        versions::sorted(s) ==> forall|x: RecordView|
            #![trigger s.contains(x)]
            s.contains(x) && !(x.key == r.key && x.seq == r.seq) ==> inserted(s, r).contains(x),
    decreases s.len(),
{
    let t = inserted(s, r);
    if s.len() == 0 {
        assert(t[0] == r);
    } else {
        let rest = s.drop_first();
        assert(s =~= seq![s[0]] + rest);
        if versions::precedes(s[0], r) {
            inserted_has(rest, r);
            let u = inserted(rest, r);
            assert(t =~= seq![s[0]] + u);
            assert(u.contains(r));
            let k = choose|k: int| 0 <= k < u.len() && u[k] == r;
            assert(t[k + 1] == r);
            assert forall|x: RecordView| #[trigger] t.contains(x) && x != r implies s.contains(
                x,
            ) by {
                let i = choose|i: int| 0 <= i < t.len() && t[i] == x;
                if i == 0 {
                    assert(s[0] == x);
                } else {
                    assert(u[i - 1] == x);
                    assert(u.contains(x));
                    let j = choose|j: int| 0 <= j < rest.len() && rest[j] == x;
                    assert(s[j + 1] == x);
                }
            }
            if versions::sorted(s) {
                assert forall|i: int, j: int| 0 <= i < j < rest.len() implies versions::precedes(
                    #[trigger] rest[i],
                    #[trigger] rest[j],
                ) by {
                    assert(rest[i] == s[i + 1] && rest[j] == s[j + 1]);
                }
                assert forall|x: RecordView|
                    #![trigger s.contains(x)]
                    s.contains(x) && !(x.key == r.key && x.seq == r.seq) implies t.contains(x) by {
                    let i = choose|i: int| 0 <= i < s.len() && s[i] == x;
                    if i == 0 {
                        assert(t[0] == x);
                    } else {
                        assert(rest[i - 1] == x);
                        assert(rest.contains(x));
                        assert(u.contains(x));
                        let j = choose|j: int| 0 <= j < u.len() && u[j] == x;
                        assert(t[j + 1] == x);
                    }
                }
            }
        } else {
            assert(t[0] == r);
            let same = s[0].key == r.key && s[0].seq == r.seq;
            assert forall|x: RecordView| #[trigger] t.contains(x) && x != r implies s.contains(
                x,
            ) by {
                let i = choose|i: int| 0 <= i < t.len() && t[i] == x;
                assert(s[if same {
                    i
                } else {
                    i - 1
                }] == x);
            }
            assert forall|x: RecordView|
                #![trigger s.contains(x)]
                s.contains(x) && !(x.key == r.key && x.seq == r.seq) implies t.contains(x) by {
                let i = choose|i: int| 0 <= i < s.len() && s[i] == x;
                assert(t[if same {
                    i
                } else {
                    i + 1
                }] == x);
            }
        }
    }
}

// --------------------------------------------------------------- the table
/// A sorted buffer of every version of every key, bounded in size.
pub struct MemTable {
    records: Vec<Record>,
    size: usize,
    threshold: usize,
}

/// What a lookup found, by its content.
pub open spec fn found(r: Option<&Record>) -> Option<RecordView> {
    match r {
        Some(r) => Some(r@),
        None => None,
    }
}

impl View for MemTable {
    type V = Seq<RecordView>;

    closed spec fn view(&self) -> Seq<RecordView> {
        record::views(self.records@)
    }
}

impl MemTable {
    /// The records are in order, and the size is theirs.
    pub closed spec fn wf(&self) -> bool {
        &&& versions::sorted(self@)
        &&& self.size == total_size(self@)
    }

    /// The size from which on the table is full.
    pub closed spec fn flush_threshold(&self) -> nat {
        self.threshold as nat
    }

    /// What well-formedness says.
    pub proof fn wf_facts(&self)
        requires
            self.wf(),
        ensures
            versions::sorted(self@),
            total_size(self@) <= usize::MAX,
    {
    }

    /// An empty table.
    pub fn new(threshold: usize) -> (r: MemTable)
        ensures
            r.wf(),
            r@ == Seq::<RecordView>::empty(),
            r.flush_threshold() == threshold,
    {
        let t = MemTable { records: Vec::new(), size: 0, threshold };
        assert(t@ =~= Seq::<RecordView>::empty());
        t
    }

    /// Buffer a record. A write at a new sequence number is a new version; one
    /// at the same sequence number takes the place of the old.
    pub fn insert(&mut self, record: Record)
        requires
            old(self).wf(),
            total_size(old(self)@) + record@.size() <= usize::MAX,
        ensures
            final(self).wf(),
            final(self)@ == inserted(old(self)@, record@),
            final(self).flush_threshold() == old(self).flush_threshold(),
    {
        let ghost s = self@;
        let ghost r = record@;
        let new_len: usize = record.encoded_len();
        let at: usize = versions::seek(
            self.records.as_slice(),
            record.key.as_slice(),
            record.seq as u128 + 1,
        );
        proof {
            assert forall|i: int| 0 <= i < at implies versions::precedes(#[trigger] s[i], r) by {
                assert(versions::passed(s[i], r.key, (r.seq + 1) as nat));
            }
            if at < s.len() {
                assert(!versions::passed(s[at as int], r.key, (r.seq + 1) as nat));
            }
            inserted_at(s, r, at as int);
            inserted_sorted(s, r);
            assert(s =~= s.take(at as int) + s.skip(at as int));
            total_size_concat(s.take(at as int), s.skip(at as int));
        }
        if at < self.records.len() && self.records[at].seq == record.seq && bytes::same(
            self.records[at].key.as_slice(),
            record.key.as_slice(),
        ) {
            proof {
                let head = s.take(at as int);
                let old_r = s[at as int];
                let tail = s.skip(at + 1);
                assert(s =~= head + seq![old_r] + tail);
                total_size_concat(head + seq![old_r], tail);
                total_size_concat(head, seq![old_r]);
                total_size_single(old_r);
                assert(s.update(at as int, r) =~= head + seq![r] + tail);
                total_size_concat(head + seq![r], tail);
                total_size_concat(head, seq![r]);
                total_size_single(r);
            }
            let old_len: usize = self.records[at].encoded_len();
            self.size = self.size - old_len + new_len;
            self.records[at] = record;
            assert(self@ =~= s.update(at as int, r));
        } else {
            proof {
                let head = s.take(at as int);
                let tail = s.skip(at as int);
                assert(s.insert(at as int, r) =~= head + seq![r] + tail);
                total_size_concat(head + seq![r], tail);
                total_size_concat(head, seq![r]);
                total_size_single(r);
            }
            self.size = self.size + new_len;
            self.records.insert(at, record);
            assert(self@ =~= s.insert(at as int, r));
        }
    }

    /// The newest record for `key`, if there is one. It may be a tombstone.
    pub fn get(&self, key: &[u8]) -> (r: Option<&Record>)
        requires
            self.wf(),
        ensures
            found(r) == versions::newest(self@, key@),
    {
        // No sequence number is that high: the versions start with the newest.
        let at: usize = self.seek(key, 0x1_0000_0000_0000_0000);
        let ghost s = self@;
        let ghost top = 0x1_0000_0000_0000_0000nat;
        proof {
            bytes::lex_irreflexive(key@);
            assert forall|i: int| 0 <= i < at implies (#[trigger] s[i]).key != key@ by {
                assert(versions::passed(s[i], key@, top));
            }
        }
        if at < self.records.len() && bytes::same(self.records[at].key.as_slice(), key) {
            let r = &self.records[at];
            proof {
                assert(s[at as int] == r@);
                versions::newest_at(s, key@, at as int);
            }
            Some(r)
        } else {
            proof {
                assert forall|i: int| 0 <= i < s.len() implies (#[trigger] s[i]).key != key@ by {
                    if i >= at {
                        assert(!versions::passed(s[at as int], key@, top));
                        bytes::lex_total(s[at as int].key, key@);
                        if i > at {
                            assert(versions::precedes(s[at as int], s[i]));
                            if s[i].key == key@ {
                                assert(bytes::lex_lt(key@, s[at as int].key));
                                bytes::lex_total(s[at as int].key, s[i].key);
                            }
                        }
                    }
                }
                versions::newest_none(s, key@);
            }
            None
        }
    }

    /// The newest record for `key` below `seq_bound`.
    pub fn get_at(&self, key: &[u8], seq_bound: u64) -> (r: Option<&Record>)
        requires
            self.wf(),
        ensures
            found(r) == versions::first_visible(self@, key@, seq_bound),
    {
        let at: usize = self.seek(key, seq_bound as u128);
        let ghost s = self@;
        proof {
            bytes::lex_irreflexive(key@);
            assert forall|i: int| 0 <= i < at implies !versions::visible(
                #[trigger] s[i],
                key@,
                seq_bound,
            ) by {
                assert(versions::passed(s[i], key@, seq_bound as nat));
            }
        }
        if at < self.records.len() && bytes::same(self.records[at].key.as_slice(), key) {
            let r = &self.records[at];
            proof {
                assert(s[at as int] == r@);
                assert(!versions::passed(s[at as int], key@, seq_bound as nat));
                versions::first_visible_at(s, key@, seq_bound, at as int);
            }
            Some(r)
        } else {
            proof {
                assert forall|i: int| 0 <= i < s.len() implies !versions::visible(
                    #[trigger] s[i],
                    key@,
                    seq_bound,
                ) by {
                    if i >= at {
                        assert(!versions::passed(s[at as int], key@, seq_bound as nat));
                        assert(!versions::passed(s[i], key@, seq_bound as nat));
                        bytes::lex_total(s[at as int].key, key@);
                        if i > at {
                            assert(versions::precedes(s[at as int], s[i]));
                            if s[i].key == key@ {
                                assert(bytes::lex_lt(key@, s[at as int].key));
                                bytes::lex_total(s[at as int].key, s[i].key);
                            }
                        }
                    }
                }
                versions::first_visible_none(s, key@, seq_bound);
            }
            None
        }
    }

    /// Where the versions of `key` below `floor` start, or would.
    fn seek(&self, key: &[u8], floor: u128) -> (r: usize)
        requires
            self.wf(),
        ensures
            r <= self@.len(),
            forall|i: int| 0 <= i < r ==> versions::passed(#[trigger] self@[i], key@, floor as nat),
            forall|i: int|
                r <= i < self@.len() ==> !versions::passed(#[trigger] self@[i], key@, floor as nat),
    {
        versions::seek(self.records.as_slice(), key, floor)
    }

    /// All records, in order.
    pub fn as_slice(&self) -> (r: &[Record])
        ensures
            record::views(r@) == self@,
    {
        self.records.as_slice()
    }

    /// All records, in order: the order in which a flush writes them.
    pub fn iter(&self) -> (r: core::slice::Iter<'_, Record>)
        ensures
            record::views(vstd::std_specs::iter::IteratorSpec::remaining(&r).unref()) == self@,
    {
        let r = self.records.as_slice().iter();
        assert(record::views(vstd::std_specs::iter::IteratorSpec::remaining(&r).unref()) =~= self@);
        r
    }

    /// The records of a key range, in order.
    pub fn range_slice(&self, start: Option<&[u8]>, end: Option<&[u8]>) -> (r: &[Record])
        requires
            self.wf(),
        ensures
            record::views(r@) == self@.filter(
                |x: RecordView| in_range(x, key_view(start), key_view(end)),
            ),
    {
        let n: usize = self.records.len();
        let from: usize = match start {
            Some(k) => self.seek(k, 0x1_0000_0000_0000_0000),
            None => 0,
        };
        let mut to: usize = match end {
            Some(k) => self.seek(k, 0x1_0000_0000_0000_0000),
            None => n,
        };
        if to < from {
            to = from;
        }
        let r = vstd::slice::slice_subrange(self.records.as_slice(), from, to);
        proof {
            let s = self@;
            let p = |x: RecordView| in_range(x, key_view(start), key_view(end));
            assert(record::views(r@) =~= s.subrange(from as int, to as int));
            assert forall|i: int| 0 <= i < s.len() implies p(#[trigger] s[i]) == (from <= i
                < to) by {
                let x = s[i];
                if let Some(k) = start {
                    assert(versions::passed(x, k@, 0x1_0000_0000_0000_0000) == bytes::lex_lt(
                        x.key,
                        k@,
                    ));
                }
                if let Some(k) = end {
                    assert(versions::passed(x, k@, 0x1_0000_0000_0000_0000) == bytes::lex_lt(
                        x.key,
                        k@,
                    ));
                }
            }
            filter_subrange(s, p, from as int, to as int);
        }
        r
    }

    /// The records of a key range, in order: the start is included, the end is
    /// not.
    pub fn range(&self, start: Option<&[u8]>, end: Option<&[u8]>) -> (r: core::slice::Iter<
        '_,
        Record,
    >)
        requires
            self.wf(),
        ensures
            record::views(vstd::std_specs::iter::IteratorSpec::remaining(&r).unref())
                == self@.filter(|x: RecordView| in_range(x, key_view(start), key_view(end))),
    {
        let part = self.range_slice(start, end);
        let r = part.iter();
        assert(vstd::std_specs::iter::IteratorSpec::remaining(&r).unref() =~= part@);
        r
    }

    /// How many bytes the records take.
    pub fn size(&self) -> (r: usize)
        requires
            self.wf(),
        ensures
            r == total_size(self@),
    {
        self.size
    }

    /// How many records there are, every version counted.
    pub fn len(&self) -> (r: usize)
        ensures
            r == self@.len(),
    {
        self.records.len()
    }

    /// Whether there is no record.
    pub fn is_empty(&self) -> (r: bool)
        ensures
            r == (self@.len() == 0),
    {
        self.records.len() == 0
    }

    /// Whether the records take as many bytes as the threshold says.
    pub fn is_full(&self) -> (r: bool)
        requires
            self.wf(),
        ensures
            r == (total_size(self@) >= self.flush_threshold()),
    {
        self.size >= self.threshold
    }
}

/// Where exactly the records of a subrange have a property, they are the
/// records with it.
proof fn filter_subrange(
    s: Seq<RecordView>,
    p: spec_fn(RecordView) -> bool,
    from: int,
    to: int,
)
    requires
        0 <= from <= to <= s.len(),
        forall|i: int| 0 <= i < s.len() ==> p(#[trigger] s[i]) == (from <= i < to),
    ensures
        s.filter(p) == s.subrange(from, to),
    decreases s.len(),
{
    reveal(Seq::filter);
    if s.len() > 0 {
        let t = s.drop_last();
        let n = s.len() as int;
        assert(p(s[n - 1]) == (from <= n - 1 < to));
        if to == n && from < n {
            assert forall|i: int| 0 <= i < t.len() implies p(#[trigger] t[i]) == (from <= i < to
                - 1) by {
                assert(t[i] == s[i]);
            }
            filter_subrange(t, p, from, to - 1);
            assert(t.subrange(from, to - 1).push(s[n - 1]) =~= s.subrange(from, to));
        } else if to < n {
            assert forall|i: int| 0 <= i < t.len() implies p(#[trigger] t[i]) == (from <= i
                < to) by {
                assert(t[i] == s[i]);
            }
            filter_subrange(t, p, from, to);
            assert(t.subrange(from, to) =~= s.subrange(from, to));
        } else {
            assert forall|i: int| 0 <= i < t.len() implies p(#[trigger] t[i]) == (0 <= i < 0) by {
                assert(t[i] == s[i]);
            }
            filter_subrange(t, p, 0, 0);
            assert(s.subrange(from, to) =~= t.subrange(0, 0));
        }
    } else {
        assert(s.filter(p) =~= s.subrange(from, to));
    }
}

/// A range holds the keys from its start on, the start among them, that come before its
/// end. Without a start it holds them from the first on, and without an end to the last.
pub proof fn range_is_by_key_order(r: RecordView, start: Seq<u8>, end: Seq<u8>)
    ensures
        in_range(r, Some(start), Some(end)) <==> (r.key == start || bytes::lex_lt(start, r.key))
            && bytes::lex_lt(r.key, end),
        in_range(r, Some(start), None) <==> (r.key == start || bytes::lex_lt(start, r.key)),
        in_range(r, None, Some(end)) <==> bytes::lex_lt(r.key, end),
        in_range(r, None, None),
{
    bytes::lex_total(r.key, start);
}

} // verus!
