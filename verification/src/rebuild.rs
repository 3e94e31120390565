//! What a MemTable holds after a series of writes, and what reads of it see.

use vstd::prelude::*;

use crate::memtable;
use crate::memtable::MemTable;
use crate::record;
use crate::record::{Record, RecordView};
use crate::versions;

verus! {

/// A table's records after more were put in, one after the other.
pub open spec fn inserted_all(s: Seq<RecordView>, more: Seq<RecordView>) -> Seq<RecordView>
    decreases more.len(),
{
    if more.len() == 0 {
        s
    } else {
        memtable::inserted(inserted_all(s, more.drop_last()), more.last())
    }
}

/// The records of an empty table after these were put in.
pub open spec fn rebuilt(records: Seq<RecordView>) -> Seq<RecordView> {
    inserted_all(Seq::empty(), records)
}

/// Whether every sequence number is below a bound.
pub open spec fn seqs_below(s: Seq<RecordView>, bound: u64) -> bool {
    forall|i: int| 0 <= i < s.len() ==> (#[trigger] s[i]).seq < bound
}

/// Whether every record of `a` is newer than every record of `b`.
pub open spec fn newer(a: Seq<RecordView>, b: Seq<RecordView>) -> bool {
    forall|i: int, j: int|
        0 <= i < a.len() && 0 <= j < b.len() ==> (#[trigger] a[i]).seq > (#[trigger] b[j]).seq
}

/// The record that a read sees is the newest of those it may see.
pub proof fn newest_is_first(s: Seq<RecordView>, key: Seq<u8>, bound: u64, x: RecordView)
    requires
        versions::sorted(s),
        s.contains(x),
        versions::visible(x, key, bound),
        forall|y: RecordView| #[trigger]
            s.contains(y) && versions::visible(y, key, bound) ==> y.seq <= x.seq,
    ensures
        versions::first_visible(s, key, bound) == Some(x),
{
    versions::newest_is_seen(s, key, bound);
    let i = choose|i: int| 0 <= i < s.len() && s[i] == x;
    assert(versions::visible(s[i], key, bound));
    let y = versions::first_visible(s, key, bound)->0;
    assert(s.contains(y));
    let j = choose|j: int| 0 <= j < s.len() && s[j] == y;
    assert(s[i].seq <= y.seq);
    assert(y.seq == x.seq);
    if i < j {
        versions::precedes_total(s[i], s[j]);
    } else if j < i {
        versions::precedes_total(s[j], s[i]);
    }
}

proof fn none_is_seen(s: Seq<RecordView>, key: Seq<u8>, bound: u64)
    requires
        forall|y: RecordView| #[trigger] s.contains(y) ==> !versions::visible(y, key, bound),
    ensures
        versions::first_visible(s, key, bound) is None,
{
    assert forall|j: int| 0 <= j < s.len() implies !versions::visible(
        #[trigger] s[j],
        key,
        bound,
    ) by {
        assert(s.contains(s[j]));
    }
    versions::first_visible_none(s, key, bound);
}

/// What a read sees is the newest of what it may see.
pub proof fn seen_facts(s: Seq<RecordView>, key: Seq<u8>, bound: u64)
    requires
        versions::sorted(s),
    ensures
        match versions::first_visible(s, key, bound) {
            Some(x) => s.contains(x) && versions::visible(x, key, bound) && forall|y: RecordView|
                #[trigger] s.contains(y) && versions::visible(y, key, bound) ==> y.seq <= x.seq,
            None => forall|y: RecordView| #[trigger]
                s.contains(y) ==> !versions::visible(y, key, bound),
        },
{
    versions::newest_is_seen(s, key, bound);
    assert forall|y: RecordView| #[trigger] s.contains(y) implies exists|i: int|
        0 <= i < s.len() && #[trigger] s[i] == y by {}
}

/// The record that was put in is the only one of its version.
proof fn inserted_is_single(s: Seq<RecordView>, r: RecordView, x: RecordView)
    requires
        versions::sorted(s),
        memtable::inserted(s, r).contains(x),
        x.key == r.key,
        x.seq == r.seq,
    ensures
        x == r,
{
    let t = memtable::inserted(s, r);
    memtable::inserted_sorted(s, r);
    memtable::inserted_has(s, r);
    let i = choose|i: int| 0 <= i < t.len() && t[i] == x;
    let j = choose|j: int| 0 <= j < t.len() && t[j] == r;
    if i < j {
        versions::precedes_total(t[i], t[j]);
    } else if j < i {
        versions::precedes_total(t[j], t[i]);
    }
}

/// A write is seen by every read that may see it, and changes nothing else: a
/// read of another key, or one from before the write, sees what it saw.
pub proof fn write_is_seen(s: Seq<RecordView>, r: RecordView, key: Seq<u8>, bound: u64)
    requires
        versions::sorted(s),
        forall|i: int| 0 <= i < s.len() && (#[trigger] s[i]).key == r.key ==> s[i].seq < r.seq,
    ensures
        versions::first_visible(memtable::inserted(s, r), key, bound) == if versions::visible(
            r,
            key,
            bound,
        ) {
            Some(r)
        } else {
            versions::first_visible(s, key, bound)
        },
{
    let t = memtable::inserted(s, r);
    memtable::inserted_sorted(s, r);
    memtable::inserted_has(s, r);
    if versions::visible(r, key, bound) {
        assert forall|y: RecordView| #[trigger]
            t.contains(y) && versions::visible(y, key, bound) implies y.seq <= r.seq by {
            if y != r {
                assert(s.contains(y));
                let i = choose|i: int| 0 <= i < s.len() && s[i] == y;
                assert(s[i].key == r.key);
            }
        }
        newest_is_first(t, key, bound, r);
    } else {
        seen_facts(s, key, bound);
        match versions::first_visible(s, key, bound) {
            Some(x) => {
                let i = choose|i: int| 0 <= i < s.len() && s[i] == x;
                assert(s[i] == x);
                assert(t.contains(x));
                newest_is_first(t, key, bound, x);
            },
            None => {
                none_is_seen(t, key, bound);
            },
        }
    }
}

/// Records that are put in one after the other stay in order.
pub proof fn inserted_all_sorted(s: Seq<RecordView>, more: Seq<RecordView>)
    requires
        versions::sorted(s),
    ensures
        versions::sorted(inserted_all(s, more)),
    decreases more.len(),
{
    if more.len() > 0 {
        inserted_all_sorted(s, more.drop_last());
        memtable::inserted_sorted(inserted_all(s, more.drop_last()), more.last());
    }
}

/// Putting in two series is putting in the one, and then the other.
pub proof fn inserted_all_concat(s: Seq<RecordView>, a: Seq<RecordView>, b: Seq<RecordView>)
    ensures
        inserted_all(s, a + b) == inserted_all(inserted_all(s, a), b),
    decreases b.len(),
{
    if b.len() == 0 {
        assert(a + b =~= a);
    } else {
        assert((a + b).drop_last() =~= a + b.drop_last());
        inserted_all_concat(s, a, b.drop_last());
    }
}

proof fn inserted_last(s: Seq<RecordView>, r: RecordView)
    requires
        forall|i: int| 0 <= i < s.len() ==> versions::precedes(#[trigger] s[i], r),
    ensures
        memtable::inserted(s, r) == s.push(r),
    decreases s.len(),
{
    if s.len() > 0 {
        let rest = s.drop_first();
        assert forall|i: int| 0 <= i < rest.len() implies versions::precedes(
            #[trigger] rest[i],
            r,
        ) by {
            assert(rest[i] == s[i + 1]);
        }
        assert(versions::precedes(s[0], r));
        inserted_last(rest, r);
        assert(seq![s[0]] + rest.push(r) =~= s.push(r));
    } else {
        assert(seq![r] =~= s.push(r));
    }
}

/// Records that are in order already are put back as they are.
pub proof fn rebuilt_in_order(s: Seq<RecordView>)
    requires
        versions::sorted(s),
    ensures
        rebuilt(s) == s,
    decreases s.len(),
{
    if s.len() == 0 {
        assert(s =~= Seq::empty());
    } else {
        let front = s.drop_last();
        assert forall|i: int, j: int| 0 <= i < j < front.len() implies versions::precedes(
            #[trigger] front[i],
            #[trigger] front[j],
        ) by {
            assert(front[i] == s[i] && front[j] == s[j]);
        }
        rebuilt_in_order(front);
        assert forall|i: int| 0 <= i < front.len() implies versions::precedes(
            #[trigger] front[i],
            s.last(),
        ) by {
            assert(front[i] == s[i]);
        }
        inserted_last(front, s.last());
        assert(front.push(s.last()) =~= s);
    }
}

/// Nothing is put together from records only where there are none.
pub proof fn rebuilt_empty(s: Seq<RecordView>)
    ensures
        rebuilt(s).len() == 0 <==> s.len() == 0,
{
    if s.len() > 0 {
        memtable::inserted_has(inserted_all(Seq::empty(), s.drop_last()), s.last());
        assert(rebuilt(s).contains(s.last()));
    }
}

/// What a table holds was put in.
pub proof fn inserted_all_has(s: Seq<RecordView>, more: Seq<RecordView>, x: RecordView)
    requires
        inserted_all(s, more).contains(x),
    ensures
        s.contains(x) || more.contains(x),
    decreases more.len(),
{
    if more.len() > 0 {
        let front = more.drop_last();
        memtable::inserted_has(inserted_all(s, front), more.last());
        if x == more.last() {
            assert(more[more.len() - 1] == x);
        } else {
            inserted_all_has(s, front, x);
            if front.contains(x) {
                let i = choose|i: int| 0 <= i < front.len() && front[i] == x;
                assert(more[i] == x);
            }
        }
    }
}

/// Putting in records that are newer than all that is there keeps all that is
/// there, beside what putting them into an empty table gives.
pub proof fn inserted_all_adds(s: Seq<RecordView>, more: Seq<RecordView>, x: RecordView)
    requires
        versions::sorted(s),
        newer(more, s),
    ensures
        inserted_all(s, more).contains(x) <==> s.contains(x) || rebuilt(more).contains(x),
    decreases more.len(),
{
    let none = Seq::<RecordView>::empty();
    if more.len() == 0 {
        assert(!none.contains(x));
    } else {
        let front = more.drop_last();
        let r = more.last();
        assert(newer(front, s)) by {
            assert forall|i: int, j: int| 0 <= i < front.len() && 0 <= j < s.len() implies (
            #[trigger] front[i]).seq > (#[trigger] s[j]).seq by {
                assert(front[i] == more[i]);
            }
        }
        inserted_all_adds(s, front, x);
        inserted_all_sorted(s, front);
        inserted_all_sorted(none, front);
        let all = inserted_all(s, front);
        let new = inserted_all(none, front);
        memtable::inserted_has(all, r);
        memtable::inserted_has(new, r);
        if s.contains(x) {
            let j = choose|j: int| 0 <= j < s.len() && s[j] == x;
            assert(more[more.len() - 1].seq > s[j].seq);
            assert(all.contains(x));
        }
        if x != r && x.key == r.key && x.seq == r.seq {
            if memtable::inserted(all, r).contains(x) {
                inserted_is_single(all, r, x);
            }
            if memtable::inserted(new, r).contains(x) {
                inserted_is_single(new, r, x);
            }
        } else if x != r {
            assert(all.contains(x) <==> s.contains(x) || new.contains(x));
        }
    }
}

/// A table that is put together from two series, the second newer than the
/// first, reads like the table of the second in front of the table of the first.
pub proof fn rebuilt_reads(
    a: Seq<RecordView>,
    b: Seq<RecordView>,
    key: Seq<u8>,
    bound: u64,
)
    requires
        newer(b, rebuilt(a)),
    ensures
        versions::first_visible(rebuilt(a + b), key, bound) == versions::first_visible(
            rebuilt(b) + rebuilt(a),
            key,
            bound,
        ),
{
    let none = Seq::<RecordView>::empty();
    let past = rebuilt(a);
    let fresh = rebuilt(b);
    let all = rebuilt(a + b);
    inserted_all_concat(none, a, b);
    inserted_all_sorted(none, a);
    inserted_all_sorted(none, b);
    inserted_all_sorted(past, b);
    assert forall|x: RecordView| #[trigger] all.contains(x) <==> past.contains(x) || fresh.contains(
        x,
    ) by {
        inserted_all_adds(past, b, x);
    }
    versions::first_visible_concat(fresh, past, key, bound);
    seen_facts(fresh, key, bound);
    seen_facts(past, key, bound);
    match versions::first_visible(fresh, key, bound) {
        Some(x) => {
            assert forall|y: RecordView| #[trigger]
                all.contains(y) && versions::visible(y, key, bound) implies y.seq <= x.seq by {
                if !fresh.contains(y) {
                    assert(past.contains(y));
                    inserted_all_has(none, b, x);
                    let i = choose|i: int| 0 <= i < b.len() && b[i] == x;
                    let j = choose|j: int| 0 <= j < past.len() && past[j] == y;
                    assert(b[i].seq > past[j].seq);
                }
            }
            newest_is_first(all, key, bound, x);
        },
        None => {
            match versions::first_visible(past, key, bound) {
                Some(x) => {
                    newest_is_first(all, key, bound, x);
                },
                None => {
                    none_is_seen(all, key, bound);
                },
            }
        },
    }
}

proof fn inserted_size(s: Seq<RecordView>, r: RecordView)
    ensures
        memtable::total_size(memtable::inserted(s, r)) <= memtable::total_size(s) + r.size(),
    decreases s.len(),
{
    memtable::total_size_single(r);
    if s.len() > 0 {
        let rest = s.drop_first();
        assert(s =~= seq![s[0]] + rest);
        memtable::total_size_concat(seq![s[0]], rest);
        memtable::total_size_single(s[0]);
        if versions::precedes(s[0], r) {
            inserted_size(rest, r);
            memtable::total_size_concat(seq![s[0]], memtable::inserted(rest, r));
        } else if s[0].key == r.key && s[0].seq == r.seq {
            memtable::total_size_concat(seq![r], rest);
        } else {
            memtable::total_size_concat(seq![r], s);
        }
    }
}

/// A table grows by no more than what is put in.
pub proof fn inserted_all_size(s: Seq<RecordView>, more: Seq<RecordView>)
    ensures
        memtable::total_size(inserted_all(s, more)) <= memtable::total_size(s)
            + memtable::total_size(more),
    decreases more.len(),
{
    if more.len() > 0 {
        inserted_all_size(s, more.drop_last());
        inserted_size(inserted_all(s, more.drop_last()), more.last());
    }
}

/// The sizes of records add up to the bytes that they take.
pub proof fn total_is_encoded(s: Seq<RecordView>)
    ensures
        memtable::total_size(s) == record::encoded_all(s).len(),
    decreases s.len(),
{
    if s.len() > 0 {
        total_is_encoded(s.drop_last());
        record::encoded_size(s.last());
    }
}

/// Whether a table has room for records: the size of a table is counted in a
/// `usize`.
pub open spec fn has_room(s: Seq<RecordView>, more: Seq<RecordView>) -> bool {
    memtable::total_size(s) + memtable::total_size(more) <= usize::MAX
}

/// Whether a table has room for records.
pub fn room_for(table: &MemTable, records: &[Record]) -> (r: bool)
    requires
        table.wf(),
    ensures
        r == has_room(table@, record::views(records@)),
{
    proof {
        total_is_encoded(record::views(records@));
    }
    match record::encoded_total(records, usize::MAX as u128) {
        Some(n) => table.size() as u128 + n <= usize::MAX as u128,
        None => false,
    }
}

/// Put records in, one after the other.
pub fn insert_all(table: &mut MemTable, mut records: Vec<Record>)
    requires
        old(table).wf(),
        has_room(old(table)@, record::views(records@)),
    ensures
        final(table).wf(),
        final(table)@ == inserted_all(old(table)@, record::views(records@)),
        final(table).flush_threshold() == old(table).flush_threshold(),
{
    let ghost all = record::views(records@);
    let ghost input = records@;
    let mut back: Vec<Record> = Vec::new();
    while records.len() > 0
        invariant
            records@.len() + back@.len() == input.len(),
            records@ == input.take(records@.len() as int),
            forall|i: int|
                0 <= i < back@.len() ==> #[trigger] back@[i] == input[input.len() - 1 - i],
        decreases records@.len(),
    {
        let ghost was = records@;
        if let Some(r) = records.pop() {
            back.push(r);
            assert(records@ =~= input.take(records@.len() as int));
        }
    }
    let ghost mut done: int = 0;
    assert(all.take(0) =~= Seq::empty());
    while back.len() > 0
        invariant
            all == record::views(input),
            0 <= done <= input.len(),
            done + back@.len() == input.len(),
            forall|i: int|
                0 <= i < back@.len() ==> #[trigger] back@[i] == input[input.len() - 1 - i],
            has_room(old(table)@, all),
            table.wf(),
            table@ == inserted_all(old(table)@, all.take(done)),
            table.flush_threshold() == old(table).flush_threshold(),
        decreases back@.len(),
    {
        let ghost was = back@;
        if let Some(r) = back.pop() {
            proof {
                assert(r == was[was.len() - 1]);
                assert(r == input[done]);
                assert(all.take(done + 1).drop_last() =~= all.take(done));
                assert(all.take(done + 1).last() == r@);
                inserted_all_size(old(table)@, all.take(done));
                memtable::total_size_concat(all.take(done + 1), all.skip(done + 1));
                assert(all.take(done + 1) + all.skip(done + 1) =~= all);
            }
            table.insert(r);
            proof {
                done = done + 1;
                assert forall|i: int| 0 <= i < back@.len() implies #[trigger] back@[i]
                    == input[input.len() - 1 - i] by {
                    assert(back@[i] == was[i]);
                }
            }
        }
    }
    assert(all.take(done) =~= all);
}

} // verus!
