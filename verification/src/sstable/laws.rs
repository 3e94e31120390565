//! What is written to a table is read back from it.

use vstd::prelude::*;

use super::{BLOOM_HASHES, EntryView, FOOTER_LEN, FORMAT_VERSION, MAGIC, TableView};
use crate::bloom::BloomView;
use crate::bytes;
use crate::error::ErrorView;
use crate::lz4;
use crate::memtable;
use crate::record;
use crate::record::RecordView;
use crate::versions;

verus! {

/// A block holds at least one record and does not reach past the last.
pub proof fn block_end_bounds(records: Seq<RecordView>, start: int, e: int)
    requires
        0 <= start < e <= records.len(),
    ensures
        e <= super::block_end(records, start, e) <= records.len(),
    decreases records.len() - e,
{
    if e < records.len() && !super::closes(records, start, e) {
        block_end_bounds(records, start, e + 1);
    }
}

/// No block is empty, and together they are the records.
pub proof fn blocks_partition(records: Seq<RecordView>, start: int)
    requires
        0 <= start <= records.len(),
    ensures
        super::flat(super::blocks_from(records, start)) == records.skip(start),
        forall|i: int|
            0 <= i < super::blocks_from(records, start).len() ==> (#[trigger] super::blocks_from(
                records,
                start,
            )[i]).len() > 0,
    decreases records.len() - start,
{
    if start < records.len() {
        block_end_bounds(records, start, start + 1);
        let e = super::block_end(records, start, start + 1);
        blocks_partition(records, e);
        let all = super::blocks_from(records, start);
        let rest = super::blocks_from(records, e);
        assert(all.drop_first() =~= rest);
        assert(records.subrange(start, e) + records.skip(e) =~= records.skip(start));
        assert forall|i: int| 0 <= i < all.len() implies (#[trigger] all[i]).len() > 0 by {
            if i > 0 {
                assert(all[i] == rest[i - 1]);
            }
        }
    } else {
        assert(records.skip(start) =~= Seq::empty());
    }
}

pub(crate) proof fn entry_len(e: EntryView)
    ensures
        e.encoded().len() == 16 + e.key.len(),
{
    bytes::le_len(e.key.len() % 0x1_0000_0000, 4);
    bytes::le_len(e.offset as nat, 8);
    bytes::le_len(e.len as nat, 4);
}

proof fn entry_round_trip(before: Seq<u8>, e: EntryView, after: Seq<u8>)
    requires
        e.key.len() < 0x1_0000_0000,
    ensures
        super::entry_at(before + e.encoded() + after, before.len() as int) == Ok::<
            (EntryView, int),
            ErrorView,
        >((e, (before.len() + e.encoded().len()) as int)),
{
    let buf = before + e.encoded() + after;
    let pos = before.len() as int;
    let klen = e.key.len();
    entry_len(e);
    bytes::spans();
    bytes::le_round_trip(klen, 4);
    bytes::le_round_trip(e.offset as nat, 8);
    bytes::le_round_trip(e.len as nat, 4);
    let key_end = pos + 4 + klen;
    assert(buf.subrange(pos, pos + 4) =~= bytes::le(klen, 4));
    assert(buf.subrange(pos + 4, key_end) =~= e.key);
    assert(buf.subrange(key_end, key_end + 8) =~= bytes::le(e.offset as nat, 8));
    assert(buf.subrange(key_end + 8, key_end + 12) =~= bytes::le(e.len as nat, 4));
}

proof fn index_bytes_concat(a: Seq<EntryView>, b: Seq<EntryView>)
    ensures
        super::index_bytes(a + b) == super::index_bytes(a) + super::index_bytes(b),
    decreases b.len(),
{
    if b.len() == 0 {
        assert(a + b =~= a);
        assert(super::index_bytes(a + b) =~= super::index_bytes(a) + super::index_bytes(b));
    } else {
        index_bytes_concat(a, b.drop_last());
        assert((a + b).drop_last() =~= a + b.drop_last());
        assert(super::index_bytes(a + b) =~= super::index_bytes(a) + super::index_bytes(b));
    }
}

proof fn index_starts_with(e: EntryView, rest: Seq<EntryView>)
    ensures
        super::index_bytes(seq![e] + rest) == e.encoded() + super::index_bytes(rest),
{
    index_bytes_concat(seq![e], rest);
    reveal_with_fuel(super::index_bytes, 2);
    assert(seq![e].drop_last() =~= Seq::<EntryView>::empty());
    assert(super::index_bytes(seq![e]) =~= e.encoded());
}

proof fn regrouped(a: Seq<u8>, b: Seq<u8>, c: Seq<u8>, d: Seq<u8>)
    ensures
        a + (b + c) + d == a + b + (c + d),
        a + (b + c) + d == (a + b) + c + d,
{
    assert(a + (b + c) + d =~= a + b + (c + d));
    assert(a + (b + c) + d =~= (a + b) + c + d);
}

/// An entry and the entries behind it.
proof fn entries_start(
    buf: Seq<u8>,
    pos: int,
    n: nat,
    e: EntryView,
    end: int,
    rest: Seq<EntryView>,
)
    requires
        n > 0,
        super::entry_at(buf, pos) == Ok::<(EntryView, int), ErrorView>((e, end)),
        super::entries_at(buf, end, (n - 1) as nat) == Ok::<Seq<EntryView>, ErrorView>(rest),
    ensures
        super::entries_at(buf, pos, n) == Ok::<Seq<EntryView>, ErrorView>(seq![e] + rest),
{
}

/// An index is read back from its bytes.
#[verifier::spinoff_prover]
#[verifier::rlimit(30)]
pub proof fn index_round_trip(before: Seq<u8>, index: Seq<EntryView>, after: Seq<u8>)
    requires
        forall|i: int| 0 <= i < index.len() ==> (#[trigger] index[i]).key.len() < 0x1_0000_0000,
    ensures
        super::entries_at(before + super::index_bytes(index) + after, before.len() as int, index.len()) == Ok::<
            Seq<EntryView>,
            ErrorView,
        >(index),
    decreases index.len(),
{
    let buf = before + super::index_bytes(index) + after;
    if index.len() == 0 {
        assert(index =~= Seq::empty());
    } else {
        let e = index[0];
        let rest = index.drop_first();
        let head = e.encoded();
        let tail = super::index_bytes(rest);
        index_starts_with(e, rest);
        assert(seq![e] + rest =~= index);
        entry_round_trip(before, e, tail + after);
        index_round_trip(before + head, rest, after);
        regrouped(before, head, tail, after);
        entries_start(
            buf,
            before.len() as int,
            index.len(),
            e,
            (before.len() + head.len()) as int,
            rest,
        );
    }
}

/// What is in a block stands in the records.
proof fn block_elements(records: Seq<RecordView>, start: int, j: int, q: int) -> (p: int)
    requires
        0 <= start <= records.len(),
        0 <= j < super::blocks_from(records, start).len(),
        0 <= q < super::blocks_from(records, start)[j].len(),
    ensures
        start <= p < records.len(),
        super::blocks_from(records, start)[j][q] == records[p],
    decreases records.len() - start,
{
    block_end_bounds(records, start, start + 1);
    let e = super::block_end(records, start, start + 1);
    if j == 0 {
        assert(super::blocks_from(records, start)[0] == records.subrange(start, e));
        start + q
    } else {
        assert(super::blocks_from(records, start)[j] == super::blocks_from(records, e)[j - 1]);
        block_elements(records, e, j - 1, q)
    }
}

proof fn block_end_closes(records: Seq<RecordView>, start: int, e: int)
    requires
        0 <= start < e <= records.len(),
    ensures
        super::block_end(records, start, e) < records.len() ==> super::closes(
            records,
            start,
            super::block_end(records, start, e),
        ),
    decreases records.len() - e,
{
    if e < records.len() && !super::closes(records, start, e) {
        block_end_closes(records, start, e + 1);
    }
}

/// The keys of a block come before the keys of the blocks behind it: the
/// versions of one key are all in one block.
pub proof fn blocks_ascend(
    records: Seq<RecordView>,
    start: int,
    i: int,
    p: int,
    j: int,
    q: int,
)
    requires
        versions::key_sorted(records),
        0 <= start <= records.len(),
        0 <= i < j < super::blocks_from(records, start).len(),
        0 <= p < super::blocks_from(records, start)[i].len(),
        0 <= q < super::blocks_from(records, start)[j].len(),
    ensures
        bytes::lex_lt(
            super::blocks_from(records, start)[i][p].key,
            super::blocks_from(records, start)[j][q].key,
        ),
    decreases records.len() - start,
{
    let all = super::blocks_from(records, start);
    block_end_bounds(records, start, start + 1);
    block_end_closes(records, start, start + 1);
    let e = super::block_end(records, start, start + 1);
    let rest = super::blocks_from(records, e);
    assert(all =~= seq![records.subrange(start, e)] + rest);
    if i > 0 {
        blocks_ascend(records, e, i - 1, p, j - 1, q);
    } else {
        let y = block_elements(records, e, j - 1, q);
        let a = records[start + p].key;
        let last = records[e - 1].key;
        let next = records[e].key;
        let b = records[y].key;
        assert(all[0][p] == records[start + p]);
        assert(super::closes(records, start, e));
        assert(bytes::lex_le(last, next));
        if start + p < e - 1 {
            assert(bytes::lex_le(records[start + p].key, records[e - 1].key));
        }
        if y > e {
            assert(bytes::lex_le(records[e].key, records[y].key));
        }
        if a != last {
            bytes::lex_transitive(a, last, next);
        }
        if next != b {
            bytes::lex_transitive(a, next, b);
        }
    }
}

proof fn flat_concat(a: Seq<Seq<RecordView>>, b: Seq<Seq<RecordView>>)
    ensures
        super::flat(a + b) == super::flat(a) + super::flat(b),
    decreases a.len(),
{
    if a.len() == 0 {
        assert(a + b =~= b);
        assert(super::flat(a) + super::flat(b) =~= super::flat(b));
    } else {
        assert((a + b).drop_first() =~= a.drop_first() + b);
        flat_concat(a.drop_first(), b);
        assert(super::flat(a + b) =~= super::flat(a) + super::flat(b));
    }
}

proof fn flat_elements(bs: Seq<Seq<RecordView>>, p: int) -> (jq: (int, int))
    requires
        0 <= p < super::flat(bs).len(),
    ensures
        0 <= jq.0 < bs.len(),
        0 <= jq.1 < bs[jq.0].len(),
        bs[jq.0][jq.1] == super::flat(bs)[p],
    decreases bs.len(),
{
    if p < bs[0].len() {
        (0, p)
    } else {
        let (j, q) = flat_elements(bs.drop_first(), p - bs[0].len());
        (j + 1, q)
    }
}

/// In a block in order of its keys, looking up to the first greater key finds
/// what looking through all of it would.
proof fn block_search(block: Seq<RecordView>, key: Seq<u8>, bound: u64)
    requires
        versions::key_sorted(block),
    ensures
        super::found_in(block, key, bound) == versions::first_visible(block, key, bound),
    decreases block.len(),
{
    if block.len() > 0 && !versions::visible(block[0], key, bound) {
        let rest = block.drop_first();
        if bytes::lex_lt(key, block[0].key) {
            assert forall|j: int| 0 <= j < block.len() implies !versions::visible(
                #[trigger] block[j],
                key,
                bound,
            ) by {
                bytes::lex_total(key, block[0].key);
                if j > 0 {
                    assert(bytes::lex_le(block[0].key, block[j].key));
                    if block[j].key == key {
                        bytes::lex_total(block[0].key, block[j].key);
                    }
                }
            }
            versions::first_visible_none(block, key, bound);
        } else {
            assert forall|i: int, j: int| 0 <= i < j < rest.len() implies bytes::lex_le(
                (#[trigger] rest[i]).key,
                (#[trigger] rest[j]).key,
            ) by {
                assert(rest[i] == block[i + 1] && rest[j] == block[j + 1]);
            }
            block_search(rest, key, bound);
        }
    }
}

/// The one block that can hold a key holds what the table holds of it.
proof fn one_block_decides(
    records: Seq<RecordView>,
    index: Seq<EntryView>,
    key: Seq<u8>,
    bound: u64,
)
    requires
        versions::key_sorted(records),
        index.len() == super::blocks(records).len(),
        forall|i: int|
            0 <= i < index.len() ==> (#[trigger] index[i]).key == super::blocks(records)[i][0].key,
    ensures
        super::index_ascends(index),
        versions::first_visible(records, key, bound) == match super::block_for(index, key) {
            None => None,
            Some(i) => super::found_in(super::blocks(records)[i], key, bound),
        },
{
    let bs = super::blocks(records);
    blocks_partition(records, 0);
    assert(records.skip(0) =~= records);
    assert forall|i: int, j: int| 0 <= i < j < index.len() implies bytes::lex_lt(
        (#[trigger] index[i]).key,
        (#[trigger] index[j]).key,
    ) by {
        assert(bs[i].len() > 0 && bs[j].len() > 0);
        blocks_ascend(records, 0, i, 0, j, 0);
    }
    block_for_facts(index, key);
    match super::block_for(index, key) {
        None => {
            assert forall|p: int| 0 <= p < records.len() implies !versions::visible(
                #[trigger] records[p],
                key,
                bound,
            ) by {
                let (j, q) = flat_elements(bs, p);
                key_not_before_block(records, j, q);
                assert(index[j].key == bs[j][0].key);
                bytes::lex_total(key, index[j].key);
                if records[p].key == key {
                    bytes::lex_total(bs[j][0].key, key);
                }
            }
            versions::first_visible_none(records, key, bound);
        },
        Some(i) => {
            let before = super::flat(bs.take(i));
            let after = super::flat(bs.skip(i + 1));
            assert(bs =~= bs.take(i) + (seq![bs[i]] + bs.skip(i + 1)));
            flat_concat(bs.take(i), seq![bs[i]] + bs.skip(i + 1));
            assert((seq![bs[i]] + bs.skip(i + 1)).drop_first() =~= bs.skip(i + 1));
            assert(super::flat(seq![bs[i]] + bs.skip(i + 1)) =~= bs[i] + after);
            assert(records == before + (bs[i] + after));
            assert(bs[i].len() > 0);
            assert(index[i].key == bs[i][0].key);
            assert forall|p: int| 0 <= p < before.len() implies !versions::visible(
                #[trigger] before[p],
                key,
                bound,
            ) by {
                let (j, q) = flat_elements(bs.take(i), p);
                assert(bs.take(i)[j] == bs[j]);
                blocks_ascend(records, 0, j, q, i, 0);
                bytes::lex_total(before[p].key, key);
                if before[p].key == key {
                    assert(bytes::lex_lt(key, index[i].key));
                }
            }
            versions::first_visible_none(before, key, bound);
            assert forall|p: int| 0 <= p < after.len() implies !versions::visible(
                #[trigger] after[p],
                key,
                bound,
            ) by {
                let (j, q) = flat_elements(bs.skip(i + 1), p);
                let k = j + i + 1;
                assert(bs.skip(i + 1)[j] == bs[k]);
                key_not_before_block(records, k, q);
                assert(index[k].key == bs[k][0].key);
                assert(bytes::lex_lt(key, index[k].key));
                bytes::lex_total(key, index[k].key);
                if after[p].key == key {
                    bytes::lex_total(bs[k][0].key, key);
                }
            }
            versions::first_visible_none(after, key, bound);
            versions::first_visible_concat(before, bs[i] + after, key, bound);
            versions::first_visible_concat(bs[i], after, key, bound);
            block_is_sorted(records, i);
            block_search(bs[i], key, bound);
        },
    }
}

/// In a block in order of its keys, looking up to the first greater key finds the
/// first record of a key.
proof fn block_search_newest(block: Seq<RecordView>, key: Seq<u8>)
    requires
        versions::key_sorted(block),
    ensures
        super::first_in(block, key) == versions::newest(block, key),
    decreases block.len(),
{
    if block.len() > 0 && block[0].key != key {
        let rest = block.drop_first();
        if bytes::lex_lt(key, block[0].key) {
            assert forall|j: int| 0 <= j < block.len() implies (#[trigger] block[j]).key != key by {
                bytes::lex_total(key, block[0].key);
                if j > 0 {
                    assert(bytes::lex_le(block[0].key, block[j].key));
                    if block[j].key == key {
                        bytes::lex_total(block[0].key, block[j].key);
                    }
                }
            }
            versions::newest_none(block, key);
        } else {
            assert forall|i: int, j: int| 0 <= i < j < rest.len() implies bytes::lex_le(
                (#[trigger] rest[i]).key,
                (#[trigger] rest[j]).key,
            ) by {
                assert(rest[i] == block[i + 1] && rest[j] == block[j + 1]);
            }
            block_search_newest(rest, key);
        }
    }
}

/// The one block that can hold a key holds its first record in the table.
proof fn one_block_has_newest(
    records: Seq<RecordView>,
    index: Seq<EntryView>,
    key: Seq<u8>,
)
    requires
        versions::key_sorted(records),
        index.len() == super::blocks(records).len(),
        forall|i: int|
            0 <= i < index.len() ==> (#[trigger] index[i]).key == super::blocks(records)[i][0].key,
    ensures
        super::index_ascends(index),
        versions::newest(records, key) == match super::block_for(index, key) {
            None => None,
            Some(i) => super::first_in(super::blocks(records)[i], key),
        },
{
    let bs = super::blocks(records);
    blocks_partition(records, 0);
    assert(records.skip(0) =~= records);
    assert forall|i: int, j: int| 0 <= i < j < index.len() implies bytes::lex_lt(
        (#[trigger] index[i]).key,
        (#[trigger] index[j]).key,
    ) by {
        assert(bs[i].len() > 0 && bs[j].len() > 0);
        blocks_ascend(records, 0, i, 0, j, 0);
    }
    block_for_facts(index, key);
    match super::block_for(index, key) {
        None => {
            assert forall|p: int| 0 <= p < records.len() implies (#[trigger] records[p]).key != key by {
                let (j, q) = flat_elements(bs, p);
                key_not_before_block(records, j, q);
                assert(index[j].key == bs[j][0].key);
                bytes::lex_total(key, index[j].key);
                if records[p].key == key {
                    bytes::lex_total(bs[j][0].key, key);
                }
            }
            versions::newest_none(records, key);
        },
        Some(i) => {
            let before = super::flat(bs.take(i));
            let after = super::flat(bs.skip(i + 1));
            assert(bs =~= bs.take(i) + (seq![bs[i]] + bs.skip(i + 1)));
            flat_concat(bs.take(i), seq![bs[i]] + bs.skip(i + 1));
            assert((seq![bs[i]] + bs.skip(i + 1)).drop_first() =~= bs.skip(i + 1));
            assert(super::flat(seq![bs[i]] + bs.skip(i + 1)) =~= bs[i] + after);
            assert(records == before + (bs[i] + after));
            assert(bs[i].len() > 0);
            assert(index[i].key == bs[i][0].key);
            assert forall|p: int| 0 <= p < before.len() implies (#[trigger] before[p]).key != key by {
                let (j, q) = flat_elements(bs.take(i), p);
                assert(bs.take(i)[j] == bs[j]);
                blocks_ascend(records, 0, j, q, i, 0);
                bytes::lex_total(before[p].key, key);
                if before[p].key == key {
                    assert(bytes::lex_lt(key, index[i].key));
                }
            }
            versions::newest_none(before, key);
            assert forall|p: int| 0 <= p < after.len() implies (#[trigger] after[p]).key != key by {
                let (j, q) = flat_elements(bs.skip(i + 1), p);
                let k = j + i + 1;
                assert(bs.skip(i + 1)[j] == bs[k]);
                key_not_before_block(records, k, q);
                assert(index[k].key == bs[k][0].key);
                assert(bytes::lex_lt(key, index[k].key));
                bytes::lex_total(key, index[k].key);
                if after[p].key == key {
                    bytes::lex_total(bs[k][0].key, key);
                }
            }
            versions::newest_none(after, key);
            versions::newest_concat(before, bs[i] + after, key);
            versions::newest_concat(bs[i], after, key);
            block_is_sorted(records, i);
            block_search_newest(bs[i], key);
        },
    }
}

proof fn block_for_facts(index: Seq<EntryView>, key: Seq<u8>)
    ensures
        match super::block_for(index, key) {
            None => forall|i: int|
                0 <= i < index.len() ==> bytes::lex_lt(key, (#[trigger] index[i]).key),
            Some(n) => {
                &&& 0 <= n < index.len()
                &&& !bytes::lex_lt(key, index[n].key)
                &&& forall|i: int|
                    n < i < index.len() ==> bytes::lex_lt(key, (#[trigger] index[i]).key)
            },
        },
    decreases index.len(),
{
    if index.len() > 0 && bytes::lex_lt(key, index.last().key) {
        let fewer = index.drop_last();
        block_for_facts(fewer, key);
        assert forall|i: int| 0 <= i < fewer.len() implies fewer[i] == index[i] by {}
    }
}

/// No key in a block comes before its first.
proof fn key_not_before_block(records: Seq<RecordView>, j: int, q: int)
    requires
        versions::key_sorted(records),
        0 <= j < super::blocks(records).len(),
        0 <= q < super::blocks(records)[j].len(),
    ensures
        bytes::lex_le(super::blocks(records)[j][0].key, super::blocks(records)[j][q].key),
{
    block_is_sorted(records, j);
    let b = super::blocks(records)[j];
    if q > 0 {
        assert(bytes::lex_le(b[0].key, b[q].key));
    }
}

/// A block is a run of the records, and in order as they are.
proof fn block_is_run(records: Seq<RecordView>, start: int, j: int) -> (r: (int, int))
    requires
        0 <= start <= records.len(),
        0 <= j < super::blocks_from(records, start).len(),
    ensures
        start <= r.0 < r.1 <= records.len(),
        super::blocks_from(records, start)[j] == records.subrange(r.0, r.1),
    decreases records.len() - start,
{
    block_end_bounds(records, start, start + 1);
    let e = super::block_end(records, start, start + 1);
    if j == 0 {
        (start, e)
    } else {
        assert(super::blocks_from(records, start)[j] == super::blocks_from(records, e)[j - 1]);
        block_is_run(records, e, j - 1)
    }
}

proof fn block_is_sorted(records: Seq<RecordView>, j: int)
    requires
        versions::key_sorted(records),
        0 <= j < super::blocks(records).len(),
    ensures
        versions::key_sorted(super::blocks(records)[j]),
{
    let (a, b) = block_is_run(records, 0, j);
    let block = super::blocks(records)[j];
    assert forall|x: int, y: int| 0 <= x < y < block.len() implies bytes::lex_le(
        (#[trigger] block[x]).key,
        (#[trigger] block[y]).key,
    ) by {
        assert(block[x] == records[a + x] && block[y] == records[a + y]);
    }
}

/// The filter of a table is one, and every key of the table may be there.
proof fn filter_has_keys(v: BloomView, records: Seq<RecordView>)
    requires
        v.wf(),
    ensures
        super::filter_with(v, records).wf(),
        forall|i: int|
            0 <= i < records.len() ==> super::filter_with(v, records).may_have(
                (#[trigger] records[i]).key,
            ),
    decreases records.len(),
{
    if records.len() > 0 {
        let fewer = records.drop_last();
        filter_has_keys(v, fewer);
        let u = super::filter_with(v, fewer);
        crate::bloom::no_false_negatives(u, records.last().key, records.last().key);
        assert forall|i: int| 0 <= i < records.len() implies super::filter_with(v, records).may_have(
            (#[trigger] records[i]).key,
        ) by {
            if i < fewer.len() {
                assert(fewer[i] == records[i]);
                crate::bloom::no_false_negatives(u, records.last().key, records[i].key);
            }
        }
    }
}

proof fn filter_of_has_keys(records: Seq<RecordView>)
    requires
        records.len() <= super::count_limit(),
    ensures
        super::filter_of(records).wf(),
        forall|i: int|
            0 <= i < records.len() ==> super::filter_of(records).may_have((#[trigger] records[i]).key),
{
    record::encoded_all_bounds(records);
    let n = records.len();
    let bits = super::filter_bits(n);
    assert(0 < bits <= 10 * n + 10);
    let v = BloomView::empty(bits as u64, BLOOM_HASHES);
    assert(v.wf());
    filter_has_keys(v, records);
}

/// The footer is read back.
proof fn footer_round_trip(
    index_offset: nat,
    entries: nat,
    bloom_offset: nat,
    bloom_len: nat,
    count: nat,
)
    requires
        index_offset <= u64::MAX,
        entries < 0x1_0000_0000,
        bloom_offset <= u64::MAX,
        bloom_len <= u64::MAX,
        count <= u64::MAX,
    ensures
        ({
            let f = super::footer_bytes(index_offset, entries, bloom_offset, bloom_len, count);
            &&& f.len() == FOOTER_LEN
            &&& bytes::from_le(f.subrange(0, 8)) == index_offset
            &&& bytes::from_le(f.subrange(8, 12)) == entries
            &&& bytes::from_le(f.subrange(12, 20)) == bloom_offset
            &&& bytes::from_le(f.subrange(20, 28)) == bloom_len
            &&& bytes::from_le(f.subrange(28, 36)) == count
            &&& f.subrange(40, 44) == MAGIC@
        }),
{
    let f = super::footer_bytes(index_offset, entries, bloom_offset, bloom_len, count);
    bytes::spans();
    bytes::le_round_trip(index_offset, 8);
    bytes::le_round_trip(entries, 4);
    bytes::le_round_trip(bloom_offset, 8);
    bytes::le_round_trip(bloom_len, 8);
    bytes::le_round_trip(count, 8);
    bytes::le_len(FORMAT_VERSION as nat, 4);
    assert(f.subrange(0, 8) =~= bytes::le(index_offset, 8));
    assert(f.subrange(8, 12) =~= bytes::le(entries, 4));
    assert(f.subrange(12, 20) =~= bytes::le(bloom_offset, 8));
    assert(f.subrange(20, 28) =~= bytes::le(bloom_len, 8));
    assert(f.subrange(28, 36) =~= bytes::le(count, 8));
    assert(f.subrange(40, 44) =~= MAGIC@);
}

/// The index and the filter are read back from a table.
proof fn table_parses(records: Seq<RecordView>, parts: Seq<Seq<u8>>)
    requires
        super::storable(records),
        super::stores(parts, super::blocks(records)),
        super::table_bytes(records, parts).len() <= u64::MAX,
    ensures
        super::parsed(super::table_bytes(records, parts)) == Ok::<TableView, ErrorView>(
            TableView {
                index: super::index_of(super::blocks(records), parts),
                bloom: super::filter_of(records),
                record_count: records.len() as u64,
            },
        ),
{
    let file = super::table_bytes(records, parts);
    let data = super::joined(parts);
    let index = super::index_of(super::blocks(records), parts);
    let ib = super::index_bytes(index);
    let bb = super::filter_of(records).encoded();
    let bo = data.len() + ib.len();
    let footer = super::footer_bytes(data.len(), index.len(), bo, bb.len(), records.len());
    record::encoded_all_bounds(records);
    footer_round_trip(data.len(), index.len(), bo, bb.len(), records.len());
    assert(file.skip(file.len() - FOOTER_LEN) =~= footer);
    assert(file.subrange(data.len() as int, bo as int) =~= ib);
    assert(file.subrange(bo as int, (bo + bb.len()) as int) =~= bb);
    blocks_partition(records, 0);
    assert forall|i: int| 0 <= i < index.len() implies (#[trigger] index[i]).key.len()
        < 0x1_0000_0000 by {
        let b = super::blocks(records)[i];
        assert(b.len() > 0);
        let p = block_elements(records, 0, i, 0);
        assert(records[p].fits());
    }
    index_round_trip(Seq::empty(), index, Seq::empty());
    assert(Seq::<u8>::empty() + ib + Seq::empty() =~= ib);
    filter_of_has_keys(records);
    crate::bloom::filter_round_trip(super::filter_of(records));
}

proof fn joined_parts(parts: Seq<Seq<u8>>, i: int)
    requires
        0 <= i < parts.len(),
    ensures
        super::joined(parts.take(i)).len() + parts[i].len() <= super::joined(parts).len(),
        super::joined(parts).subrange(
            super::joined(parts.take(i)).len() as int,
            (super::joined(parts.take(i)).len() + parts[i].len()) as int,
        ) == parts[i],
    decreases parts.len(),
{
    let whole = super::joined(parts);
    let from = super::joined(parts.take(i)).len() as int;
    let to = from + parts[i].len();
    if i == parts.len() - 1 {
        assert(parts.take(i) =~= parts.drop_last());
        assert(whole.subrange(from, to) =~= parts[i]);
    } else {
        let fewer = parts.drop_last();
        joined_parts(fewer, i);
        assert(fewer.take(i) =~= parts.take(i));
        assert(whole.subrange(from, to) =~= super::joined(fewer).subrange(from, to));
    }
}

/// A part is found where it was written, whatever stands behind the parts.
proof fn part_in_file(parts: Seq<Seq<u8>>, rest: Seq<u8>, i: int)
    requires
        0 <= i < parts.len(),
    ensures
        super::joined(parts.take(i)).len() + parts[i].len() <= (super::joined(parts) + rest).len(),
        (super::joined(parts) + rest).subrange(
            super::joined(parts.take(i)).len() as int,
            (super::joined(parts.take(i)).len() + parts[i].len()) as int,
        ) == parts[i],
{
    joined_parts(parts, i);
    let from = super::joined(parts.take(i)).len() as int;
    let to = from + parts[i].len();
    assert((super::joined(parts) + rest).subrange(from, to) =~= super::joined(parts).subrange(from, to));
}

/// The records of a block are read back from its compressed form.
proof fn block_expands(part: Seq<u8>, block: Seq<RecordView>)
    requires
        lz4::compresses(part, record::encoded_all(block)),
        record::encoded_all(block).len() <= lz4::MAX_BLOCK,
        record::all_fit(block),
    ensures
        lz4::expansion(part) == Ok::<Seq<u8>, Seq<char>>(record::encoded_all(block)),
        record::decoded_all(record::encoded_all(block), 0) == Ok::<Seq<RecordView>, ErrorView>(
            block,
        ),
{
    record::block_round_trip(Seq::empty(), block);
    assert(Seq::<u8>::empty() + record::encoded_all(block) =~= record::encoded_all(block));
}

/// A block is read back from a file in which it stands.
proof fn block_loads(
    file: Seq<u8>,
    parts: Seq<Seq<u8>>,
    rest: Seq<u8>,
    block: Seq<RecordView>,
    i: int,
)
    requires
        file == super::joined(parts) + rest,
        file.len() <= u64::MAX,
        0 <= i < parts.len(),
        parts[i].len() < 0x1_0000_0000,
        lz4::compresses(parts[i], record::encoded_all(block)),
        record::encoded_all(block).len() <= lz4::MAX_BLOCK,
        record::all_fit(block),
    ensures
        super::loaded(file, super::joined(parts.take(i)).len() as u64, parts[i].len() as u32) == Ok::<
            Seq<RecordView>,
            ErrorView,
        >(block),
{
    part_in_file(parts, rest, i);
    block_expands(parts[i], block);
    if parts[i].len() == 0 {
        assert(parts[i] =~= Seq::empty());
    }
}

/// A block of storable records is storable by itself.
proof fn block_fits(records: Seq<RecordView>, i: int)
    requires
        record::all_fit(records),
        0 <= i < super::blocks(records).len(),
    ensures
        record::all_fit(super::blocks(records)[i]),
{
    let block = super::blocks(records)[i];
    let (a, b) = block_is_run(records, 0, i);
    assert forall|k: int| 0 <= k < block.len() implies (#[trigger] block[k]).fits() by {
        assert(block[k] == records[a + k]);
        assert(records[a + k].fits());
    }
}

/// All blocks are read back from a table.
proof fn blocks_load(file: Seq<u8>, records: Seq<RecordView>, parts: Seq<Seq<u8>>)
    requires
        super::storable(records),
        super::stores(parts, super::blocks(records)),
        file == super::table_bytes(records, parts),
        file.len() <= u64::MAX,
    ensures
        ({
            let index = super::index_of(super::blocks(records), parts);
            forall|i: int|
                0 <= i < index.len() ==> super::loaded(file, (#[trigger] index[i]).offset, index[i].len)
                    == Ok::<Seq<RecordView>, ErrorView>(super::blocks(records)[i])
        }),
{
    let bs = super::blocks(records);
    let index = super::index_of(bs, parts);
    assert forall|i: int| 0 <= i < index.len() implies super::loaded(
        file,
        (#[trigger] index[i]).offset,
        index[i].len,
    ) == Ok::<Seq<RecordView>, ErrorView>(bs[i]) by {
        assert(record::encoded_all(super::blocks(records)[i]).len() <= lz4::MAX_BLOCK);
        indexed_block_loads(file, bs, parts, super::table_tail(records, parts), i, records);
    }
}

/// Where the index says that a block is.
proof fn entry_of_block(bs: Seq<Seq<RecordView>>, parts: Seq<Seq<u8>>, i: int)
    requires
        0 <= i < bs.len() == parts.len(),
        parts[i].len() < 0x1_0000_0000,
    ensures
        super::index_of(bs, parts)[i].offset == super::joined(parts.take(i)).len() as u64,
        super::index_of(bs, parts)[i].len == parts[i].len() as u32,
{
}

#[verifier::spinoff_prover]
#[verifier::rlimit(30)]
proof fn indexed_block_loads(
    file: Seq<u8>,
    bs: Seq<Seq<RecordView>>,
    parts: Seq<Seq<u8>>,
    rest: Seq<u8>,
    i: int,
    records: Seq<RecordView>,
)
    requires
        bs == super::blocks(records),
        record::all_fit(records),
        file == super::joined(parts) + rest,
        file.len() <= u64::MAX,
        super::stores(parts, bs),
        0 <= i < bs.len(),
        record::encoded_all(bs[i]).len() <= lz4::MAX_BLOCK,
    ensures
        super::loaded(file, super::index_of(bs, parts)[i].offset, super::index_of(bs, parts)[i].len) == Ok::<
            Seq<RecordView>,
            ErrorView,
        >(bs[i]),
{
    part_fits(parts, bs, i);
    block_fits(records, i);
    assert(lz4::compresses(parts[i], record::encoded_all(bs[i])));
    block_loads(file, parts, rest, bs[i], i);
    entry_of_block(bs, parts, i);
}

proof fn all_blocks_load(
    file: Seq<u8>,
    index: Seq<EntryView>,
    bs: Seq<Seq<RecordView>>,
)
    requires
        index.len() == bs.len(),
        forall|i: int|
            0 <= i < index.len() ==> super::loaded(file, (#[trigger] index[i]).offset, index[i].len)
                == Ok::<Seq<RecordView>, ErrorView>(bs[i]),
    ensures
        super::all_records(file, index) == Ok::<Seq<RecordView>, ErrorView>(super::flat(bs)),
    decreases bs.len(),
{
    if bs.len() > 0 {
        let fewer = index.drop_last();
        assert forall|i: int| 0 <= i < fewer.len() implies super::loaded(
            file,
            (#[trigger] fewer[i]).offset,
            fewer[i].len,
        ) == Ok::<Seq<RecordView>, ErrorView>(bs.drop_last()[i]) by {
            assert(fewer[i] == index[i]);
        }
        all_blocks_load(file, fewer, bs.drop_last());
        let n = index.len() - 1;
        assert(super::loaded(file, index[n].offset, index[n].len) == Ok::<Seq<RecordView>, ErrorView>(
            bs[n],
        ));
        assert(bs =~= bs.drop_last() + seq![bs.last()]);
        flat_concat(bs.drop_last(), seq![bs.last()]);
        reveal_with_fuel(super::flat, 2);
        assert(seq![bs.last()].drop_first() =~= Seq::empty());
        assert(super::flat(seq![bs.last()]) =~= bs.last());
    }
}

/// What the file of a written table holds: an index with an entry for each
/// block, blocks that can be read, and a filter of the keys.
proof fn written_table(file: Seq<u8>, records: Seq<RecordView>) -> (index: Seq<EntryView>)
    requires
        super::is_table(file, records),
        super::storable(records),
        file.len() <= u64::MAX,
    ensures
        super::parsed(file) == Ok::<TableView, ErrorView>(
            TableView { index, bloom: super::filter_of(records), record_count: records.len() as u64 },
        ),
        records.len() <= u64::MAX,
        index.len() == super::blocks(records).len(),
        forall|i: int|
            0 <= i < index.len() ==> (#[trigger] index[i]).key == super::blocks(records)[i][0].key
                && super::loaded(file, index[i].offset, index[i].len) == Ok::<
                Seq<RecordView>,
                ErrorView,
            >(super::blocks(records)[i]),
{
    let parts = choose|parts: Seq<Seq<u8>>|
        super::stores(parts, super::blocks(records)) && file == #[trigger] super::table_bytes(records, parts);
    record::encoded_all_bounds(records);
    table_parses(records, parts);
    blocks_load(file, records, parts);
    super::index_of(super::blocks(records), parts)
}

/// A table that was written is read back: all its records, for every key and
/// bound the newest version that can be seen, and for every key the newest of
/// all.
pub proof fn table_reads_back(
    file: Seq<u8>,
    records: Seq<RecordView>,
    use_bloom: bool,
    key: Seq<u8>,
    bound: u64,
)
    requires
        super::is_table(file, records),
        super::storable(records),
        file.len() <= u64::MAX,
    ensures
        super::parsed(file) is Ok,
        super::parsed(file)->Ok_0.record_count == records.len(),
        super::index_ascends(super::parsed(file)->Ok_0.index),
        super::all_records(file, super::parsed(file)->Ok_0.index) == Ok::<Seq<RecordView>, ErrorView>(records),
        super::looked_up(file, super::parsed(file)->Ok_0, use_bloom, key, bound) == Ok::<
            Option<RecordView>,
            ErrorView,
        >(versions::first_visible(records, key, bound)),
        super::newest_in(file, super::parsed(file)->Ok_0, use_bloom, key) == Ok::<
            Option<RecordView>,
            ErrorView,
        >(versions::newest(records, key)),
{
    let index = written_table(file, records);
    let bs = super::blocks(records);
    blocks_partition(records, 0);
    assert(records.skip(0) =~= records);
    all_blocks_load(file, index, bs);
    one_block_decides(records, index, key, bound);
    one_block_has_newest(records, index, key);
    filter_of_has_keys(records);
    lookup_decides(file, records, index, use_bloom, key, bound);
    newest_decides(file, records, index, use_bloom, key);
}

proof fn newest_decides(
    file: Seq<u8>,
    records: Seq<RecordView>,
    index: Seq<EntryView>,
    use_bloom: bool,
    key: Seq<u8>,
)
    requires
        index.len() == super::blocks(records).len(),
        super::flat(super::blocks(records)) == records,
        forall|i: int|
            0 <= i < index.len() ==> super::loaded(file, (#[trigger] index[i]).offset, index[i].len)
                == Ok::<Seq<RecordView>, ErrorView>(super::blocks(records)[i]),
        forall|i: int|
            0 <= i < records.len() ==> super::filter_of(records).may_have((#[trigger] records[i]).key),
        versions::newest(records, key) == match super::block_for(index, key) {
            None => None,
            Some(i) => super::first_in(super::blocks(records)[i], key),
        },
    ensures
        super::newest_in(
            file,
            TableView { index, bloom: super::filter_of(records), record_count: records.len() as u64 },
            use_bloom,
            key,
        ) == Ok::<Option<RecordView>, ErrorView>(versions::newest(records, key)),
{
    if index.len() == 0 {
        assert(records =~= Seq::empty());
    } else if use_bloom && !super::filter_of(records).may_have(key) {
        assert forall|j: int| 0 <= j < records.len() implies (#[trigger] records[j]).key != key by {}
        versions::newest_none(records, key);
    } else {
        block_for_facts(index, key);
    }
}

proof fn lookup_decides(
    file: Seq<u8>,
    records: Seq<RecordView>,
    index: Seq<EntryView>,
    use_bloom: bool,
    key: Seq<u8>,
    bound: u64,
)
    requires
        index.len() == super::blocks(records).len(),
        super::flat(super::blocks(records)) == records,
        forall|i: int|
            0 <= i < index.len() ==> super::loaded(file, (#[trigger] index[i]).offset, index[i].len)
                == Ok::<Seq<RecordView>, ErrorView>(super::blocks(records)[i]),
        forall|i: int|
            0 <= i < records.len() ==> super::filter_of(records).may_have((#[trigger] records[i]).key),
        versions::first_visible(records, key, bound) == match super::block_for(index, key) {
            None => None,
            Some(i) => super::found_in(super::blocks(records)[i], key, bound),
        },
    ensures
        super::looked_up(
            file,
            TableView { index, bloom: super::filter_of(records), record_count: records.len() as u64 },
            use_bloom,
            key,
            bound,
        ) == Ok::<Option<RecordView>, ErrorView>(versions::first_visible(records, key, bound)),
{
    if index.len() == 0 {
        assert(records =~= Seq::empty());
    } else if use_bloom && !super::filter_of(records).may_have(key) {
        assert forall|j: int| 0 <= j < records.len() implies !versions::visible(
            #[trigger] records[j],
            key,
            bound,
        ) by {}
        versions::first_visible_none(records, key, bound);
    } else {
        block_for_facts(index, key);
    }
}

/// A compressed block is short enough for the 32 bits that hold its length.
proof fn part_fits(parts: Seq<Seq<u8>>, bs: Seq<Seq<RecordView>>, i: int)
    requires
        super::stores(parts, bs),
        0 <= i < parts.len(),
        record::encoded_all(bs[i]).len() <= lz4::MAX_BLOCK,
    ensures
        parts[i].len() < 0x1_0000_0000,
{
    assert(lz4::compresses(parts[i], record::encoded_all(bs[i])));
}

/// No record outside the blocks that can hold keys of a range is in the range.
proof fn range_is_in_blocks(
    records: Seq<RecordView>,
    index: Seq<EntryView>,
    start: Option<Seq<u8>>,
    end: Option<Seq<u8>>,
)
    requires
        versions::key_sorted(records),
        index.len() == super::blocks(records).len(),
        forall|i: int|
            0 <= i < index.len() ==> (#[trigger] index[i]).key == super::blocks(records)[i][0].key,
        super::index_ascends(index),
    ensures
        ({
            let (from, to) = super::range_bounds(index, start, end);
            let p = |r: RecordView| memtable::in_range(r, start, end);
            &&& 0 <= from <= to <= index.len()
            &&& records.filter(p) == super::flat(super::blocks(records).subrange(from, to)).filter(p)
        }),
{
    let bs = super::blocks(records);
    let p = |r: RecordView| memtable::in_range(r, start, end);
    let (from, to) = super::range_bounds(index, start, end);
    if let Some(k) = start {
        block_for_facts(index, k);
    }
    if let Some(k) = end {
        blocks_before_facts(index, k);
    }
    let mid = bs.subrange(from, to);
    let before = super::flat(bs.take(from));
    let after = super::flat(bs.skip(to));
    blocks_partition(records, 0);
    assert(records.skip(0) =~= records);
    assert(bs =~= bs.take(from) + (mid + bs.skip(to)));
    flat_concat(bs.take(from), mid + bs.skip(to));
    flat_concat(mid, bs.skip(to));
    assert forall|q: int| 0 <= q < before.len() implies !p(#[trigger] before[q]) by {
        let (j, x) = flat_elements(bs.take(from), q);
        let k = start->0;
        assert(bs.take(from)[j] == bs[j]);
        assert(bs[from].len() > 0);
        blocks_ascend(records, 0, j, x, from, 0);
        assert(index[from].key == bs[from][0].key);
        bytes::lex_total(k, index[from].key);
        if index[from].key != k {
            bytes::lex_transitive(before[q].key, index[from].key, k);
        }
    }
    assert forall|q: int| 0 <= q < after.len() implies !p(#[trigger] after[q]) by {
        let (j, x) = flat_elements(bs.skip(to), q);
        let y = j + to;
        assert(bs.skip(to)[j] == bs[y]);
        key_not_before_block(records, y, x);
        assert(index[y].key == bs[y][0].key);
        let k = end->0;
        assert(!bytes::lex_lt(index[y].key, k));
        if bytes::lex_lt(after[q].key, k) && index[y].key != after[q].key {
            bytes::lex_transitive(index[y].key, after[q].key, k);
        }
    }
    none_left(before, p);
    none_left(after, p);
    Seq::filter_distributes_over_add(before, super::flat(mid) + after, p);
    Seq::filter_distributes_over_add(super::flat(mid), after, p);
    assert(records.filter(p) =~= super::flat(mid).filter(p));
}

proof fn none_left(s: Seq<RecordView>, p: spec_fn(RecordView) -> bool)
    requires
        forall|i: int| 0 <= i < s.len() ==> !p(#[trigger] s[i]),
    ensures
        s.filter(p) == Seq::<RecordView>::empty(),
    decreases s.len(),
{
    reveal(Seq::filter);
    if s.len() > 0 {
        assert(!p(s[s.len() - 1]));
        let t = s.drop_last();
        assert forall|i: int| 0 <= i < t.len() implies !p(#[trigger] t[i]) by {
            assert(t[i] == s[i]);
        }
        none_left(t, p);
    }
}

proof fn items_of_blocks(
    file: Seq<u8>,
    index: Seq<EntryView>,
    bs: Seq<Seq<RecordView>>,
    start: Option<Seq<u8>>,
    end: Option<Seq<u8>>,
)
    requires
        index.len() == bs.len(),
        forall|i: int|
            0 <= i < index.len() ==> super::loaded(file, (#[trigger] index[i]).offset, index[i].len)
                == Ok::<Seq<RecordView>, ErrorView>(bs[i]),
    ensures
        super::range_items(file, index, start, end) == super::flat(bs).filter(
            |r: RecordView| memtable::in_range(r, start, end),
        ).map_values(|r: RecordView| Ok::<RecordView, ErrorView>(r)),
    decreases index.len(),
{
    let p = |r: RecordView| memtable::in_range(r, start, end);
    let ok = |r: RecordView| Ok::<RecordView, ErrorView>(r);
    if index.len() == 0 {
        reveal(Seq::filter);
        assert(super::flat(bs).filter(p).map_values(ok) =~= Seq::empty());
    } else {
        let rest = index.drop_first();
        let more = bs.drop_first();
        assert forall|i: int| 0 <= i < rest.len() implies super::loaded(
            file,
            (#[trigger] rest[i]).offset,
            rest[i].len,
        ) == Ok::<Seq<RecordView>, ErrorView>(more[i]) by {
            assert(rest[i] == index[i + 1]);
        }
        items_of_blocks(file, rest, more, start, end);
        assert(super::loaded(file, index[0].offset, index[0].len) == Ok::<Seq<RecordView>, ErrorView>(
            bs[0],
        ));
        Seq::filter_distributes_over_add(bs[0], super::flat(more), p);
        assert((bs[0].filter(p) + super::flat(more).filter(p)).map_values(ok) =~= bs[0].filter(
            p,
        ).map_values(ok) + super::flat(more).filter(p).map_values(ok));
    }
}

/// A range of a table that was written gives the records that were written and
/// lie in the range, in order.
pub proof fn table_range_reads_back(
    file: Seq<u8>,
    records: Seq<RecordView>,
    start: Option<Seq<u8>>,
    end: Option<Seq<u8>>,
)
    requires
        super::is_table(file, records),
        super::storable(records),
        file.len() <= u64::MAX,
    ensures
        super::parsed(file) is Ok,
        super::range_items(
            file,
            super::blocks_in_range(super::parsed(file)->Ok_0.index, start, end),
            start,
            end,
        ) == records.filter(|r: RecordView| memtable::in_range(r, start, end)).map_values(
            |r: RecordView| Ok::<RecordView, ErrorView>(r),
        ),
{
    let index = written_table(file, records);
    let bs = super::blocks(records);
    one_block_decides(records, index, Seq::empty(), 0);
    let (from, to) = super::range_bounds(index, start, end);
    range_is_in_blocks(records, index, start, end);
    let mid_index = index.subrange(from, to);
    let mid = bs.subrange(from, to);
    assert(super::blocks_in_range(index, start, end) =~= mid_index);
    assert forall|i: int| 0 <= i < mid_index.len() implies super::loaded(
        file,
        (#[trigger] mid_index[i]).offset,
        mid_index[i].len,
    ) == Ok::<Seq<RecordView>, ErrorView>(mid[i]) by {
        assert(mid_index[i] == index[from + i]);
    }
    items_of_blocks(file, mid_index, mid, start, end);
}

proof fn blocks_before_facts(index: Seq<EntryView>, key: Seq<u8>)
    requires
        super::index_ascends(index),
    ensures
        0 <= super::blocks_before(index, key) <= index.len(),
        forall|i: int|
            super::blocks_before(index, key) <= i < index.len() ==> !bytes::lex_lt(
                (#[trigger] index[i]).key,
                key,
            ),
    decreases index.len(),
{
    if index.len() > 0 && !bytes::lex_lt(index.last().key, key) {
        let fewer = index.drop_last();
        assert forall|i: int, j: int| 0 <= i < j < fewer.len() implies bytes::lex_lt(
            (#[trigger] fewer[i]).key,
            (#[trigger] fewer[j]).key,
        ) by {
            assert(fewer[i] == index[i] && fewer[j] == index[j]);
        }
        blocks_before_facts(fewer, key);
        assert forall|i: int| super::blocks_before(index, key) <= i < index.len() implies !bytes::lex_lt(
            (#[trigger] index[i]).key,
            key,
        ) by {
            if i < fewer.len() {
                assert(fewer[i] == index[i]);
            }
        }
    }
}

/// Where blocks are cut: a block is closed as soon as it has 4096 bytes and the next
/// record is of another key. So every block but the last is that large, none could have
/// been closed before, and the versions of a key stay together.
pub proof fn blocks_are_cut_by_size(records: Seq<RecordView>, start: int, i: int)
    requires
        0 <= start <= records.len(),
        0 <= i < super::blocks_from(records, start).len(),
    ensures
        ({
            let all = super::blocks_from(records, start);
            let block = all[i];
            &&& block.len() > 0
            &&& i + 1 < all.len() ==> record::encoded_all(block).len() >= 4096
                && block.last().key != all[i + 1][0].key
            &&& forall|e: int|
                0 < e < block.len() && record::encoded_all(#[trigger] block.take(e)).len() >= 4096
                    ==> block[e].key == block[e - 1].key
        }),
    decreases records.len() - start,
{
    let all = super::blocks_from(records, start);
    block_end_bounds(records, start, start + 1);
    let end = super::block_end(records, start, start + 1);
    let rest = super::blocks_from(records, end);
    assert(all =~= seq![records.subrange(start, end)] + rest);
    if i == 0 {
        let block = records.subrange(start, end);
        assert(all[0] == block);
        assert forall|e: int|
            0 < e < block.len() && record::encoded_all(#[trigger] block.take(e)).len()
                >= 4096 implies block[e].key == block[e - 1].key by {
            assert(block.take(e) =~= records.subrange(start, start + e));
            not_closed_before(records, start, start + 1, start + e);
        }
        if rest.len() > 0 {
            block_end_closes(records, start, start + 1);
            block_end_bounds(records, end, end + 1);
            assert(rest[0][0] == records[end]);
            assert(all[1] == rest[0]);
        }
    } else {
        blocks_are_cut_by_size(records, end, i - 1);
        assert(all[i] == rest[i - 1]);
        if i + 1 < all.len() {
            assert(all[i + 1] == rest[i]);
        }
    }
}

/// A block is not closed before its end.
proof fn not_closed_before(records: Seq<RecordView>, start: int, e: int, at: int)
    requires
        0 <= start < e <= at < super::block_end(records, start, e),
        e <= records.len(),
    ensures
        !super::closes(records, start, at),
    decreases records.len() - e,
{
    if e < records.len() && !super::closes(records, start, e) {
        if at > e {
            not_closed_before(records, start, e + 1, at);
        }
    }
}

/// What stands at the end of a table: where the index is and how many entries it has,
/// where the filter is and how long it is, how many records there are, the version of the
/// format and the bytes `LSM2`, numbers lowest byte first.
pub proof fn footer_layout(records: Seq<RecordView>, parts: Seq<Seq<u8>>)
    requires
        super::table_bytes(records, parts).len() <= u64::MAX,
        records.len() <= u64::MAX,
        super::blocks(records).len() < 0x1_0000_0000,
    ensures
        ({
            let file = super::table_bytes(records, parts);
            let n = file.len() as int;
            let index = super::index_bytes(super::index_of(super::blocks(records), parts));
            let filter = super::filter_of(records).encoded();
            let at = super::joined(parts).len() as int;
            &&& n == at + index.len() + filter.len() + 44
            &&& file.take(at) == super::joined(parts)
            &&& file.subrange(at, at + index.len()) == index
            &&& file.subrange(at + index.len(), n - 44) == filter
            &&& bytes::from_le(file.subrange(n - 44, n - 36)) == at
            &&& bytes::from_le(file.subrange(n - 36, n - 32)) == super::blocks(records).len()
            &&& bytes::from_le(file.subrange(n - 32, n - 24)) == at + index.len()
            &&& bytes::from_le(file.subrange(n - 24, n - 16)) == filter.len()
            &&& bytes::from_le(file.subrange(n - 16, n - 8)) == records.len()
            &&& bytes::from_le(file.subrange(n - 8, n - 4)) == 2
            &&& file.skip(n - 4) == seq![76u8, 83u8, 77u8, 50u8]
        }),
{
    let file = super::table_bytes(records, parts);
    let data = super::joined(parts);
    let entries = super::index_of(super::blocks(records), parts);
    let index = super::index_bytes(entries);
    let filter = super::filter_of(records).encoded();
    let at = data.len() as int;
    let f = super::footer_bytes(
        data.len(),
        entries.len(),
        data.len() + index.len(),
        filter.len(),
        records.len(),
    );
    bytes::le_len(data.len(), 8);
    bytes::le_len(entries.len() % 0x1_0000_0000, 4);
    bytes::le_len(data.len() + index.len(), 8);
    bytes::le_len(filter.len(), 8);
    bytes::le_len(records.len(), 8);
    bytes::le_len(FORMAT_VERSION as nat, 4);
    assert(f.len() == 44);
    let n = file.len() as int;
    assert(n == at + index.len() + filter.len() + 44);
    footer_round_trip(
        data.len(),
        entries.len(),
        data.len() + index.len(),
        filter.len(),
        records.len(),
    );
    bytes::spans();
    bytes::le_round_trip(FORMAT_VERSION as nat, 4);
    assert(file.skip(n - 44) =~= f);
    assert(file.take(at) =~= data);
    assert(file.subrange(at, at + index.len()) =~= index);
    assert(file.subrange(at + index.len(), n - 44) =~= filter);
    assert(file.subrange(n - 44, n - 36) =~= f.subrange(0, 8));
    assert(file.subrange(n - 36, n - 32) =~= f.subrange(8, 12));
    assert(file.subrange(n - 32, n - 24) =~= f.subrange(12, 20));
    assert(file.subrange(n - 24, n - 16) =~= f.subrange(20, 28));
    assert(file.subrange(n - 16, n - 8) =~= f.subrange(28, 36));
    assert(file.subrange(n - 8, n - 4) =~= bytes::le(FORMAT_VERSION as nat, 4));
    assert(file.skip(n - 4) =~= MAGIC@);
    assert(MAGIC@ =~= seq![76u8, 83u8, 77u8, 50u8]);
}

/// What an entry of the index says: the first key of its block, where the block starts,
/// behind all blocks before it, and how many bytes it takes.
pub proof fn entries_say_where_blocks_are(
    blocks: Seq<Seq<RecordView>>,
    parts: Seq<Seq<u8>>,
    i: int,
)
    requires
        0 <= i < blocks.len(),
        parts.len() == blocks.len(),
        super::joined(parts).len() <= u64::MAX,
        parts[i].len() < 0x1_0000_0000,
    ensures
        ({
            let entry = super::index_of(blocks, parts)[i];
            &&& entry.key == blocks[i][0].key
            &&& entry.offset + entry.len <= super::joined(parts).len()
            &&& super::joined(parts).subrange(
                entry.offset as int,
                entry.offset + entry.len,
            ) == parts[i]
        }),
{
    joined_splits(parts, i);
}

/// Byte strings one behind the other are those before one of them, that one, and those
/// behind it.
proof fn joined_splits(parts: Seq<Seq<u8>>, i: int)
    requires
        0 <= i < parts.len(),
    ensures
        super::joined(parts).len() >= super::joined(parts.take(i)).len() + parts[i].len(),
        super::joined(parts).subrange(
            super::joined(parts.take(i)).len() as int,
            (super::joined(parts.take(i)).len() + parts[i].len()) as int,
        ) == parts[i],
    decreases parts.len(),
{
    let front = parts.drop_last();
    let all = super::joined(parts);
    let at = super::joined(parts.take(i)).len() as int;
    if i == parts.len() - 1 {
        assert(parts.take(i) =~= front);
        assert(all.subrange(at, at + parts[i].len()) =~= parts[i]);
    } else {
        joined_splits(front, i);
        assert(front.take(i) =~= parts.take(i));
        assert(front[i] == parts[i]);
        assert(all.subrange(at, at + parts[i].len()) =~= super::joined(front).subrange(
            at,
            at + parts[i].len(),
        ));
    }
}

/// What stands in the bytes of an entry: the length of the key, the key, the offset and
/// the length, numbers lowest byte first.
pub proof fn entry_layout(entry: EntryView)
    requires
        entry.key.len() < 0x1_0000_0000,
    ensures
        ({
            let e = entry.encoded();
            let k = entry.key.len() as int;
            &&& e.len() == 16 + k
            &&& bytes::from_le(e.take(4)) == k
            &&& e.subrange(4, 4 + k) == entry.key
            &&& bytes::from_le(e.subrange(4 + k, 12 + k)) == entry.offset
            &&& bytes::from_le(e.skip(12 + k)) == entry.len
        }),
{
    let e = entry.encoded();
    let k = entry.key.len() as int;
    bytes::spans();
    bytes::le_round_trip(entry.key.len(), 4);
    bytes::le_round_trip(entry.offset as nat, 8);
    bytes::le_round_trip(entry.len as nat, 4);
    assert(e.take(4) =~= bytes::le(entry.key.len(), 4));
    assert(e.subrange(4, 4 + k) =~= entry.key);
    assert(e.subrange(4 + k, 12 + k) =~= bytes::le(entry.offset as nat, 8));
    assert(e.skip(12 + k) =~= bytes::le(entry.len as nat, 4));
}

/// A filter has as many bits as 9.585058377367439 per key are, and no more than that
/// takes, and as many as for one key where there is none.
pub proof fn filter_is_as_large_as_it_needs(n: nat)
    ensures
        ({
            let m: int = if n == 0 {
                1
            } else {
                n as int
            };
            let bits = super::filter_bits(n) as int;
            &&& bits * 1_000_000_000_000_000 >= m * 9_585_058_377_367_439
            &&& (bits - 1) * 1_000_000_000_000_000 < m * 9_585_058_377_367_439
        }),
{
}

/// Setting the bits of a key changes neither how many bits a filter has nor how many are
/// set per key.
proof fn key_keeps_the_shape(v: BloomView, key: Seq<u8>, n: nat)
    ensures
        v.with_some(key, n).k == v.k,
        v.with_some(key, n).bit_count == v.bit_count,
    decreases n,
{
    if n > 0 {
        key_keeps_the_shape(v, key, (n - 1) as nat);
    }
}

/// Adding keys changes neither how many bits a filter has nor how many are set per key.
proof fn keys_keep_the_shape(v: BloomView, records: Seq<RecordView>)
    ensures
        super::filter_with(v, records).k == v.k,
        super::filter_with(v, records).bit_count == v.bit_count,
    decreases records.len(),
{
    if records.len() > 0 {
        keys_keep_the_shape(v, records.drop_last());
        let fewer = super::filter_with(v, records.drop_last());
        key_keeps_the_shape(fewer, records.last().key, fewer.k as nat);
    }
}

/// The filter of a table sets seven bits per key.
pub proof fn seven_bits_per_key(records: Seq<RecordView>)
    ensures
        super::filter_of(records).k == 7,
{
    keys_keep_the_shape(
        BloomView::empty(super::filter_bits(records.len()) as u64, BLOOM_HASHES),
        records,
    );
}

/// What can be written to a table: records of at most an eighth of what 64 bits hold in
/// bytes, as many as a sixteenth of what memory can be addressed with, in blocks of which
/// none takes more than a hundred and tenth of that. Records that take less than 39
/// megabytes can.
pub proof fn what_a_table_takes(records: Seq<RecordView>)
    ensures
        super::is_writable(records) <==> {
            &&& 8 * record::encoded_all(records).len() <= u64::MAX
            &&& 16 * records.len() <= usize::MAX
            &&& forall|i: int|
                0 <= i < super::blocks(records).len() ==> 110 * record::encoded_all(
                    #[trigger] super::blocks(records)[i],
                ).len() <= usize::MAX
        },
        record::encoded_all(records).len() <= 39_000_000 ==> super::is_writable(records),
        record::encoded_all(records).len() <= 39_000_000 && versions::key_sorted(records)
            ==> super::storable(records),
{
    let all = super::blocks(records);
    record::encoded_all_bounds(records);
    blocks_partition(records, 0);
    assert(records.skip(0) =~= records);
    assert forall|i: int| 0 <= i < all.len() implies record::encoded_all(#[trigger] all[i]).len()
        <= record::encoded_all(records).len() by {
        block_is_part(all, i);
    }
    if record::encoded_all(records).len() <= 39_000_000 {
        assert forall|i: int| 0 <= i < records.len() implies (#[trigger] records[i]).fits() by {
            assert(records[i].size() <= record::encoded_all(records).len());
        }
        blocks_are_few(all);
    }
}

/// A block takes no more bytes than all of them.
proof fn block_is_part(blocks: Seq<Seq<RecordView>>, i: int)
    requires
        0 <= i < blocks.len(),
    ensures
        record::encoded_all(blocks[i]).len() <= record::encoded_all(super::flat(blocks)).len(),
    decreases blocks.len(),
{
    record::encoded_all_concat(blocks[0], super::flat(blocks.drop_first()));
    if i > 0 {
        block_is_part(blocks.drop_first(), i - 1);
    }
}

/// There are no more blocks than records.
proof fn blocks_are_few(blocks: Seq<Seq<RecordView>>)
    requires
        forall|i: int| 0 <= i < blocks.len() ==> (#[trigger] blocks[i]).len() > 0,
    ensures
        blocks.len() <= super::flat(blocks).len(),
    decreases blocks.len(),
{
    if blocks.len() > 0 {
        let rest = blocks.drop_first();
        assert forall|i: int| 0 <= i < rest.len() implies (#[trigger] rest[i]).len() > 0 by {
            assert(rest[i] == blocks[i + 1]);
        }
        assert(blocks[0].len() > 0);
        blocks_are_few(rest);
    }
}

/// A file is read as a table only if it ends in the bytes of a table's footer, and the
/// index and the filter that the footer points to lie within it.
pub proof fn only_tables_are_read(file: Seq<u8>)
    requires
        super::parsed(file) is Ok,
    ensures
        ({
            let n = file.len() as int;
            let index_offset = bytes::from_le(file.subrange(n - 44, n - 36));
            let bloom_offset = bytes::from_le(file.subrange(n - 32, n - 24));
            let bloom_len = bytes::from_le(file.subrange(n - 24, n - 16));
            &&& n >= 44
            &&& file.skip(n - 4) == seq![76u8, 83u8, 77u8, 50u8]
            &&& index_offset <= bloom_offset <= bloom_offset + bloom_len <= n - 44
            &&& super::parsed(file)->Ok_0.record_count == bytes::from_le(
                file.subrange(n - 16, n - 8),
            )
        }),
{
    let n = file.len() as int;
    let f = file.skip(n - 44);
    assert(f.subrange(0, 8) =~= file.subrange(n - 44, n - 36));
    assert(f.subrange(12, 20) =~= file.subrange(n - 32, n - 24));
    assert(f.subrange(20, 28) =~= file.subrange(n - 24, n - 16));
    assert(f.subrange(28, 36) =~= file.subrange(n - 16, n - 8));
    assert(f.subrange(40, 44) =~= file.skip(n - 4));
    assert(MAGIC@ =~= seq![76u8, 83u8, 77u8, 50u8]);
    bytes::spans();
    bytes::from_le_round_trip(file.subrange(n - 16, n - 8));
}

} // verus!
