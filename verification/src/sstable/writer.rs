//! Writing tables.

use vstd::prelude::*;

use super::laws;
use super::{BLOCK_SIZE, BLOOM_HASHES, EntryView, FORMAT_VERSION, IndexEntry, MAGIC};
use crate::bloom::{BloomFilter, BloomView};
use crate::bytes;
use crate::disk;
use crate::disk::{Change, Disk, Holder, Volume};
use crate::error::{Error, Result};
use crate::fs;
use crate::fs::{BufAppend, File, Fs, OpenMode, SyncMode};
use crate::lz4;
use crate::record;
use crate::record::{Record, RecordView};

verus! {

/// An empty filter for `n` keys.
fn new_filter(n: usize) -> (r: BloomFilter)
    requires
        n <= super::count_limit(),
    ensures
        r@ == BloomView::empty(super::filter_bits(n as nat) as u64, BLOOM_HASHES),
        r@.wf(),
        super::filter_bits(n as nat) <= 10 * n + 10,
{
    let m: u128 = if n == 0 {
        1
    } else {
        n as u128
    };
    let bits: u128 = (m * 9_585_058_377_367_439 + 999_999_999_999_999) / 1_000_000_000_000_000;
    BloomFilter::new(bits as u64, BLOOM_HASHES)
}

/// The filter of a table.
fn build_filter(records: &[Record]) -> (r: BloomFilter)
    requires
        records@.len() <= super::count_limit(),
    ensures
        r@ == super::filter_of(record::views(records@)),
        r@.wf(),
        r@.bit_count <= 10 * records@.len() + 10,
{
    let ghost all = record::views(records@);
    let n: usize = records.len();
    let mut filter = new_filter(n);
    let ghost start = filter@;
    let mut i: usize = 0;
    assert(all.take(0) =~= Seq::empty());
    while i < n
        invariant
            i <= n == records@.len(),
            all == record::views(records@),
            filter@.wf(),
            filter@.bit_count == start.bit_count,
            filter@ == super::filter_with(start, all.take(i as int)),
        decreases n - i,
    {
        proof {
            assert(all.take(i + 1).drop_last() =~= all.take(i as int));
            assert(all.take(i + 1).last() == records@[i as int]@);
            same_size(filter@, records@[i as int]@.key, filter@.k as nat);
        }
        filter.insert(records[i].key.as_slice());
        i += 1;
    }
    assert(all.take(n as int) =~= all);
    filter
}

proof fn same_size(v: BloomView, key: Seq<u8>, n: nat)
    ensures
        v.with_some(key, n).bit_count == v.bit_count,
    decreases n,
{
    if n > 0 {
        same_size(v, key, (n - 1) as nat);
    }
}

/// Encode the block of records that starts at `start`, and return where it
/// ends.
fn encode_block(records: &[Record], start: usize, block: &mut Vec<u8>) -> (e: usize)
    requires
        start < records@.len(),
        old(block)@ == Seq::<u8>::empty(),
    ensures
        e == super::block_end(record::views(records@), start as int, start + 1),
        start < e <= records@.len(),
        final(block)@ == record::encoded_all(
            record::views(records@).subrange(start as int, e as int),
        ),
{
    let ghost all = record::views(records@);
    let n: usize = records.len();
    let mut e: usize = start;
    proof {
        laws::block_end_bounds(all, start as int, start + 1);
        assert(all.subrange(start as int, start as int) =~= Seq::empty());
    }
    loop
        invariant_except_break
            start <= e < n,
            e > start ==> super::block_end(all, start as int, e as int) == super::block_end(
                all,
                start as int,
                start + 1,
            ) && !super::closes(all, start as int, e as int),
        invariant
            n == records@.len(),
            all == record::views(records@),
            block@ == record::encoded_all(all.subrange(start as int, e as int)),
        ensures
            start < e <= n,
            e == super::block_end(all, start as int, start + 1),
        decreases n - e,
    {
        records[e].encode_into(block);
        proof {
            let longer = all.subrange(start as int, e + 1);
            assert(longer.drop_last() =~= all.subrange(start as int, e as int));
            assert(longer.last() == records@[e as int]@);
            if e > start {
                assert(super::block_end(all, start as int, e as int) == super::block_end(
                    all,
                    start as int,
                    e + 1,
                ));
            }
        }
        e += 1;
        if e == n {
            break;
        }
        if block.len() >= BLOCK_SIZE && !bytes::same(
            records[e].key.as_slice(),
            records[e - 1].key.as_slice(),
        ) {
            assert(super::closes(all, start as int, e as int));
            break;
        }
        assert(all[e as int].key == all[e - 1].key || block@.len() < BLOCK_SIZE);
    }
    e
}

proof fn joined_push(parts: Seq<Seq<u8>>, part: Seq<u8>)
    ensures
        super::joined(parts.push(part)) == super::joined(parts) + part,
{
    assert(parts.push(part).drop_last() =~= parts);
}

proof fn index_of_push(
    blocks: Seq<Seq<RecordView>>,
    parts: Seq<Seq<u8>>,
    block: Seq<RecordView>,
    part: Seq<u8>,
)
    requires
        parts.len() == blocks.len(),
    ensures
        super::index_of(blocks.push(block), parts.push(part)) == super::index_of(blocks, parts).push(
            EntryView {
                key: block[0].key,
                offset: super::joined(parts).len() as u64,
                len: (part.len() % 0x1_0000_0000) as u32,
            },
        ),
{
    let a = super::index_of(blocks.push(block), parts.push(part));
    let b = super::index_of(blocks, parts).push(
        EntryView {
            key: block[0].key,
            offset: super::joined(parts).len() as u64,
            len: (part.len() % 0x1_0000_0000) as u32,
        },
    );
    assert(a.len() == b.len());
    assert forall|i: int| 0 <= i < a.len() implies a[i] == b[i] by {
        if i < blocks.len() {
            assert(parts.push(part).take(i) =~= parts.take(i));
        } else {
            assert(parts.push(part).take(i) =~= parts);
        }
    }
    assert(a =~= b);
}

proof fn stores_push(
    parts: Seq<Seq<u8>>,
    bs: Seq<Seq<RecordView>>,
    part: Seq<u8>,
    block: Seq<RecordView>,
)
    requires
        super::stores(parts, bs),
        lz4::compresses(part, record::encoded_all(block)),
        part.len() <= 24 + record::encoded_all(block).len() + record::encoded_all(block).len() / 255,
    ensures
        super::stores(parts.push(part), bs.push(block)),
{
    let more = parts.push(part);
    assert forall|i: int| 0 <= i < more.len() implies lz4::compresses(
        #[trigger] more[i],
        record::encoded_all(bs.push(block)[i]),
    ) && more[i].len() <= 24 + record::encoded_all(bs.push(block)[i]).len() + record::encoded_all(
        bs.push(block)[i],
    ).len() / 255 by {
        if i < parts.len() {
            assert(more[i] == parts[i]);
        }
    }
}

/// Write the blocks of records, and return the index and how many bytes were
/// written.
fn write_blocks<W: File>(w: &mut BufAppend<W>, records: &[Record]) -> (r: Result<
    (Vec<IndexEntry>, u64, Ghost<Seq<Seq<u8>>>),
>)
    requires
        old(w).written() == Seq::<u8>::empty(),
        record::encoded_all(record::views(records@)).len() <= super::table_limit(),
    ensures
        r matches Ok((index, offset, parts)) ==> {
            let all = record::views(records@);
            &&& super::stores(parts@, super::blocks(all))
            &&& final(w).written() == super::joined(parts@)
            &&& offset == super::joined(parts@).len()
            &&& super::entry_views(index@) == super::index_of(super::blocks(all), parts@)
            &&& offset <= 3 * record::encoded_all(all).len()
            &&& super::index_bytes(super::entry_views(index@)).len() <= record::encoded_all(all).len()
            &&& blocks_fit(super::blocks(all))
        },
        final(w).file().place() == old(w).file().place(),
        final(w).file().syncs() == old(w).file().syncs(),
        r matches Err(e) ==> fs::handed_on::<W>(e@) || (e@ == super::table_too_large()
            && !blocks_fit(super::blocks(record::views(records@)))),
{
    let ghost all = record::views(records@);
    let ghost mut parts: Seq<Seq<u8>> = Seq::empty();
    let ghost mut done: Seq<Seq<RecordView>> = Seq::empty();
    let n: usize = records.len();
    let mut index: Vec<IndexEntry> = Vec::new();
    let mut offset: u64 = 0;
    let mut start: usize = 0;
    proof {
        assert(done + super::blocks(all) =~= super::blocks(all));
        assert(super::entry_views(index@) =~= super::index_of(done, parts));
        assert(all.take(0) =~= Seq::empty());
    }
    while start < n
        invariant
            start <= n == records@.len(),
            all == record::views(records@),
            record::encoded_all(all).len() <= super::table_limit(),
            super::blocks(all) == done + super::blocks_from(all, start as int),
            super::stores(parts, done),
            blocks_fit(done),
            w.file().place() == old(w).file().place(),
            w.file().syncs() == old(w).file().syncs(),
            w.written() == super::joined(parts),
            offset == super::joined(parts).len(),
            super::entry_views(index@) == super::index_of(done, parts),
            offset <= 3 * record::encoded_all(all.take(start as int)).len(),
            super::index_bytes(super::entry_views(index@)).len() <= record::encoded_all(
                all.take(start as int),
            ).len(),
        decreases n - start,
    {
        let mut block: Vec<u8> = Vec::new();
        let e: usize = encode_block(records, start, &mut block);
        let ghost these = all.subrange(start as int, e as int);
        proof {
            block_lengths(all, start as int, e as int);
        }
        if block.len() > usize::MAX / 110 {
            assert(super::blocks(all)[done.len() as int] == these);
            return Err(Error::bad_format("a table of this size cannot be written"));
        }
        let part = lz4::compress(block.as_slice());
        match w.write(part.as_slice()) {
            Ok(()) => {},
            Err(e) => return Err(Error::Io(e)),
        }
        let entry = IndexEntry {
            key: bytes::copy(records[start].key.as_slice()),
            offset,
            len: bytes::low_u32(part.len()),
        };
        let ghost index_before = index@;
        index.push(entry);
        offset = offset + part.len() as u64;
        proof {
            joined_push(parts, part@);
            index_of_push(done, parts, these, part@);
            assert(super::entry_views(index@) =~= super::entry_views(index_before).push(entry@));
            assert(entry@.key == these[0].key);
            assert(super::entry_views(index@) == super::index_of(done.push(these), parts.push(part@)));
            assert(super::entry_views(index@).drop_last() =~= super::entry_views(index_before));
            laws::entry_len(entry@);
            let rest = super::blocks_from(all, e as int);
            assert(done + (seq![these] + rest) =~= done.push(these) + rest);
            stores_push(parts, done, part@, these);
            assert(blocks_fit(done.push(these))) by {
                assert forall|i: int| 0 <= i < done.push(these).len() implies record::encoded_all(
                    #[trigger] done.push(these)[i],
                ).len() <= super::block_limit() by {
                    if i < done.len() {
                        assert(done.push(these)[i] == done[i]);
                    }
                }
            }
            parts = parts.push(part@);
            done = done.push(these);
        }
        start = e;
    }
    proof {
        assert(done + Seq::empty() =~= done);
        assert(all.take(n as int) =~= all);
    }
    Ok((index, offset, Ghost(parts)))
}

/// Whether the compressor can take each of these blocks.
spec fn blocks_fit(bs: Seq<Seq<RecordView>>) -> bool {
    forall|i: int|
        0 <= i < bs.len() ==> record::encoded_all(#[trigger] bs[i]).len() <= super::block_limit()
}

/// The lengths of a block, of the records before it and of all records.
proof fn block_lengths(all: Seq<RecordView>, start: int, e: int)
    requires
        0 <= start < e <= all.len(),
    ensures
        record::encoded_all(all.take(e)).len() == record::encoded_all(all.take(start)).len()
            + record::encoded_all(all.subrange(start, e)).len(),
        record::encoded_all(all.take(e)).len() <= record::encoded_all(all).len(),
        record::encoded_all(all.subrange(start, e)).len() >= 17 + all[start].key.len(),
{
    let these = all.subrange(start, e);
    assert(all.take(e) =~= all.take(start) + these);
    record::encoded_all_concat(all.take(start), these);
    assert(all =~= all.take(e) + all.skip(e));
    record::encoded_all_concat(all.take(e), all.skip(e));
    assert(these =~= seq![these[0]] + these.drop_first());
    record::encoded_all_concat(seq![these[0]], these.drop_first());
    record::encoded_all_single(these[0]);
    record::encoded_size(these[0]);
}

/// The bytes of an index.
fn encode_index(index: &Vec<IndexEntry>) -> (out: Vec<u8>)
    ensures
        out@ == super::index_bytes(super::entry_views(index@)),
{
    let ghost entries = super::entry_views(index@);
    let mut out: Vec<u8> = Vec::new();
    let n: usize = index.len();
    let mut i: usize = 0;
    proof {
        assert(entries.take(0) =~= Seq::empty());
        assert(out@ =~= super::index_bytes(entries.take(0)));
    }
    while i < n
        invariant
            i <= n == index@.len(),
            entries == super::entry_views(index@),
            out@ == super::index_bytes(entries.take(i as int)),
        decreases n - i,
    {
        bytes::push_u32(&mut out, bytes::low_u32(index[i].key.len()));
        bytes::append(&mut out, index[i].key.as_slice());
        bytes::push_u64(&mut out, index[i].offset);
        bytes::push_u32(&mut out, index[i].len);
        proof {
            assert(entries.take(i + 1).drop_last() =~= entries.take(i as int));
            assert(entries.take(i + 1).last() == index@[i as int]@);
            assert(out@ =~= super::index_bytes(entries.take(i + 1)));
        }
        i += 1;
    }
    assert(entries.take(n as int) =~= entries);
    out
}

/// What stands behind the blocks of a table: the index, the filter and the footer.
fn encode_tail(
    records: &[Record],
    index: &Vec<IndexEntry>,
    index_offset: u64,
    Ghost(parts): Ghost<Seq<Seq<u8>>>,
) -> (out: Vec<u8>)
    requires
        records@.len() <= super::count_limit(),
        super::entry_views(index@) == super::index_of(
            super::blocks(record::views(records@)),
            parts,
        ),
        index_offset == super::joined(parts).len(),
        index_offset + super::index_bytes(super::entry_views(index@)).len() <= u64::MAX,
    ensures
        out@ == super::table_tail(record::views(records@), parts),
{
    let mut out = encode_index(index);
    let bloom_offset: u64 = index_offset + out.len() as u64;
    let bloom = build_filter(records);
    let bloom_bytes = bloom.encode();
    bytes::append(&mut out, bloom_bytes.as_slice());
    bytes::push_u64(&mut out, index_offset);
    bytes::push_u32(&mut out, bytes::low_u32(index.len()));
    bytes::push_u64(&mut out, bloom_offset);
    bytes::push_u64(&mut out, bloom_bytes.len() as u64);
    bytes::push_u64(&mut out, records.len() as u64);
    bytes::push_u32(&mut out, FORMAT_VERSION);
    bytes::append(&mut out, MAGIC.as_slice());
    assert(out@ =~= super::table_tail(record::views(records@), parts));
    out
}

/// Streams sorted records into a new table.
pub struct SsTableWriter;

impl SsTableWriter {
    /// Write records, which must be sorted, to a new file at `path`. Returns how
    /// many there are.
    ///
    /// The file is written once and then put down: nothing else is done.
    pub fn write<F: Fs, V: Volume<F>>(fs: V, path: &str, records: &[Record]) -> (r: Result<u64>)
        ensures
            r matches Ok(n) ==> n == records@.len() && super::is_stored::<F>(
                path@,
                record::views(records@),
            ),
            r is Ok ==> super::is_writable(record::views(records@)),
            r is Ok ==> super::was_written::<F>(path@, record::views(records@)),
            r is Err ==> exists|done: Seq<Change>| #[trigger]
                disk::ended::<F>(done) && disk::confined(done, set![path@]),
            r matches Err(e) ==> super::unwritten::<F::File>(record::views(records@), e@),
    {
        let mut disk = fs.mount();
        let r = Self::write_on(&mut disk, path, records);
        let ghost done = disk.changes();
        disk.finish();
        proof {
            assert(disk::ended::<F>(done));
            if r is Ok {
                let file = choose|file: Seq<u8>|
                    done == Seq::<Change>::empty() + #[trigger] super::written_as(path@, file)
                        && super::is_table(file, record::views(records@));
                assert(done =~= super::written_as(path@, file));
            } else {
                assert(done.skip(0) =~= done);
            }
        }
        r
    }

    /// Write records, which must be sorted, to a new file at `path`, and put it
    /// down. Returns how many there are.
    pub(crate) fn write_on<H: Holder>(disk: &mut Disk<H>, path: &str, records: &[Record]) -> (r:
        Result<u64>)
        ensures
            r matches Ok(n) ==> n == records@.len() && super::is_stored::<H::F>(
                path@,
                record::views(records@),
            ),
            r is Ok ==> super::is_writable(record::views(records@)),
            r is Ok ==> super::wrote(
                old(disk).changes(),
                final(disk).changes(),
                path@,
                record::views(records@),
            ),
            disk::went_on(old(disk).changes(), final(disk).changes(), set![path@]),
            disk::is_scratch(path@) ==> disk::went_softly(
                old(disk).changes(),
                final(disk).changes(),
            ),
            r matches Err(e) ==> super::unwritten::<<H::F as Fs>::File>(
                record::views(records@),
                e@,
            ),
    {
        let ghost before = disk.changes();
        proof {
            disk::went_nowhere(before, set![path@]);
            if disk::is_scratch(path@) {
                disk::went_softly_once(
                    before,
                    before,
                    Change::Opened { path: path@, mode: OpenMode::Truncate },
                );
            }
            disk::went_on_once(
                before,
                before,
                Change::Opened { path: path@, mode: OpenMode::Truncate },
                set![path@],
            );
        }
        let file = match disk.open(path, OpenMode::Truncate) {
            Ok(f) => f,
            Err(e) => return Err(Error::Io(e)),
        };
        let mut w = BufAppend::new(file);
        assert(w.written() =~= Seq::empty());
        let r = Self::write_to(&mut w, records);
        let file = w.into_file();
        let ghost left = file.contents();
        let ghost mid = disk.changes();
        disk.close(file);
        proof {
            if disk::is_scratch(path@) {
                disk::went_softly_once(
                    before,
                    mid,
                    Change::Closed { path: path@, bytes: left },
                );
            }
            disk::went_on_once(
                before,
                mid,
                Change::Closed { path: path@, bytes: left },
                set![path@],
            );
            assert(disk.changes() =~= before + super::written_as(path@, left));
        }
        r
    }

    /// Write records, which must be sorted, to an empty file, and make the file
    /// durable. Returns how many there are. Records that a table cannot hold are
    /// refused.
    pub fn write_to<W: File>(w: &mut BufAppend<W>, records: &[Record]) -> (r: Result<u64>)
        requires
            old(w).written() == Seq::<u8>::empty(),
        ensures
            r matches Ok(n) ==> {
                &&& n == records@.len()
                &&& super::is_table(final(w).file().contents(), record::views(records@))
                &&& W::synced(old(w).file().place(), final(w).file().contents())
                &&& final(w).file().syncs() == old(w).file().syncs().push(
                    (SyncMode::Durable, final(w).file().contents()),
                )
                &&& final(w).buffered() == Seq::<u8>::empty()
            },
            r is Ok ==> super::is_writable(record::views(records@)),
            r matches Err(e) ==> super::unwritten::<W>(record::views(records@), e@),
            final(w).file().place() == old(w).file().place(),
    {
        let ghost all = record::views(records@);
        if records.len() > usize::MAX / 16 || record::encoded_total(
            records,
            (u64::MAX / 8) as u128,
        ).is_none() {
            return Err(Error::bad_format("a table of this size cannot be written"));
        }
        proof {
            record::encoded_all_bounds(all);
        }
        let (index, index_offset, Ghost(parts)) = write_blocks(w, records)?;
        let out = encode_tail(records, &index, index_offset, Ghost(parts));
        match w.write(out.as_slice()) {
            Ok(()) => {},
            Err(e) => return Err(Error::Io(e)),
        }
        assert(w.written() =~= super::table_bytes(all, parts));
        match w.sync() {
            Ok(()) => {},
            Err(e) => return Err(Error::Io(e)),
        }
        assert(super::is_table(w.file().contents(), all)) by {
            assert(w.file().contents() == super::table_bytes(all, parts));
        }
        Ok(records.len() as u64)
    }
}

} // verus!
