//! Table: an immutable, sorted run of records in a file.
//!
//! ```text
//! [data block]...  records, compressed; some 4 KiB of them per block
//! [index]          per block: [first_key_len:4][first_key][block_offset:8][block_len:4]
//! [bloom]          the filter's bytes
//! [footer]         [index_offset:8][index_entries:4][bloom_offset:8]
//!                  [bloom_len:8][record_count:8][format_version:4][magic:4]
//! ```
//!
//! A lookup asks the filter, finds the one block that can hold the key by its
//! first key, and looks through that block.

use vstd::prelude::*;

use crate::bloom::BloomView;
use crate::bytes;
use crate::disk;
use crate::disk::Change;
use crate::error::{ErrorView, IoErrorKind, IoErrorView};
use crate::fs;
use crate::fs::{File, Fs, OpenMode};
use crate::lz4;
use crate::memtable;
use crate::record;
use crate::record::RecordView;
use crate::versions;

pub mod laws;
pub mod reader;
pub mod writer;

pub use self::reader::SsTableReader;
pub use self::writer::SsTableWriter;

verus! {

/// Marks the end of a table: `LSM2`.
pub const MAGIC: &'static [u8; 4] = &[76, 83, 77, 50];

/// The format that this build writes.
pub const FORMAT_VERSION: u32 = 2;

/// Bytes in the footer.
pub const FOOTER_LEN: usize = 44;

/// From this many bytes on a block is closed.
pub const BLOCK_SIZE: usize = 4096;

/// How many blocks each reader keeps expanded.
pub const BLOCK_CACHE_CAP: usize = 64;

/// How many bits the filter sets per key. For one false positive in a hundred a
/// filter has 9.585 bits per key, and that many times the natural logarithm of
/// two is 7 to the nearest.
pub const BLOOM_HASHES: u32 = 7;

// ------------------------------------------------------------------ blocks
/// Whether a block of the records from `start` up to `e` is closed before
/// record `e`: it is large enough, and `e` is of another key. The versions of
/// one key never part, because a lookup reads one block.
pub open spec fn closes(records: Seq<RecordView>, start: int, e: int) -> bool {
    &&& start < e
    &&& record::encoded_all(records.subrange(start, e)).len() >= BLOCK_SIZE
    &&& records[e].key != records[e - 1].key
}

/// Where the block that starts at `start` and reaches to `e` at least ends.
pub open spec fn block_end(records: Seq<RecordView>, start: int, e: int) -> int
    decreases records.len() - e,
{
    if e >= records.len() {
        records.len() as int
    } else if closes(records, start, e) {
        e
    } else {
        block_end(records, start, e + 1)
    }
}

/// The blocks of the records from `start` on.
pub open spec fn blocks_from(records: Seq<RecordView>, start: int) -> Seq<Seq<RecordView>>
    decreases records.len() - start,
{
    if start < 0 || start >= records.len() {
        Seq::empty()
    } else {
        proof {
            laws::block_end_bounds(records, start, start + 1);
        }
        let e = block_end(records, start, start + 1);
        seq![records.subrange(start, e)] + blocks_from(records, e)
    }
}

/// The blocks of a table.
pub open spec fn blocks(records: Seq<RecordView>) -> Seq<Seq<RecordView>> {
    blocks_from(records, 0)
}

/// All records of blocks, in order.
pub open spec fn flat(blocks: Seq<Seq<RecordView>>) -> Seq<RecordView>
    decreases blocks.len(),
{
    if blocks.len() == 0 {
        Seq::empty()
    } else {
        blocks[0] + flat(blocks.drop_first())
    }
}

// ------------------------------------------------------------------- index
/// Where a block is: its first key, its offset and its length in the file.
#[verifier::ext_equal]
pub struct EntryView {
    pub key: Seq<u8>,
    pub offset: u64,
    pub len: u32,
}

impl EntryView {
    /// The bytes of the entry.
    pub open spec fn encoded(self) -> Seq<u8> {
        bytes::le(self.key.len() % 0x1_0000_0000, 4) + self.key + bytes::le(
            self.offset as nat,
            8,
        ) + bytes::le(self.len as nat, 4)
    }
}

/// The bytes of entries, one behind the other.
pub open spec fn index_bytes(index: Seq<EntryView>) -> Seq<u8>
    decreases index.len(),
{
    if index.len() == 0 {
        Seq::empty()
    } else {
        index_bytes(index.drop_last()) + index.last().encoded()
    }
}

/// The failure of an index that ends too soon.
pub open spec fn index_truncated() -> ErrorView {
    ErrorView::Corrupt("sstable index truncated"@)
}

/// The entry at `pos` and where it ends, or that there is none.
pub open spec fn entry_at(buf: Seq<u8>, pos: int) -> core::result::Result<
    (EntryView, int),
    ErrorView,
> {
    if pos + 4 > buf.len() {
        Err(index_truncated())
    } else {
        let key_end = pos + 4 + bytes::from_le(buf.subrange(pos, pos + 4));
        if key_end + 12 > buf.len() {
            Err(index_truncated())
        } else {
            Ok(
                (
                    EntryView {
                        key: buf.subrange(pos + 4, key_end),
                        offset: bytes::from_le(buf.subrange(key_end, key_end + 8)) as u64,
                        len: bytes::from_le(buf.subrange(key_end + 8, key_end + 12)) as u32,
                    },
                    key_end + 12,
                ),
            )
        }
    }
}

/// The `n` entries from `pos` on, or that there are not as many.
pub open spec fn entries_at(buf: Seq<u8>, pos: int, n: nat) -> core::result::Result<
    Seq<EntryView>,
    ErrorView,
>
    decreases n,
{
    if n == 0 {
        Ok(Seq::empty())
    } else {
        match entry_at(buf, pos) {
            Err(e) => Err(e),
            Ok((entry, end)) => match entries_at(buf, end, (n - 1) as nat) {
                Err(e) => Err(e),
                Ok(rest) => Ok(seq![entry] + rest),
            },
        }
    }
}

// ---------------------------------------------------------------- the file
/// How many bits the filter has for `n` keys: 9.585 per key, and for one key at
/// least.
pub open spec fn filter_bits(n: nat) -> nat {
    let m: nat = if n == 0 {
        1
    } else {
        n
    };
    (m * 9_585_058_377_367_439 + 999_999_999_999_999) / 1_000_000_000_000_000
}

/// A filter with the keys of records put in.
pub open spec fn filter_with(v: BloomView, records: Seq<RecordView>) -> BloomView
    decreases records.len(),
{
    if records.len() == 0 {
        v
    } else {
        filter_with(v, records.drop_last()).with(records.last().key)
    }
}

/// The filter of a table.
pub open spec fn filter_of(records: Seq<RecordView>) -> BloomView {
    filter_with(
        BloomView::empty(filter_bits(records.len()) as u64, BLOOM_HASHES),
        records,
    )
}

/// Byte strings, one behind the other.
pub open spec fn joined(parts: Seq<Seq<u8>>) -> Seq<u8>
    decreases parts.len(),
{
    if parts.len() == 0 {
        Seq::empty()
    } else {
        joined(parts.drop_last()) + parts.last()
    }
}

/// The index of these blocks, stored as `parts`.
pub open spec fn index_of(
    blocks: Seq<Seq<RecordView>>,
    parts: Seq<Seq<u8>>,
) -> Seq<EntryView> {
    Seq::new(
        blocks.len(),
        |i: int|
            EntryView {
                key: blocks[i][0].key,
                offset: joined(parts.take(i)).len() as u64,
                len: (parts[i].len() % 0x1_0000_0000) as u32,
            },
    )
}

/// The footer.
pub open spec fn footer_bytes(
    index_offset: nat,
    entries: nat,
    bloom_offset: nat,
    bloom_len: nat,
    count: nat,
) -> Seq<u8> {
    bytes::le(index_offset, 8) + bytes::le(entries % 0x1_0000_0000, 4) + bytes::le(
        bloom_offset,
        8,
    ) + bytes::le(bloom_len, 8) + bytes::le(count, 8) + bytes::le(FORMAT_VERSION as nat, 4)
        + MAGIC@
}

/// What stands behind the blocks of a table: the index, the filter and the
/// footer.
pub open spec fn table_tail(records: Seq<RecordView>, parts: Seq<Seq<u8>>) -> Seq<u8> {
    let data = joined(parts);
    let index = index_of(blocks(records), parts);
    let bloom = filter_of(records).encoded();
    index_bytes(index) + bloom + footer_bytes(
        data.len(),
        index.len(),
        data.len() + index_bytes(index).len(),
        bloom.len(),
        records.len(),
    )
}

/// The bytes of a table of these records, with its blocks stored as `parts`.
pub open spec fn table_bytes(records: Seq<RecordView>, parts: Seq<Seq<u8>>) -> Seq<u8> {
    joined(parts) + table_tail(records, parts)
}

/// Whether `parts` are the blocks of the records, compressed.
pub open spec fn stores(parts: Seq<Seq<u8>>, blocks: Seq<Seq<RecordView>>) -> bool {
    &&& parts.len() == blocks.len()
    &&& forall|i: int|
        0 <= i < parts.len() ==> lz4::compresses(
            #[trigger] parts[i],
            record::encoded_all(blocks[i]),
        ) && parts[i].len() <= 24 + record::encoded_all(blocks[i]).len() + record::encoded_all(
            blocks[i],
        ).len() / 255
}

/// Whether a file is a table of these records.
pub open spec fn is_table(file: Seq<u8>, records: Seq<RecordView>) -> bool {
    exists|parts: Seq<Seq<u8>>|
        stores(parts, blocks(records)) && file == #[trigger] table_bytes(records, parts)
}

/// The most bytes that the records of a block can take: beyond, the compressor
/// cannot say how large a buffer it needs.
pub open spec fn block_limit() -> nat {
    (usize::MAX / 110) as nat
}

/// The most bytes that the records of a table can take: beyond, an offset in it
/// might not fit in 64 bits.
pub open spec fn table_limit() -> nat {
    (u64::MAX / 8) as nat
}

/// The most records that a table can hold: beyond, its filter might not fit in
/// memory.
pub open spec fn count_limit() -> nat {
    (usize::MAX / 16) as nat
}

/// Whether a table of these records can be written.
pub open spec fn is_writable(records: Seq<RecordView>) -> bool {
    &&& record::encoded_all(records).len() <= table_limit()
    &&& records.len() <= count_limit()
    &&& forall|i: int|
        0 <= i < blocks(records).len() ==> record::encoded_all(
            #[trigger] blocks(records)[i],
        ).len() <= block_limit()
}

/// Where a block is.
#[derive(Debug)]
pub struct IndexEntry {
    key: Vec<u8>,
    offset: u64,
    len: u32,
}

impl View for IndexEntry {
    type V = EntryView;

    closed spec fn view(&self) -> EntryView {
        EntryView { key: self.key@, offset: self.offset, len: self.len }
    }
}

/// The content of an index.
pub open spec fn entry_views(index: Seq<IndexEntry>) -> Seq<EntryView> {
    index.map_values(|e: IndexEntry| e@)
}

/// The refusal of records that a table cannot hold.
pub open spec fn table_too_large() -> ErrorView {
    ErrorView::BadFormat("a table of this size cannot be written"@)
}

/// Whether an error is one that writing these records to a table can end in: the
/// filesystem's, or that a table cannot hold them.
pub open spec fn unwritten<W: File>(records: Seq<RecordView>, e: ErrorView) -> bool {
    ||| fs::handed_on::<W>(e)
    ||| !is_writable(records) && e == table_too_large()
}

/// Whether a table of these records was made durable in a file at this path.
pub open spec fn is_stored<F: Fs>(path: Seq<char>, records: Seq<RecordView>) -> bool {
    exists|file: Seq<u8>| #[trigger] F::File::synced(path, file) && is_table(file, records)
}

/// What is done to write a file: it is opened at its path to be written from the
/// start, and put down with these bytes in it.
pub open spec fn written_as(path: Seq<char>, file: Seq<u8>) -> Seq<Change> {
    seq![
        Change::Opened { path, mode: OpenMode::Truncate },
        Change::Closed { path, bytes: file },
    ]
}

/// Whether all that was done since is that a table of these records was written to
/// this path.
pub open spec fn wrote(
    before: Seq<Change>,
    now: Seq<Change>,
    path: Seq<char>,
    records: Seq<RecordView>,
) -> bool {
    exists|file: Seq<u8>|
        now == before + #[trigger] written_as(path, file) && is_table(file, records)
}

/// Whether one piece of work was to write a table of these records to this path, and
/// nothing else.
pub open spec fn was_written<F: Fs>(path: Seq<char>, records: Seq<RecordView>) -> bool {
    exists|file: Seq<u8>|
        disk::ended::<F>(#[trigger] written_as(path, file)) && is_table(file, records)
}

// ----------------------------------------------------------------- reading
/// What a reader keeps in memory of a table.
pub struct TableView {
    pub index: Seq<EntryView>,
    pub bloom: BloomView,
    pub record_count: u64,
}

/// The parts of a table, or why the file is none.
pub open spec fn parsed(file: Seq<u8>) -> core::result::Result<TableView, ErrorView> {
    let start = file.len() - FOOTER_LEN;
    let footer = file.skip(start);
    let index_offset = bytes::from_le(footer.subrange(0, 8));
    let entries = bytes::from_le(footer.subrange(8, 12));
    let bloom_offset = bytes::from_le(footer.subrange(12, 20));
    let bloom_len = bytes::from_le(footer.subrange(20, 28));
    let count = bytes::from_le(footer.subrange(28, 36));
    if file.len() < FOOTER_LEN {
        Err(ErrorView::BadFormat("file smaller than footer"@))
    } else if footer.subrange(40, 44) != MAGIC@ {
        Err(ErrorView::BadFormat("bad magic (expected LSM2)"@))
    } else if index_offset > bloom_offset || bloom_offset + bloom_len > start {
        Err(ErrorView::BadFormat("footer offsets out of range"@))
    } else {
        match entries_at(file.subrange(index_offset as int, bloom_offset as int), 0, entries) {
            Err(e) => Err(e),
            Ok(index) => match BloomView::decoded(
                file.subrange(bloom_offset as int, (bloom_offset + bloom_len) as int),
            ) {
                Err(e) => Err(e),
                Ok(bloom) => Ok(TableView { index, bloom, record_count: count as u64 }),
            },
        }
    }
}

/// The failure of a read beyond the end of a file.
pub open spec fn file_ended() -> ErrorView {
    ErrorView::Io(
        IoErrorView {
            kind: IoErrorKind::UnexpectedEof,
            message: "file ended before the requested bytes"@,
        },
    )
}

/// The records of the block at `offset`, or why it cannot be read.
pub open spec fn loaded(file: Seq<u8>, offset: u64, len: u32) -> core::result::Result<
    Seq<RecordView>,
    ErrorView,
> {
    if len > 0 && offset + len > file.len() {
        Err(file_ended())
    } else {
        let block = if len == 0 {
            Seq::empty()
        } else {
            file.subrange(offset as int, offset + len)
        };
        match lz4::expansion(block) {
            Err(m) => Err(ErrorView::Corrupt("block decompression failed: "@ + m)),
            Ok(raw) => record::decoded_all(raw, 0),
        }
    }
}

/// What a lookup finds in a block: the first record of the key below the bound,
/// up to the first greater key.
pub open spec fn found_in(block: Seq<RecordView>, key: Seq<u8>, bound: u64) -> Option<RecordView>
    decreases block.len(),
{
    if block.len() == 0 {
        None
    } else if versions::visible(block[0], key, bound) {
        Some(block[0])
    } else if bytes::lex_lt(key, block[0].key) {
        None
    } else {
        found_in(block.drop_first(), key, bound)
    }
}

/// The first record of a key in a block, up to the first greater key.
pub open spec fn first_in(block: Seq<RecordView>, key: Seq<u8>) -> Option<RecordView>
    decreases block.len(),
{
    if block.len() == 0 {
        None
    } else if block[0].key == key {
        Some(block[0])
    } else if bytes::lex_lt(key, block[0].key) {
        None
    } else {
        first_in(block.drop_first(), key)
    }
}

/// Whether the first keys of the blocks ascend, as in every table that was
/// written from sorted records.
pub open spec fn index_ascends(index: Seq<EntryView>) -> bool {
    forall|i: int, j: int|
        0 <= i < j < index.len() ==> bytes::lex_lt(
            (#[trigger] index[i]).key,
            (#[trigger] index[j]).key,
        )
}

/// The block that can hold a key: the last one that does not start behind it.
pub open spec fn block_for(index: Seq<EntryView>, key: Seq<u8>) -> Option<int>
    decreases index.len(),
{
    if index.len() == 0 {
        None
    } else if !bytes::lex_lt(key, index.last().key) {
        Some(index.len() - 1)
    } else {
        block_for(index.drop_last(), key)
    }
}

/// What a lookup in a table gives.
pub open spec fn looked_up(
    file: Seq<u8>,
    table: TableView,
    use_bloom: bool,
    key: Seq<u8>,
    bound: u64,
) -> core::result::Result<Option<RecordView>, ErrorView> {
    if table.index.len() == 0 || (use_bloom && !table.bloom.may_have(key)) {
        Ok(None)
    } else {
        match block_for(table.index, key) {
            None => Ok(None),
            Some(i) => match loaded(file, table.index[i].offset, table.index[i].len) {
                Err(e) => Err(e),
                Ok(block) => Ok(found_in(block, key, bound)),
            },
        }
    }
}

/// The block that a lookup of a key in a table reads, if it reads one.
pub open spec fn block_read(
    file: Seq<u8>,
    table: TableView,
    use_bloom: bool,
    key: Seq<u8>,
) -> core::result::Result<Option<Seq<RecordView>>, ErrorView> {
    if table.index.len() == 0 || (use_bloom && !table.bloom.may_have(key)) {
        Ok(None)
    } else {
        match block_for(table.index, key) {
            None => Ok(None),
            Some(i) => match loaded(file, table.index[i].offset, table.index[i].len) {
                Err(e) => Err(e),
                Ok(block) => Ok(Some(block)),
            },
        }
    }
}

/// What a lookup of the newest record of a key in a table gives.
pub open spec fn newest_in(
    file: Seq<u8>,
    table: TableView,
    use_bloom: bool,
    key: Seq<u8>,
) -> core::result::Result<Option<RecordView>, ErrorView> {
    match block_read(file, table, use_bloom, key) {
        Err(e) => Err(e),
        Ok(None) => Ok(None),
        Ok(Some(block)) => Ok(first_in(block, key)),
    }
}

/// The records of all blocks of an index, in order, or what is wrong with the
/// first that cannot be read.
pub open spec fn all_records(file: Seq<u8>, index: Seq<EntryView>) -> core::result::Result<
    Seq<RecordView>,
    ErrorView,
>
    decreases index.len(),
{
    if index.len() == 0 {
        Ok(Seq::empty())
    } else {
        match all_records(file, index.drop_last()) {
            Err(e) => Err(e),
            Ok(records) => match loaded(file, index.last().offset, index.last().len) {
                Err(e) => Err(e),
                Ok(block) => Ok(records + block),
            },
        }
    }
}

/// How many blocks start before a key.
pub open spec fn blocks_before(index: Seq<EntryView>, key: Seq<u8>) -> int
    decreases index.len(),
{
    if index.len() == 0 {
        0
    } else if bytes::lex_lt(index.last().key, key) {
        index.len() as int
    } else {
        blocks_before(index.drop_last(), key)
    }
}

/// The blocks that can hold keys of a range: from the one that can hold its
/// start up to the last that starts before its end.
pub open spec fn blocks_in_range(
    index: Seq<EntryView>,
    start: Option<Seq<u8>>,
    end: Option<Seq<u8>>,
) -> Seq<EntryView> {
    let from = match start {
        Some(k) => match block_for(index, k) {
            Some(i) => i,
            None => 0,
        },
        None => 0,
    };
    let to = match end {
        Some(k) => blocks_before(index, k),
        None => index.len() as int,
    };
    if from < to {
        index.subrange(from, to)
    } else {
        Seq::empty()
    }
}

/// The records of a block that lie in a key range, or the block's failure.
pub open spec fn block_items(
    file: Seq<u8>,
    entry: EntryView,
    start: Option<Seq<u8>>,
    end: Option<Seq<u8>>,
) -> Seq<core::result::Result<RecordView, ErrorView>> {
    match loaded(file, entry.offset, entry.len) {
        Err(e) => seq![Err(e)],
        Ok(records) => records.filter(
            |r: RecordView| memtable::in_range(r, start, end),
        ).map_values(|r: RecordView| Ok::<RecordView, ErrorView>(r)),
    }
}

/// The records of blocks that lie in a key range, block by block.
pub open spec fn range_items(
    file: Seq<u8>,
    index: Seq<EntryView>,
    start: Option<Seq<u8>>,
    end: Option<Seq<u8>>,
) -> Seq<core::result::Result<RecordView, ErrorView>>
    decreases index.len(),
{
    if index.len() == 0 {
        Seq::empty()
    } else {
        block_items(file, index[0], start, end) + range_items(file, index.drop_first(), start, end)
    }
}

// -------------------------------------------------------------------- laws
/// Whether a table can hold these records so that they are read back: they are
/// in order of their keys, no length is too long for the bits that hold it, and
/// no block is too large for the compressor.
pub open spec fn storable(records: Seq<RecordView>) -> bool {
    &&& versions::key_sorted(records)
    &&& record::all_fit(records)
    &&& record::encoded_all(records).len() <= table_limit()
    &&& records.len() <= count_limit()
    &&& blocks(records).len() < 0x1_0000_0000
    &&& forall|i: int|
        0 <= i < blocks(records).len() ==> record::encoded_all(
            #[trigger] blocks(records)[i],
        ).len() <= lz4::MAX_BLOCK
}

/// Where the blocks that can hold keys of a range start and end.
pub open spec fn range_bounds(
    index: Seq<EntryView>,
    start: Option<Seq<u8>>,
    end: Option<Seq<u8>>,
) -> (int, int) {
    let from = match start {
        Some(k) => match block_for(index, k) {
            Some(i) => i,
            None => 0,
        },
        None => 0,
    };
    let to = match end {
        Some(k) => blocks_before(index, k),
        None => index.len() as int,
    };
    (
        from,
        if from < to {
            to
        } else {
            from
        },
    )
}

} // verus!
