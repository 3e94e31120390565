//! Reading tables.

use std::collections::{HashMap, VecDeque};
use std::sync::Arc;
use vstd::prelude::*;
use vstd::rwlock::{RwLock, RwLockPredicate};

use super::{BLOCK_CACHE_CAP, EntryView, FOOTER_LEN, IndexEntry, MAGIC, TableView};
use crate::bloom::BloomFilter;
use crate::bytes;
use crate::bytes::Order;
use crate::disk;
use crate::disk::{Disk, Holder, Reading, Volume};
use crate::error::{Error, ErrorView, IoError, IoErrorKind, IoErrorView, Result};
use crate::fs;
use crate::fs::{File, Fs, OpenMode};
use crate::lz4;
use crate::memtable;
use crate::record;
use crate::record::{Record, RecordView};
use crate::text;

verus! {

/// A bounded first-in-first-out cache of expanded blocks, by their offset.
pub struct BlockCache {
    map: HashMap<u64, (u32, Arc<Vec<Record>>)>,
    order: VecDeque<u64>,
}

/// What a cache of the blocks of a file may hold: blocks of that file.
pub struct CachePred {
    pub file: Seq<u8>,
}

impl BlockCache {
    /// The cached blocks, by their offset, each with its length.
    pub closed spec fn blocks(&self) -> Map<u64, (u32, Seq<RecordView>)> {
        self.map@.map_values(
            |entry: (u32, Arc<Vec<Record>>)| (entry.0, record::views(entry.1@)),
        )
    }

    /// The offsets of the cached blocks, in the order in which they came.
    pub closed spec fn queue(&self) -> Seq<u64> {
        self.order@
    }

    /// Every cached block is what the file holds there, and the queue names
    /// each cached offset once.
    pub closed spec fn caches(&self, file: Seq<u8>) -> bool {
        &&& forall|o: u64| #[trigger]
            self.map@.contains_key(o) ==> super::loaded(file, o, self.map@[o].0) == Ok::<
                Seq<RecordView>,
                ErrorView,
            >(record::views(self.map@[o].1@))
        &&& self.order@.no_duplicates()
        &&& self.order@.to_set() == self.map@.dom()
        &&& self.order@.len() <= BLOCK_CACHE_CAP
    }
}

impl RwLockPredicate<BlockCache> for CachePred {
    open spec fn inv(self, v: BlockCache) -> bool {
        v.caches(self.file)
    }
}

impl BlockCache {
    /// An empty cache.
    fn new(Ghost(file): Ghost<Seq<u8>>) -> (r: BlockCache)
        ensures
            r.caches(file),
            r.blocks() == Map::<u64, (u32, Seq<RecordView>)>::empty(),
            r.queue() == Seq::<u64>::empty(),
    {
        broadcast use vstd::std_specs::hash::group_hash_axioms;

        let r = BlockCache { map: HashMap::new(), order: VecDeque::new() };
        assert(r.order@.to_set() =~= r.map@.dom());
        assert(r.blocks() =~= Map::empty());
        r
    }

    /// The block of this length at this offset, if it is cached.
    fn get(&self, offset: u64, len: u32, Ghost(file): Ghost<Seq<u8>>) -> (r: Option<
        Arc<Vec<Record>>,
    >)
        requires
            self.caches(file),
        ensures
            match r {
                Some(b) => self.blocks().contains_key(offset) && self.blocks()[offset] == (
                    len,
                    record::views(b@),
                ),
                None => !(self.blocks().contains_key(offset) && self.blocks()[offset].0 == len),
            },
            r matches Some(b) ==> super::loaded(file, offset, len) == Ok::<Seq<RecordView>, ErrorView>(
                record::views(b@),
            ),
    {
        broadcast use vstd::std_specs::hash::group_hash_axioms;

        match self.map.get(&offset) {
            Some(entry) => if entry.0 == len {
                Some(entry.1.clone())
            } else {
                None
            },
            None => None,
        }
    }

    /// Cache a block. A full cache forgets the block that it has had longest; a
    /// block that is there stays.
    fn put(&mut self, offset: u64, len: u32, block: Arc<Vec<Record>>, Ghost(file): Ghost<Seq<u8>>)
        requires
            old(self).caches(file),
            super::loaded(file, offset, len) == Ok::<Seq<RecordView>, ErrorView>(record::views(block@)),
        ensures
            final(self).caches(file),
            ({
                let blocks = old(self).blocks();
                let queue = old(self).queue();
                let full = queue.len() >= BLOCK_CACHE_CAP;
                let entry = (len, record::views(block@));
                if blocks.contains_key(offset) {
                    final(self).blocks() == blocks && final(self).queue() == queue
                } else if full {
                    &&& final(self).blocks() == blocks.remove(queue[0]).insert(offset, entry)
                    &&& final(self).queue() == queue.drop_first().push(offset)
                } else {
                    &&& final(self).blocks() == blocks.insert(offset, entry)
                    &&& final(self).queue() == queue.push(offset)
                }
            }),
    {
        broadcast use vstd::std_specs::hash::group_hash_axioms;

        if self.map.contains_key(&offset) {
            return;
        }
        if self.order.len() >= BLOCK_CACHE_CAP {
            let ghost before = self.order@;
            match self.order.pop_front() {
                Some(evicted) => {
                    self.map.remove(&evicted);
                    proof {
                        let rest = before.drop_first();
                        assert(self.order@ =~= rest);
                        assert(before =~= seq![evicted] + rest);
                        assert forall|x: u64| rest.to_set().contains(x) <==> before.to_set().remove(
                            evicted,
                        ).contains(x) by {
                            if rest.contains(x) {
                                let i = choose|i: int| 0 <= i < rest.len() && rest[i] == x;
                                assert(before[i + 1] == x);
                                assert(before[0] != before[i + 1]);
                            }
                            if before.contains(x) && x != evicted {
                                let i = choose|i: int| 0 <= i < before.len() && before[i] == x;
                                assert(rest[i - 1] == x);
                            }
                        }
                        assert(rest.to_set() =~= before.to_set().remove(evicted));
                    }
                },
                None => {},
            }
        }
        let ghost order_before = self.order@;
        assert(!order_before.to_set().contains(offset));
        self.map.insert(offset, (len, block));
        self.order.push_back(offset);
        proof {
            assert(self.order@ =~= order_before.push(offset));
            order_before.lemma_push_to_set_commute(offset);
            assert(!order_before.contains(offset));
            assert(self.order@.to_set() =~= self.map@.dom());
            let blocks = old(self).blocks();
            let entry = (len, record::views(block@));
            if old(self).queue().len() >= BLOCK_CACHE_CAP {
                assert(self.blocks() =~= blocks.remove(old(self).queue()[0]).insert(offset, entry));
            } else {
                assert(self.blocks() =~= blocks.insert(offset, entry));
            }
        }
    }
}

/// Decode the entry at `pos` and move `pos` behind it.
fn decode_entry(buf: &[u8], pos: &mut usize) -> (r: Result<IndexEntry>)
    requires
        *old(pos) <= buf@.len(),
    ensures
        match super::entry_at(buf@, *old(pos) as int) {
            Ok((e, end)) => r is Ok && r->Ok_0@ == e && *final(pos) == end && end <= buf@.len(),
            Err(e) => r is Err && r->Err_0@ == e,
        },
{
    let p: usize = *pos;
    let total: usize = buf.len();
    if total - p < 4 {
        return Err(Error::corrupt("sstable index truncated"));
    }
    let key_len: usize = bytes::get_u32(buf, p) as usize;
    let rest: usize = total - p - 4;
    if rest < key_len || rest - key_len < 12 {
        return Err(Error::corrupt("sstable index truncated"));
    }
    let key_end: usize = p + 4 + key_len;
    let key = bytes::copy(bytes::part(buf, p + 4, key_end));
    let offset: u64 = bytes::get_u64(buf, key_end);
    let len: u32 = bytes::get_u32(buf, key_end + 8);
    *pos = key_end + 12;
    Ok(IndexEntry { key, offset, len })
}

/// Decode `n` entries.
fn decode_index(buf: &[u8], n: u32) -> (r: Result<Vec<IndexEntry>>)
    ensures
        match super::entries_at(buf@, 0, n as nat) {
            Ok(v) => r is Ok && super::entry_views(r->Ok_0@) == v,
            Err(e) => r is Err && r->Err_0@ == e,
        },
{
    let mut out: Vec<IndexEntry> = Vec::new();
    let mut pos: usize = 0;
    let mut left: u32 = n;
    while left > 0
        invariant
            left <= n,
            pos <= buf@.len(),
            match super::entries_at(buf@, pos as int, left as nat) {
                Ok(v) => super::entries_at(buf@, 0, n as nat) == Ok::<Seq<EntryView>, ErrorView>(
                    super::entry_views(out@) + v,
                ),
                Err(e) => super::entries_at(buf@, 0, n as nat) == Err::<Seq<EntryView>, ErrorView>(e),
            },
        decreases left,
    {
        let ghost before = super::entry_views(out@);
        let e = decode_entry(buf, &mut pos)?;
        out.push(e);
        left -= 1;
        proof {
            assert(super::entry_views(out@) =~= before.push(e@));
            if let Ok(v) = super::entries_at(buf@, pos as int, left as nat) {
                assert(before + (seq![e@] + v) =~= super::entry_views(out@) + v);
            }
        }
    }
    assert(super::entry_views(out@) + Seq::empty() =~= super::entry_views(out@));
    Ok(out)
}

/// Read `n` bytes at `offset`.
fn read_part<W: File>(file: &Reading<W>, offset: u64, n: u64) -> (r: Result<Vec<u8>>)
    requires
        offset + n <= file.contents().len() <= u64::MAX,
    ensures
        r matches Ok(v) ==> v@ == file.contents().subrange(offset as int, offset + n),
        r matches Err(e) ==> fs::unread::<W>(file.contents().len(), e@),
{
    if n > usize::MAX as u64 {
        return Err(
            Error::Io(IoError::new(IoErrorKind::OutOfMemory, "file does not fit in memory")),
        );
    }
    let mut buf: Vec<u8> = vec![0u8; n as usize];
    match file.read_exact_at(offset, buf.as_mut_slice()) {
        Ok(()) => {},
        Err(e) => return Err(Error::Io(e)),
    }
    assert(buf@ =~= file.contents().subrange(offset as int, offset + n));
    Ok(buf)
}

/// Whether the file at this path was once opened to be read, and opening the
/// table in it ended in this error: the file was not opened, a step on it failed,
/// or it is no table.
pub open spec fn unopened<F: Fs>(path: Seq<char>, e: ErrorView) -> bool {
    exists|answer: core::result::Result<Seq<u8>, IoErrorView>| #[trigger]
        F::answered(path, OpenMode::Read, answer) && match answer {
            Ok(file) => fs::unread::<F::File>(file.len(), e) || super::parsed(file) == Err::<
                TableView,
                ErrorView,
            >(e),
            Err(x) => e == ErrorView::Io(x),
        }
}

/// Read handle on a table. The index and the filter are in memory; blocks are
/// expanded on demand and cached.
pub struct SsTableReader<F: Fs> {
    file: Reading<F::File>,
    path: String,
    index: Vec<IndexEntry>,
    bloom: BloomFilter,
    bloom_enabled: bool,
    record_count: u64,
    cache: RwLock<BlockCache, CachePred>,
}

impl<F: Fs> SsTableReader<F> {
    /// The bytes of the file.
    pub closed spec fn contents(&self) -> Seq<u8> {
        self.file.contents()
    }

    /// Where the file is.
    pub closed spec fn path_text(&self) -> Seq<char> {
        self.path@
    }

    /// Where the file was opened.
    pub closed spec fn place(&self) -> Seq<char> {
        self.file.place()
    }

    /// Whether lookups ask the filter first.
    pub closed spec fn uses_bloom(&self) -> bool {
        self.bloom_enabled
    }

    /// What is in memory of the table.
    pub closed spec fn table(&self) -> TableView {
        TableView {
            index: super::entry_views(self.index@),
            bloom: self.bloom@,
            record_count: self.record_count,
        }
    }

    /// What is in memory is what the file says, and so is what is cached.
    pub closed spec fn wf(&self) -> bool {
        &&& self.contents().len() <= u64::MAX
        &&& super::parsed(self.contents()) == Ok::<TableView, ErrorView>(self.table())
        &&& self.bloom@.wf()
        &&& self.cache.pred() == (CachePred { file: self.contents() })
    }

    /// What well-formedness says.
    pub proof fn wf_facts(&self)
        requires
            self.wf(),
        ensures
            super::parsed(self.contents()) == Ok::<TableView, ErrorView>(self.table()),
            self.table().bloom.wf(),
    {
    }

    /// Open the table at `path`. `bloom_enabled` says whether lookups ask the
    /// filter first.
    pub fn open<V: Volume<F>>(fs: V, path: &str, bloom_enabled: bool) -> (r: Result<
        SsTableReader<F>,
    >)
        ensures
            disk::ended::<F>(Seq::empty()),
            r matches Ok(t) ==> t.wf() && t.path_text() == path@ && t.place() == path@
                && t.uses_bloom() == bloom_enabled && F::answered(
                path@,
                OpenMode::Read,
                Ok(t.contents()),
            ),
            r matches Err(e) ==> unopened::<F>(path@, e@),
            r is Err ==> r->Err_0 is Io || r->Err_0 is BadFormat || r->Err_0 is Corrupt,
    {
        let disk = fs.mount();
        let r = Self::open_on(&disk, path, bloom_enabled);
        disk.finish();
        r
    }

    /// Open the table at `path`.
    pub(crate) fn open_on<H: Holder<F = F>>(
        disk: &Disk<H>,
        path: &str,
        bloom_enabled: bool,
    ) -> (r: Result<SsTableReader<F>>)
        ensures
            r matches Ok(t) ==> t.wf() && t.path_text() == path@ && t.place() == path@
                && t.uses_bloom() == bloom_enabled && F::answered(
                path@,
                OpenMode::Read,
                Ok(t.contents()),
            ),
            r matches Err(e) ==> unopened::<F>(path@, e@),
            r is Err ==> r->Err_0 is Io || r->Err_0 is BadFormat || r->Err_0 is Corrupt,
    {
        match disk.look(path) {
            Ok(file) => {
                assert(F::answered(path@, OpenMode::Read, Ok(file.contents())));
                Self::open_reading(file, path, bloom_enabled)
            },
            Err(e) => {
                assert(F::answered(path@, OpenMode::Read, Err(e@)));
                Err(Error::Io(e))
            },
        }
    }

    /// Open the table in a file. Unless the filesystem fails, what the file
    /// holds decides.
    pub fn open_file(file: F::File, path: &str, bloom_enabled: bool) -> (r: Result<
        SsTableReader<F>,
    >)
        ensures
            r matches Ok(t) ==> t.wf() && t.contents() == file.contents() && t.place()
                == file.place() && t.path_text() == path@ && t.uses_bloom() == bloom_enabled,
            r matches Err(e) ==> fs::unread::<F::File>(file.contents().len(), e@) || super::parsed(
                file.contents(),
            ) == Err::<TableView, ErrorView>(e@),
            super::parsed(file.contents()) is Err ==> r is Err,
            r is Err ==> r->Err_0 is Io || r->Err_0 is BadFormat || r->Err_0 is Corrupt,
    {
        Self::open_reading(Reading::of(file), path, bloom_enabled)
    }

    /// Open the table in a file that is only to be read.
    fn open_reading(file: Reading<F::File>, path: &str, bloom_enabled: bool) -> (r: Result<
        SsTableReader<F>,
    >)
        ensures
            r matches Ok(t) ==> t.wf() && t.contents() == file.contents() && t.place()
                == file.place() && t.path_text() == path@ && t.uses_bloom() == bloom_enabled,
            r matches Err(e) ==> fs::unread::<F::File>(file.contents().len(), e@) || super::parsed(
                file.contents(),
            ) == Err::<TableView, ErrorView>(e@),
            super::parsed(file.contents()) is Err ==> r is Err,
            r is Err ==> r->Err_0 is Io || r->Err_0 is BadFormat || r->Err_0 is Corrupt,
    {
        let ghost c = file.contents();
        let file_len: u64 = match file.size() {
            Ok(n) => n,
            Err(e) => return Err(Error::Io(e)),
        };
        if file_len < FOOTER_LEN as u64 {
            return Err(Error::bad_format("file smaller than footer"));
        }
        let footer_start: u64 = file_len - FOOTER_LEN as u64;
        let footer = read_part(&file, footer_start, FOOTER_LEN as u64)?;
        proof {
            assert(footer@ =~= c.skip(footer_start as int));
        }
        let front = footer.as_slice();
        if !bytes::same(bytes::part(front, 40, 44), MAGIC.as_slice()) {
            return Err(Error::bad_format("bad magic (expected LSM2)"));
        }
        let index_offset: u64 = bytes::get_u64(front, 0);
        let entries: u32 = bytes::get_u32(front, 8);
        let bloom_offset: u64 = bytes::get_u64(front, 12);
        let bloom_len: u64 = bytes::get_u64(front, 20);
        let record_count: u64 = bytes::get_u64(front, 28);
        if index_offset > bloom_offset || bloom_offset > footer_start || bloom_len > footer_start
            - bloom_offset {
            return Err(Error::bad_format("footer offsets out of range"));
        }
        let ibuf = read_part(&file, index_offset, bloom_offset - index_offset)?;
        proof {
            index_errors_are_corrupt(ibuf@, 0, entries as nat);
        }
        let index = decode_index(ibuf.as_slice(), entries)?;
        let bbuf = read_part(&file, bloom_offset, bloom_len)?;
        let bloom = BloomFilter::decode(bbuf.as_slice())?;
        let cache = RwLock::new(BlockCache::new(Ghost(c)), Ghost(CachePred { file: c }));
        Ok(
            SsTableReader {
                file,
                path: text::copy_text(path),
                index,
                bloom,
                bloom_enabled,
                record_count,
                cache,
            },
        )
    }

    /// Where the table is.
    pub fn path(&self) -> (r: &str)
        ensures
            r@ == self.path_text(),
    {
        self.path.as_str()
    }

    /// How many records the table says that it has.
    pub fn record_count(&self) -> (r: u64)
        ensures
            r == self.table().record_count,
    {
        self.record_count
    }

    /// The records of a block, from the cache if they are there.
    fn load_block(&self, offset: u64, len: u32) -> (r: Result<Arc<Vec<Record>>>)
        requires
            self.wf(),
        ensures
            match r {
                Ok(b) => super::loaded(self.contents(), offset, len) == Ok::<Seq<RecordView>, ErrorView>(
                    record::views(b@),
                ),
                Err(e) => fs::handed_on::<F::File>(e@) || super::loaded(self.contents(), offset, len) == Err::<
                    Seq<RecordView>,
                    ErrorView,
                >(e@),
            },
    {
        let ghost c = self.contents();
        let handle = self.cache.acquire_read();
        let cached = handle.borrow().get(offset, len, Ghost(c));
        handle.release_read();
        if let Some(block) = cached {
            return Ok(block);
        }
        let mut comp: Vec<u8> = vec![0u8; len as usize];
        match self.file.read_exact_at(offset, comp.as_mut_slice()) {
            Ok(()) => {},
            Err(e) => return Err(Error::Io(e)),
        }
        proof {
            if len == 0 {
                assert(comp@ =~= Seq::empty());
            }
        }
        let raw = match lz4::expand(comp.as_slice()) {
            Ok(raw) => raw,
            Err(m) => return Err(
                Error::Corrupt(text::joined("block decompression failed: ", m.as_str())),
            ),
        };
        let records = record::decode_all(raw.as_slice())?;
        let block = Arc::new(records);
        let (mut cache, handle) = self.cache.acquire_write();
        cache.put(offset, len, block.clone(), Ghost(c));
        handle.release_write(cache);
        Ok(block)
    }

    /// The newest record for `key` in this table, if there is one. It may be a
    /// tombstone. Versions of a key stand newest first, so the first is the one.
    pub fn get(&self, key: &[u8]) -> (r: Result<Option<Record>>)
        requires
            self.wf(),
        ensures
            super::index_ascends(self.table().index) ==> self.says(
                r,
                super::newest_in(self.contents(), self.table(), self.uses_bloom(), key@),
            ),
    {
        match self.block_with(key)? {
            Some(block) => Ok(first_in_block(&block, key)),
            None => Ok(None),
        }
    }

    /// Whether this is the answer to a lookup: the filesystem has failed, or
    /// it is what the file says.
    pub open spec fn says(
        &self,
        r: Result<Option<Record>>,
        said: core::result::Result<Option<RecordView>, ErrorView>,
    ) -> bool {
        match r {
            Ok(found) => said == Ok::<Option<RecordView>, ErrorView>(
                match found {
                    Some(x) => Some(x@),
                    None => None,
                },
            ),
            Err(e) => fs::handed_on::<F::File>(e@) || said == Err::<Option<RecordView>, ErrorView>(
                e@,
            ),
        }
    }

    /// Whether this is the answer to a lookup below a bound.
    pub open spec fn answers(
        &self,
        r: Result<Option<Record>>,
        key: Seq<u8>,
        bound: u64,
    ) -> bool {
        self.says(
            r,
            super::looked_up(self.contents(), self.table(), self.uses_bloom(), key, bound),
        )
    }

    /// The newest record for `key` below `seq_bound` in this table. Versions of
    /// a key stand newest first, so the first that is low enough is the one.
    pub fn get_at(&self, key: &[u8], seq_bound: u64) -> (r: Result<Option<Record>>)
        requires
            self.wf(),
        ensures
            super::index_ascends(self.table().index) ==> self.answers(r, key@, seq_bound),
    {
        match self.block_with(key)? {
            Some(block) => Ok(find_in_block(&block, key, seq_bound)),
            None => Ok(None),
        }
    }

    /// The block that can hold `key`, if there is one and the filter does not
    /// rule it out.
    fn block_with(&self, key: &[u8]) -> (r: Result<Option<Arc<Vec<Record>>>>)
        requires
            self.wf(),
        ensures
            super::index_ascends(self.table().index) ==> ({
                let read = super::block_read(
                    self.contents(),
                    self.table(),
                    self.uses_bloom(),
                    key@,
                );
                match r {
                    Ok(None) => read == Ok::<Option<Seq<RecordView>>, ErrorView>(None),
                    Ok(Some(b)) => read == Ok::<Option<Seq<RecordView>>, ErrorView>(
                        Some(record::views(b@)),
                    ),
                    Err(e) => fs::handed_on::<F::File>(e@) || read == Err::<
                        Option<Seq<RecordView>>,
                        ErrorView,
                    >(e@),
                }
            }),
            self.table().index.len() == 0 || (self.uses_bloom() && !self.table().bloom.may_have(
                key@,
            )) ==> r is Ok && r->Ok_0 is None,
    {
        let n: usize = self.index.len();
        if n == 0 {
            return Ok(None);
        }
        if self.bloom_enabled && !self.bloom.contains(key) {
            return Ok(None);
        }
        let at: usize = self.seek(key);
        if at == 0 {
            return Ok(None);
        }
        let offset: u64 = self.index[at - 1].offset;
        let len: u32 = self.index[at - 1].len;
        proof {
            assert(self.table().index[at - 1] == self.index@[at - 1]@);
        }
        let block = self.load_block(offset, len)?;
        Ok(Some(block))
    }

    /// How many blocks do not start behind `key`.
    fn seek(&self, key: &[u8]) -> (r: usize)
        ensures
            r <= self.index@.len(),
            super::index_ascends(self.table().index) ==> super::block_for(self.table().index, key@) == if r
                == 0 {
                None
            } else {
                Some(r - 1)
            },
    {
        let ghost index = self.table().index;
        let mut lo: usize = 0;
        let mut hi: usize = self.index.len();
        while lo < hi
            invariant
                lo <= hi <= self.index@.len(),
                index == super::entry_views(self.index@),
                super::index_ascends(index) ==> forall|i: int|
                    0 <= i < lo ==> !bytes::lex_lt(key@, (#[trigger] index[i]).key),
                super::index_ascends(index) ==> forall|i: int|
                    hi <= i < index.len() ==> bytes::lex_lt(key@, (#[trigger] index[i]).key),
            decreases hi - lo,
        {
            let mid: usize = lo + (hi - lo) / 2;
            assert(index[mid as int].key == self.index@[mid as int].key@);
            if bytes::less(key, self.index[mid].key.as_slice()) {
                proof {
                    if super::index_ascends(index) {
                        assert forall|i: int| mid <= i < index.len() implies bytes::lex_lt(
                            key@,
                            (#[trigger] index[i]).key,
                        ) by {
                            if i > mid {
                                assert(bytes::lex_lt(index[mid as int].key, index[i].key));
                                bytes::lex_transitive(key@, index[mid as int].key, index[i].key);
                            }
                        }
                    }
                }
                hi = mid;
            } else {
                proof {
                    if super::index_ascends(index) {
                        assert forall|i: int| 0 <= i < mid + 1 implies !bytes::lex_lt(
                            key@,
                            (#[trigger] index[i]).key,
                        ) by {
                            if i < mid {
                                assert(bytes::lex_lt(index[i].key, index[mid as int].key));
                                if bytes::lex_lt(key@, index[i].key) {
                                    bytes::lex_transitive(
                                        key@,
                                        index[i].key,
                                        index[mid as int].key,
                                    );
                                }
                            }
                        }
                    }
                }
                lo = mid + 1;
            }
        }
        proof {
            if super::index_ascends(index) {
                block_for_at(index, key@, lo as int);
            }
        }
        lo
    }

    /// How many blocks start before `key`.
    fn seek_end(&self, key: &[u8]) -> (r: usize)
        ensures
            r <= self.index@.len(),
            super::index_ascends(self.table().index) ==> super::blocks_before(self.table().index, key@) == r,
    {
        let ghost index = self.table().index;
        let mut lo: usize = 0;
        let mut hi: usize = self.index.len();
        while lo < hi
            invariant
                lo <= hi <= self.index@.len(),
                index == super::entry_views(self.index@),
                super::index_ascends(index) ==> forall|i: int|
                    0 <= i < lo ==> bytes::lex_lt((#[trigger] index[i]).key, key@),
                super::index_ascends(index) ==> forall|i: int|
                    hi <= i < index.len() ==> !bytes::lex_lt((#[trigger] index[i]).key, key@),
            decreases hi - lo,
        {
            let mid: usize = lo + (hi - lo) / 2;
            assert(index[mid as int].key == self.index@[mid as int].key@);
            if bytes::less(self.index[mid].key.as_slice(), key) {
                proof {
                    if super::index_ascends(index) {
                        assert forall|i: int| 0 <= i < mid + 1 implies bytes::lex_lt(
                            (#[trigger] index[i]).key,
                            key@,
                        ) by {
                            if i < mid {
                                assert(bytes::lex_lt(index[i].key, index[mid as int].key));
                                bytes::lex_transitive(index[i].key, index[mid as int].key, key@);
                            }
                        }
                    }
                }
                lo = mid + 1;
            } else {
                proof {
                    if super::index_ascends(index) {
                        assert forall|i: int| mid <= i < index.len() implies !bytes::lex_lt(
                            (#[trigger] index[i]).key,
                            key@,
                        ) by {
                            if i > mid {
                                assert(bytes::lex_lt(index[mid as int].key, index[i].key));
                                if bytes::lex_lt(index[i].key, key@) {
                                    bytes::lex_transitive(
                                        index[mid as int].key,
                                        index[i].key,
                                        key@,
                                    );
                                }
                            }
                        }
                    }
                }
                hi = mid;
            }
        }
        proof {
            if super::index_ascends(index) {
                blocks_before_at(index, key@, lo as int);
            }
        }
        lo
    }

    /// The records of the blocks from `from` up to `to`.
    fn load_blocks(&self, from: usize, to: usize) -> (r: Result<Vec<Record>>)
        requires
            self.wf(),
            from <= to <= self.table().index.len(),
        ensures
            ({
                let said = super::all_records(
                    self.contents(),
                    self.table().index.subrange(from as int, to as int),
                );
                match r {
                    Ok(v) => said == Ok::<Seq<RecordView>, ErrorView>(record::views(v@)),
                    Err(e) => fs::handed_on::<F::File>(e@) || said == Err::<Seq<RecordView>, ErrorView>(e@),
                }
            }),
    {
        let ghost c = self.contents();
        let ghost index = self.table().index.subrange(from as int, to as int);
        let mut records: Vec<Record> = Vec::new();
        let mut i: usize = from;
        proof {
            assert(index.take(0) =~= Seq::empty());
            assert(record::views(records@) =~= Seq::empty());
        }
        while i < to
            invariant
                from <= i <= to <= self.index@.len(),
                self.wf(),
                c == self.contents(),
                index == self.table().index.subrange(from as int, to as int),
                self.table().index == super::entry_views(self.index@),
                super::all_records(c, index.take(i - from)) == Ok::<Seq<RecordView>, ErrorView>(
                    record::views(records@),
                ),
            decreases to - i,
        {
            proof {
                let k = i - from;
                assert(index.take(k + 1).drop_last() =~= index.take(k));
                assert(index.take(k + 1).last() == self.index@[i as int]@);
                if super::loaded(c, index[k].offset, index[k].len) is Err {
                    first_bad_block(c, index, k + 1);
                }
            }
            let block = self.load_block(self.index[i].offset, self.index[i].len)?;
            let ghost before = record::views(records@);
            let m: usize = block.len();
            let mut j: usize = 0;
            assert(before + record::views(block@.take(0)) =~= before);
            while j < m
                invariant
                    j <= m == block@.len(),
                    record::views(records@) == before + record::views(block@.take(j as int)),
                decreases m - j,
            {
                let copy = block[j].clone();
                let ghost was = records@;
                records.push(copy);
                proof {
                    assert(record::views(records@) =~= record::views(was).push(copy@));
                    assert(record::views(block@.take(j + 1)) =~= record::views(
                        block@.take(j as int),
                    ).push(block@[j as int]@));
                    assert(record::views(records@) =~= before + record::views(block@.take(j + 1)));
                }
                j += 1;
            }
            assert(block@.take(m as int) =~= block@);
            i += 1;
        }
        assert(index.take(to - from) =~= index);
        Ok(records)
    }

    /// All records of the table, in order.
    pub fn iter_all(&self) -> (r: Result<Vec<Record>>)
        requires
            self.wf(),
        ensures
            match r {
                Ok(v) => super::all_records(self.contents(), self.table().index) == Ok::<
                    Seq<RecordView>,
                    ErrorView,
                >(record::views(v@)),
                Err(e) => fs::handed_on::<F::File>(e@) || super::all_records(self.contents(), self.table().index) == Err::<
                    Seq<RecordView>,
                    ErrorView,
                >(e@),
            },
    {
        let n: usize = self.index.len();
        proof {
            assert(self.table().index.subrange(0, n as int) =~= self.table().index);
        }
        self.load_blocks(0, n)
    }

    /// The blocks that can hold records of a key range: from the first number,
    /// up to the second.
    pub fn block_range(&self, start: Option<&[u8]>, end: Option<&[u8]>) -> (r: (usize, usize))
        requires
            self.wf(),
        ensures
            r.0 <= r.1 <= self.table().index.len(),
            super::index_ascends(self.table().index) ==> self.table().index.subrange(
                r.0 as int,
                r.1 as int,
            ) == super::blocks_in_range(
                self.table().index,
                memtable::key_view(start),
                memtable::key_view(end),
            ),
    {
        let n: usize = self.index.len();
        let from: usize = match start {
            Some(k) => {
                let at: usize = self.seek(k);
                if at == 0 {
                    0
                } else {
                    at - 1
                }
            },
            None => 0,
        };
        let mut to: usize = match end {
            Some(k) => self.seek_end(k),
            None => n,
        };
        if to < from {
            to = from;
        }
        proof {
            let index = self.table().index;
            if from == to {
                assert(index.subrange(from as int, to as int) =~= Seq::empty());
            }
        }
        (from, to)
    }

    /// The records of one block that lie in a key range, in order: the start is
    /// included, the end is not.
    pub fn load_in_range(&self, block: usize, start: Option<&[u8]>, end: Option<&[u8]>) -> (r:
        Result<VecDeque<Record>>)
        requires
            self.wf(),
            block < self.table().index.len(),
        ensures
            ({
                let entry = self.table().index[block as int];
                let said = super::loaded(self.contents(), entry.offset, entry.len);
                match r {
                    Ok(v) => said is Ok && record::views(v@) == said->Ok_0.filter(
                        |r: RecordView|
                            memtable::in_range(
                                r,
                                memtable::key_view(start),
                                memtable::key_view(end),
                            ),
                    ),
                    Err(e) => fs::handed_on::<F::File>(e@) || said == Err::<Seq<RecordView>, ErrorView>(e@),
                }
            }),
    {
        let n: usize = self.index.len();
        assert(block < n);
        let ghost one = self.table().index.subrange(block as int, block + 1);
        proof {
            let entry = self.table().index[block as int];
            assert(one.last() == entry);
            assert(one.drop_last() =~= Seq::empty());
            reveal_with_fuel(super::all_records, 2);
            if let Ok(found) = super::loaded(self.contents(), entry.offset, entry.len) {
                assert(Seq::<RecordView>::empty() + found =~= found);
            }
        }
        let mut all = self.load_blocks(block, block + 1)?;
        let ghost s = record::views(all@);
        let ghost p = |r: RecordView|
            memtable::in_range(r, memtable::key_view(start), memtable::key_view(end));
        // From the back, so that each record moves once.
        let mut out: VecDeque<Record> = VecDeque::new();
        proof {
            assert(s.skip(s.len() as int) =~= Seq::empty());
            reveal(Seq::filter);
            assert(s.skip(s.len() as int).filter(p) =~= Seq::empty());
            assert(record::views(out@) =~= Seq::empty());
        }
        while all.len() > 0
            invariant
                p == (|r: RecordView|
                    memtable::in_range(r, memtable::key_view(start), memtable::key_view(end))),
                all@.len() <= s.len(),
                record::views(all@) == s.take(all@.len() as int),
                record::views(out@) == s.skip(all@.len() as int).filter(p),
            decreases all@.len(),
        {
            let ghost k = all@.len() - 1;
            if let Some(r) = all.pop() {
                proof {
                    assert(r@ == s.take(k + 1)[k]);
                    assert(record::views(all@) =~= s.take(k));
                    filter_first(s.skip(k), p);
                    assert(s.skip(k).drop_first() =~= s.skip(k + 1));
                }
                let low = match start {
                    Some(k) => !bytes::less(r.key.as_slice(), k),
                    None => true,
                };
                let high = match end {
                    Some(k) => bytes::less(r.key.as_slice(), k),
                    None => true,
                };
                if low && high {
                    let ghost had = record::views(out@);
                    out.push_front(r);
                    assert(record::views(out@) =~= seq![r@] + had);
                }
            }
        }
        assert(s.skip(0) =~= s);
        Ok(out)
    }
}

/// The first record stays in front of what is filtered behind it.
proof fn filter_first(s: Seq<RecordView>, p: spec_fn(RecordView) -> bool)
    requires
        s.len() > 0,
    ensures
        s.filter(p) == if p(s[0]) {
            seq![s[0]] + s.drop_first().filter(p)
        } else {
            s.drop_first().filter(p)
        },
{
    Seq::filter_distributes_over_add(seq![s[0]], s.drop_first(), p);
    assert(seq![s[0]] + s.drop_first() =~= s);
    reveal_with_fuel(Seq::filter, 2);
    assert(seq![s[0]].drop_last() =~= Seq::empty());
    assert(seq![s[0]].filter(p) =~= if p(s[0]) {
        seq![s[0]]
    } else {
        Seq::empty()
    });
    assert(s.filter(p) =~= if p(s[0]) {
        seq![s[0]] + s.drop_first().filter(p)
    } else {
        s.drop_first().filter(p)
    });
}

proof fn blocks_before_at(index: Seq<EntryView>, key: Seq<u8>, n: int)
    requires
        0 <= n <= index.len(),
        forall|i: int| 0 <= i < n ==> bytes::lex_lt((#[trigger] index[i]).key, key),
        forall|i: int| n <= i < index.len() ==> !bytes::lex_lt((#[trigger] index[i]).key, key),
    ensures
        super::blocks_before(index, key) == n,
    decreases index.len(),
{
    if n < index.len() {
        assert(!bytes::lex_lt(index[index.len() - 1].key, key));
        blocks_before_at(index.drop_last(), key, n);
    } else if n > 0 {
        assert(bytes::lex_lt(index[n - 1].key, key));
    }
}

proof fn index_errors_are_corrupt(buf: Seq<u8>, pos: int, n: nat)
    ensures
        super::entries_at(buf, pos, n) matches Err(e) ==> e is Corrupt,
    decreases n,
{
    if n > 0 {
        if let Ok((entry, end)) = super::entry_at(buf, pos) {
            index_errors_are_corrupt(buf, end, (n - 1) as nat);
        }
    }
}

proof fn first_bad_block(file: Seq<u8>, index: Seq<EntryView>, n: int)
    requires
        0 <= n <= index.len(),
        super::all_records(file, index.take(n)) is Err,
    ensures
        super::all_records(file, index) == super::all_records(file, index.take(n)),
    decreases index.len(),
{
    if n == index.len() {
        assert(index.take(n) =~= index);
    } else {
        assert(index.drop_last().take(n) =~= index.take(n));
        first_bad_block(file, index.drop_last(), n);
    }
}

proof fn block_for_at(index: Seq<EntryView>, key: Seq<u8>, n: int)
    requires
        0 <= n <= index.len(),
        forall|i: int| 0 <= i < n ==> !bytes::lex_lt(key, (#[trigger] index[i]).key),
        forall|i: int| n <= i < index.len() ==> bytes::lex_lt(key, (#[trigger] index[i]).key),
    ensures
        super::block_for(index, key) == if n == 0 {
            None
        } else {
            Some(n - 1)
        },
    decreases index.len(),
{
    if n < index.len() {
        assert(bytes::lex_lt(key, index[index.len() - 1].key));
        block_for_at(index.drop_last(), key, n);
    } else if n > 0 {
        assert(!bytes::lex_lt(key, index[n - 1].key));
    }
}

/// Look through a block for the first record of a key.
fn first_in_block(block: &Vec<Record>, key: &[u8]) -> (r: Option<Record>)
    ensures
        match r {
            Some(x) => super::first_in(record::views(block@), key@) == Some(x@),
            None => super::first_in(record::views(block@), key@) is None,
        },
{
    let ghost all = record::views(block@);
    let n: usize = block.len();
    let mut i: usize = 0;
    assert(all.skip(0) =~= all);
    while i < n
        invariant
            i <= n == block@.len(),
            all == record::views(block@),
            super::first_in(all.skip(i as int), key@) == super::first_in(all, key@),
        decreases n - i,
    {
        proof {
            assert(all.skip(i as int)[0] == block@[i as int]@);
            assert(all.skip(i as int).drop_first() =~= all.skip(i + 1));
            bytes::lex_total(block@[i as int]@.key, key@);
        }
        match bytes::order(block[i].key.as_slice(), key) {
            Order::Equal => return Some(block[i].clone()),
            Order::Greater => return None,
            Order::Less => {},
        }
        i += 1;
    }
    None
}

/// Look through a block for the first record of a key below a bound.
fn find_in_block(block: &Vec<Record>, key: &[u8], seq_bound: u64) -> (r: Option<Record>)
    ensures
        match r {
            Some(x) => super::found_in(record::views(block@), key@, seq_bound) == Some(x@),
            None => super::found_in(record::views(block@), key@, seq_bound) is None,
        },
{
    let ghost all = record::views(block@);
    let n: usize = block.len();
    let mut i: usize = 0;
    assert(all.skip(0) =~= all);
    while i < n
        invariant
            i <= n == block@.len(),
            all == record::views(block@),
            super::found_in(all.skip(i as int), key@, seq_bound) == super::found_in(all, key@, seq_bound),
        decreases n - i,
    {
        proof {
            assert(all.skip(i as int)[0] == block@[i as int]@);
            assert(all.skip(i as int).drop_first() =~= all.skip(i + 1));
            bytes::lex_total(block@[i as int]@.key, key@);
        }
        match bytes::order(block[i].key.as_slice(), key) {
            Order::Equal => if block[i].seq < seq_bound {
                return Some(block[i].clone());
            },
            Order::Greater => return None,
            Order::Less => {},
        }
        i += 1;
    }
    None
}

} // verus!
