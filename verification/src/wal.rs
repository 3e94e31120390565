//! Write-ahead log: every mutation is appended here before it reaches the
//! MemTable, so that a crash loses no acknowledged write.
//!
//! The file is a [header](crate::header) and then [frames](crate::frame). From
//! version 2 on the payload of a frame is `[count:4]` and then that many
//! records. That makes a batch atomic: one frame, one checksum, so that a crash
//! in the middle of it leaves a frame that does not verify, and replay discards
//! all of it. Version 1 held exactly one record per frame and no count. It is
//! still read, and so is a file from before there were headers.

use vstd::prelude::*;

use crate::bytes;
use crate::disk;
use crate::disk::{Change, Disk, Holder, Volume};
use crate::error::{Error, ErrorView, IoError, IoErrorKind, IoErrorView, Result};
use crate::frame;
use crate::fs;
use crate::fs::{BufAppend, File, Fs, OpenMode, SyncMode};
use crate::hash;
use crate::header;
use crate::header::{Checksum, Kind, HEADER_LEN, WAL_MAGIC, WAL_VERSION};
use crate::record;
use crate::record::{Record, RecordView};
use crate::text;

verus! {

/// Whether frames in a log of this kind carry a count.
pub open spec fn is_counted(kind: Kind) -> bool {
    kind != Kind::Legacy && kind != Kind::Versioned(1)
}

/// The payload of the frame that holds a batch.
pub open spec fn batch_payload(counted: bool, batch: Seq<RecordView>) -> Seq<u8> {
    if counted {
        bytes::le(batch.len() % 0x1_0000_0000, 4) + record::encoded_all(batch)
    } else {
        record::encoded_all(batch)
    }
}

/// The batch that a payload holds, or why it holds none.
pub open spec fn batch_of(counted: bool, payload: Seq<u8>) -> core::result::Result<
    Seq<RecordView>,
    ErrorView,
> {
    if counted && payload.len() < 4 {
        Err(ErrorView::Corrupt("WAL frame too short for a batch count"@))
    } else {
        let start: int = if counted {
            4
        } else {
            0
        };
        let count: nat = if counted {
            bytes::from_le(payload.subrange(0, 4))
        } else {
            1
        };
        match record::decoded_some(payload, start, count) {
            Err(e) => Err(e),
            Ok((batch, end)) => if end != payload.len() {
                Err(ErrorView::Corrupt("trailing bytes in WAL frame"@))
            } else {
                Ok(batch)
            },
        }
    }
}

/// The records of all batches, in order, or what is wrong with the first that
/// does not decode.
pub open spec fn records_of(counted: bool, payloads: Seq<Seq<u8>>) -> core::result::Result<
    Seq<RecordView>,
    ErrorView,
>
    decreases payloads.len(),
{
    if payloads.len() == 0 {
        Ok(Seq::empty())
    } else {
        match records_of(counted, payloads.drop_last()) {
            Err(e) => Err(e),
            Ok(records) => match batch_of(counted, payloads.last()) {
                Err(e) => Err(e),
                Ok(batch) => Ok(records + batch),
            },
        }
    }
}

/// What kind of log a file is.
pub open spec fn wal_kind(log: Seq<u8>) -> core::result::Result<Kind, ErrorView> {
    header::classified(log, WAL_MAGIC@, WAL_VERSION, "the write-ahead log"@)
}

/// The payloads of the frames in a log of this kind.
pub open spec fn wal_payloads(log: Seq<u8>, kind: Kind) -> Seq<Seq<u8>> {
    frame::payloads(log, header::first_frame(kind) as int, header::wal_checksum_of(kind))
}

/// The records in a log, or why it cannot be read.
pub open spec fn replayed(log: Seq<u8>) -> core::result::Result<Seq<RecordView>, ErrorView> {
    match wal_kind(log) {
        Err(e) => Err(e),
        Ok(Kind::Empty) => Ok(Seq::empty()),
        Ok(kind) => records_of(is_counted(kind), wal_payloads(log, kind)),
    }
}

/// Whether frames in a file of this kind carry a count.
fn counted_kind(kind: Kind) -> (r: bool)
    ensures
        r == is_counted(kind),
{
    match kind {
        Kind::Legacy => false,
        Kind::Versioned(v) => v != 1,
        Kind::Empty => true,
    }
}

/// Decode the batch in a payload.
fn decode_batch(counted: bool, payload: &[u8]) -> (r: Result<Vec<Record>>)
    ensures
        match batch_of(counted, payload@) {
            Ok(v) => r is Ok && record::views(r->Ok_0@) == v,
            Err(e) => r is Err && r->Err_0@ == e,
        },
{
    let mut pos: usize = 0;
    let mut count: usize = 1;
    if counted {
        if payload.len() < 4 {
            return Err(Error::corrupt("WAL frame too short for a batch count"));
        }
        pos = 4;
        count = bytes::get_u32(payload, 0) as usize;
    }
    let batch = record::decode_some(payload, &mut pos, count)?;
    if pos != payload.len() {
        return Err(Error::corrupt("trailing bytes in WAL frame"));
    }
    Ok(batch)
}

/// Where the whole frames of a log of this kind end.
pub open spec fn wal_stop(log: Seq<u8>, kind: Kind) -> int {
    frame::stop(log, header::first_frame(kind) as int, header::wal_checksum_of(kind))
}

/// The records in a log, given its bytes.
///
/// A frame at the end that is cut short or does not verify is what a crash in
/// the middle of an append leaves: reading stops there. A frame that verifies
/// and does not decode is an error.
pub fn replay_bytes(log: &[u8]) -> (r: Result<Vec<Record>>)
    ensures
        match replayed(log@) {
            Ok(v) => r is Ok && record::views(r->Ok_0@) == v,
            Err(e) => r is Err && r->Err_0@ == e,
        },
{
    let kind = header::classify(log, WAL_MAGIC, WAL_VERSION, "the write-ahead log")?;
    if kind == Kind::Empty {
        let none: Vec<Record> = Vec::new();
        assert(record::views(none@) =~= Seq::empty());
        return Ok(none);
    }
    let (records, stop) = read_frames(log, kind)?;
    Ok(records)
}

/// Where the whole frames of a log of a known kind end.
fn frames_end(log: &[u8], kind: Kind) -> (r: usize)
    requires
        wal_kind(log@) == Ok::<Kind, ErrorView>(kind),
        kind != Kind::Empty,
    ensures
        r == wal_stop(log@, kind),
        r <= log@.len(),
{
    let checksum = header::wal_checksum(kind);
    let start: usize = header::frames_start(kind);
    let mut pos: usize = start;
    loop
        invariant
            checksum == header::wal_checksum_of(kind),
            start == header::first_frame(kind),
            start <= pos <= log@.len(),
            frame::stop(log@, start as int, checksum) == frame::stop(log@, pos as int, checksum),
        ensures
            pos <= log@.len(),
            frame::stop(log@, start as int, checksum) == pos,
        decreases log@.len() - pos,
    {
        match frame::next_frame(log, pos, checksum) {
            Some(end) => {
                pos = end;
            },
            None => {
                break;
            },
        }
    }
    pos
}

/// The records in a log of a known kind, and where its whole frames end.
fn read_frames(log: &[u8], kind: Kind) -> (r: Result<(Vec<Record>, usize)>)
    requires
        wal_kind(log@) == Ok::<Kind, ErrorView>(kind),
        kind != Kind::Empty,
    ensures
        match replayed(log@) {
            Ok(v) => {
                &&& r matches Ok((records, stop))
                &&& record::views(records@) == v
                &&& stop == wal_stop(log@, kind)
                &&& header::first_frame(kind) <= stop <= log@.len()
            },
            Err(e) => r is Err && r->Err_0@ == e,
        },
{
    let counted = counted_kind(kind);
    let checksum = header::wal_checksum(kind);
    let mut records: Vec<Record> = Vec::new();
    let start: usize = header::frames_start(kind);
    let mut pos: usize = start;
    let ghost all = wal_payloads(log@, kind);
    let ghost mut done: Seq<Seq<u8>> = Seq::empty();
    proof {
        assert(record::views(records@) =~= Seq::empty());
        assert(done + all =~= all);
    }
    loop
        invariant
            wal_kind(log@) == Ok::<Kind, ErrorView>(kind),
            kind != Kind::Empty,
            counted == is_counted(kind),
            checksum == header::wal_checksum_of(kind),
            all == wal_payloads(log@, kind),
            start == header::first_frame(kind),
            start <= pos <= log@.len(),
            all == done + frame::payloads(log@, pos as int, checksum),
            frame::stop(log@, start as int, checksum) == frame::stop(log@, pos as int, checksum),
            records_of(counted, done) == Ok::<Seq<RecordView>, ErrorView>(
                record::views(records@),
            ),
        ensures
            all == done,
            start <= pos <= log@.len(),
            frame::stop(log@, start as int, checksum) == pos,
        decreases log@.len() - pos,
    {
        let end: usize = match frame::next_frame(log, pos, checksum) {
            Some(end) => end,
            None => {
                assert(done + Seq::empty() =~= done);
                break;
            },
        };
        let payload = bytes::part(log, pos + frame::FRAME_HEADER, end);
        let ghost rest = frame::payloads(log@, end as int, checksum);
        let ghost next = done.push(payload@);
        proof {
            assert(done + (seq![payload@] + rest) =~= next + rest);
            assert(next.drop_last() =~= done);
            if batch_of(counted, payload@) is Err {
                first_error(counted, next, rest);
            }
        }
        // The batch joins the others once all of it has been decoded: what is
        // atomic on the way in is atomic on the way out.
        let mut batch = decode_batch(counted, payload)?;
        let ghost batch_was = batch@;
        let ghost before = records@;
        records.append(&mut batch);
        proof {
            assert(record::views(records@) =~= record::views(before) + record::views(batch_was));
            done = next;
        }
        pos = end;
    }
    Ok((records, pos))
}

/// What is wrong with the first batches is wrong with all.
proof fn first_error(counted: bool, a: Seq<Seq<u8>>, b: Seq<Seq<u8>>)
    requires
        records_of(counted, a) is Err,
    ensures
        records_of(counted, a + b) == records_of(counted, a),
    decreases b.len(),
{
    if b.len() == 0 {
        assert(a + b =~= a);
    } else {
        first_error(counted, a, b.drop_last());
        assert((a + b).drop_last() =~= a + b.drop_last());
    }
}

// ---------------------------------------------------------------- the file
/// An append-only write-ahead log behind one MemTable.
pub struct Wal<F: Fs> {
    file: BufAppend<F::File>,
    path: String,
    sync: SyncMode,
    /// The checksum of this file's frames, which the file decides.
    checksum: Checksum,
    /// Whether frames of this file carry a count, which the file decides: a
    /// counted frame in a version 1 file would make a file whose two halves
    /// disagree about their format.
    counted: bool,
    /// How long the log is. What stands in the file behind that comes from an
    /// append that failed.
    len: u64,
    /// Whether an append failed, so that bytes may stand behind the log.
    dirty: bool,
}

/// The refusal of a frame that would make the log longer than a file can be.
pub open spec fn too_long() -> ErrorView {
    ErrorView::Io(
        IoErrorView { kind: IoErrorKind::Other, message: "the write-ahead log is too long"@ },
    )
}

/// Whether an error is one that appending to a log can end in, which would make
/// it this long: the filesystem's, or that a file cannot be that long.
pub open spec fn unlogged<W: File>(len: nat, e: ErrorView) -> bool {
    fs::handed_on::<W>(e) || (len > u64::MAX && e == too_long())
}

/// Whether the file at this path was once opened like this, and that ended in
/// this error: the file was not opened, a step on it failed, or what stands in it
/// cannot be read. To read a log that is not there is no failure.
pub open spec fn unreplayed<F: Fs>(path: Seq<char>, mode: OpenMode, e: ErrorView) -> bool {
    exists|answer: core::result::Result<Seq<u8>, IoErrorView>| #[trigger]
        F::answered(path, mode, answer) && match answer {
            Ok(log) => fs::unread::<F::File>(log.len(), e) || replayed(log) == Err::<
                Seq<RecordView>,
                ErrorView,
            >(e),
            Err(x) => e == ErrorView::Io(x) && (mode == OpenMode::Read ==> x.kind
                != IoErrorKind::NotFound),
        }
}

/// Whether these are the records of the log that once stood at this path: none
/// where there was no file.
pub open spec fn read_back<F: Fs>(path: Seq<char>, records: Seq<RecordView>) -> bool {
    exists|answer: core::result::Result<Seq<u8>, IoErrorView>| #[trigger]
        F::answered(path, OpenMode::Read, answer) && match answer {
            Ok(log) => replayed(log) == Ok::<Seq<RecordView>, ErrorView>(records),
            Err(x) => x.kind == IoErrorKind::NotFound && records.len() == 0,
        }
}

/// What is kept of the bytes in a file when frames are to be appended to it: the
/// whole frames, and the header before them. What a crash left behind them is
/// not kept, because a frame behind it would never be read. Where nothing would
/// be kept, a fresh log starts.
pub open spec fn kept_log(log: Seq<u8>) -> Seq<u8> {
    let kind = wal_kind(log)->Ok_0;
    if kind != Kind::Empty && wal_stop(log, kind) > 0 {
        log.take(wal_stop(log, kind))
    } else {
        header::header_bytes(WAL_MAGIC@, WAL_VERSION)
    }
}

/// Why a log without counts refuses a batch of `n` records.
pub open spec fn refusal(path: Seq<char>, n: nat) -> Seq<char> {
    path + " is a version 1 write-ahead log and cannot hold a batch of "@ + text::digits(n)
        + " records; it is replaced by a version 2 file at the next flush"@
}

impl<F: Fs> Wal<F> {
    /// The bytes in the file.
    pub closed spec fn contents(&self) -> Seq<u8> {
        self.file.file().contents()
    }

    /// The log: what the file holds, but for what a failed append left.
    pub closed spec fn log(&self) -> Seq<u8> {
        self.file.file().contents().take(self.len as int)
    }

    /// The file holds all of the log. Unless an append failed, it holds nothing
    /// else, and nothing waits in the buffer.
    pub closed spec fn wf(&self) -> bool {
        &&& self.len <= self.contents().len()
        &&& !self.dirty ==> self.contents().len() == self.len && self.file.buffered().len() == 0
    }

    /// Whether the log is intact, and frames are appended to it in its own
    /// format.
    pub open spec fn sound(&self) -> bool {
        &&& self.wf()
        &&& intact(self.log(), wal_kind(self.log())->Ok_0)
        &&& self.writes_as(wal_kind(self.log())->Ok_0)
    }

    /// Where the file is.
    pub closed spec fn path_text(&self) -> Seq<char> {
        self.path@
    }

    /// How durable an append is made.
    pub closed spec fn sync_mode(&self) -> SyncMode {
        self.sync
    }

    /// The checksum of this file's frames.
    pub closed spec fn frame_checksum(&self) -> Checksum {
        self.checksum
    }

    /// Whether this file's frames carry a count.
    pub closed spec fn frames_counted(&self) -> bool {
        self.counted
    }

    /// Where the file was opened.
    pub closed spec fn place(&self) -> Seq<char> {
        self.file.file().place()
    }

    /// The syncs that were asked for since the file was opened, in order: each with
    /// what the file held then.
    pub closed spec fn syncs(&self) -> Seq<(SyncMode, Seq<u8>)> {
        self.file.file().syncs()
    }

    /// Whether the log was made durable as it is.
    pub open spec fn is_synced(&self) -> bool {
        F::File::synced(self.place(), self.log())
    }

    /// Whether there was no sync since the log was `other`, or one as durable as this
    /// log's appends are.
    pub open spec fn tried_to_sync(&self, other: &Self) -> bool {
        ||| self.syncs() == other.syncs()
        ||| exists|bytes: Seq<u8>|
            self.syncs() == #[trigger] other.syncs().push((other.sync_mode(), bytes))
    }

    /// Whether path, sync mode, checksum and frame format are those of `other`.
    pub open spec fn same_log(&self, other: &Self) -> bool {
        &&& self.place() == other.place()
        &&& self.path_text() == other.path_text()
        &&& self.sync_mode() == other.sync_mode()
        &&& self.frame_checksum() == other.frame_checksum()
        &&& self.frames_counted() == other.frames_counted()
    }

    /// Whether frames are appended in the format of this kind of log.
    pub open spec fn writes_as(&self, kind: Kind) -> bool {
        &&& self.frame_checksum() == header::wal_checksum_of(kind)
        &&& self.frames_counted() == is_counted(kind)
    }

    /// Create a fresh log at `path`. A file that is there is emptied, so this is
    /// for a scratch path: a live log holds the only durable copy of every
    /// write since the last flush, and is replaced by a rename.
    pub fn create<V: Volume<F>>(fs: V, path: &str, sync: SyncMode) -> (r: Result<Wal<F>>)
        ensures
            disk::ended::<F>(seq![Change::Opened { path: path@, mode: OpenMode::Truncate }]),
            r matches Ok(w) ==> {
                &&& w.sound()
                &&& w.log() == header::header_bytes(WAL_MAGIC@, WAL_VERSION)
                &&& w.contents() == w.log()
                &&& w.path_text() == path@
                &&& w.place() == path@
                &&& w.sync_mode() == sync
                &&& w.syncs().len() == 0
                &&& w.writes_as(Kind::Versioned(WAL_VERSION))
            },
            r matches Err(e) ==> fs::handed_on::<F::File>(e@),
    {
        let mut disk = fs.mount();
        let r = Self::create_on(&mut disk, path, sync);
        let ghost done = disk.changes();
        disk.finish();
        assert(done =~= seq![Change::Opened { path: path@, mode: OpenMode::Truncate }]);
        r
    }

    /// Create a fresh log at `path`, as [`Wal::create`] does.
    pub(crate) fn create_on<H: Holder<F = F>>(
        disk: &mut Disk<H>,
        path: &str,
        sync: SyncMode,
    ) -> (r: Result<Wal<F>>)
        ensures
            final(disk).changes() == old(disk).changes().push(
                Change::Opened { path: path@, mode: OpenMode::Truncate },
            ),
            r matches Ok(w) ==> {
                &&& w.sound()
                &&& w.log() == header::header_bytes(WAL_MAGIC@, WAL_VERSION)
                &&& w.contents() == w.log()
                &&& w.path_text() == path@
                &&& w.place() == path@
                &&& w.sync_mode() == sync
                &&& w.syncs().len() == 0
                &&& w.writes_as(Kind::Versioned(WAL_VERSION))
            },
            r matches Err(e) ==> fs::handed_on::<F::File>(e@),
    {
        let file = match disk.open(path, OpenMode::Truncate) {
            Ok(f) => f,
            Err(e) => return Err(Error::Io(e)),
        };
        Wal::begin(file, path, sync)
    }

    /// The log in a file that is still empty.
    fn begin(file: F::File, path: &str, sync: SyncMode) -> (r: Result<Wal<F>>)
        requires
            file.contents() == Seq::<u8>::empty(),
        ensures
            r matches Ok(w) ==> {
                &&& w.sound()
                &&& w.log() == header::header_bytes(WAL_MAGIC@, WAL_VERSION)
                &&& w.contents() == w.log()
                &&& w.path_text() == path@
                &&& w.place() == file.place()
                &&& w.sync_mode() == sync
                &&& w.syncs() == file.syncs()
                &&& w.writes_as(Kind::Versioned(WAL_VERSION))
            },
            r matches Err(e) ==> fs::handed_on::<F::File>(e@),
    {
        let mut wal = Wal {
            file: BufAppend::new(file),
            path: text::copy_text(path),
            sync,
            checksum: header::wal_checksum(Kind::Versioned(WAL_VERSION)),
            counted: true,
            len: HEADER_LEN as u64,
            dirty: false,
        };
        let front = header::encode(WAL_MAGIC, WAL_VERSION);
        match wal.file.write(front.as_slice()) {
            Ok(()) => {},
            Err(e) => return Err(Error::Io(e)),
        }
        // Out of the buffer at once: a file that exists and holds nothing looks
        // like one that was never written, and this one is renamed over a live
        // one.
        match wal.file.flush() {
            Ok(()) => {},
            Err(e) => return Err(Error::Io(e)),
        }
        proof {
            header::header_len(WAL_MAGIC@, WAL_VERSION);
            assert(wal.contents() =~= header::header_bytes(WAL_MAGIC@, WAL_VERSION));
            assert(wal.log() =~= wal.contents());
            fresh_log();
        }
        Ok(wal)
    }

    /// Open the log at `path` for appending, and keep what is in it. What is in
    /// the file decides how frames are appended to it.
    ///
    /// What a crash left behind the last whole frame is cut off, because a frame
    /// appended behind it would never be read. A file in which nothing is whole
    /// starts again as a fresh log.
    pub fn open_append<V: Volume<F>>(fs: V, path: &str, sync: SyncMode) -> (r: Result<Wal<F>>)
        ensures
            disk::ended::<F>(seq![Change::Opened { path: path@, mode: OpenMode::Append }]),
            r matches Ok(w) ==> {
                &&& w.wf()
                &&& w.contents() == w.log()
                &&& w.writes_as(wal_kind(w.log())->Ok_0)
                &&& exists|log: Seq<u8>| #[trigger]
                    F::answered(path@, OpenMode::Append, Ok(log)) && wal_kind(log) is Ok && w.log()
                        == kept_log(log) && (replayed(log) is Ok ==> w.sound())
                &&& w.path_text() == path@
                &&& w.place() == path@
                &&& w.sync_mode() == sync
                &&& w.syncs().len() == 0
            },
            r matches Err(e) ==> unreplayed::<F>(path@, OpenMode::Append, e@),
            r is Err ==> r->Err_0 is Io || r->Err_0 is BadFormat,
    {
        let mut disk = fs.mount();
        let r = Self::open_append_on(&mut disk, path, sync);
        let ghost done = disk.changes();
        disk.finish();
        assert(done =~= seq![Change::Opened { path: path@, mode: OpenMode::Append }]);
        r
    }

    /// Open the log at `path` for appending, as [`Wal::open_append`] does.
    pub(crate) fn open_append_on<H: Holder<F = F>>(
        disk: &mut Disk<H>,
        path: &str,
        sync: SyncMode,
    ) -> (r: Result<Wal<F>>)
        ensures
            final(disk).changes() == old(disk).changes().push(
                Change::Opened { path: path@, mode: OpenMode::Append },
            ),
            r matches Ok(w) ==> {
                &&& w.wf()
                &&& w.contents() == w.log()
                &&& w.writes_as(wal_kind(w.log())->Ok_0)
                &&& exists|log: Seq<u8>| #[trigger]
                    F::answered(path@, OpenMode::Append, Ok(log)) && wal_kind(log) is Ok && w.log()
                        == kept_log(log) && (replayed(log) is Ok ==> w.sound())
                &&& w.path_text() == path@
                &&& w.place() == path@
                &&& w.sync_mode() == sync
                &&& w.syncs().len() == 0
            },
            r matches Err(e) ==> unreplayed::<F>(path@, OpenMode::Append, e@),
            r is Err ==> r->Err_0 is Io || r->Err_0 is BadFormat,
    {
        let file = match disk.open(path, OpenMode::Append) {
            Ok(f) => f,
            Err(e) => return Err(Error::Io(e)),
        };
        let log = match file.read_all() {
            Ok(log) => log,
            Err(e) => return Err(Error::Io(e)),
        };
        let ghost before = file.contents();
        assert(F::answered(path@, OpenMode::Append, Ok(before)));
        let kind = header::classify(
            log.as_slice(),
            WAL_MAGIC,
            WAL_VERSION,
            "the write-ahead log",
        )?;
        let mut stop: usize = 0;
        if kind != Kind::Empty {
            stop = frames_end(log.as_slice(), kind);
        }
        Wal::resume(file, path, sync, kind, stop)
    }

    /// The log that goes on behind the whole frames in a file of this kind,
    /// which end at `stop`.
    fn resume(
        file: F::File,
        path: &str,
        sync: SyncMode,
        kind: Kind,
        stop: usize,
    ) -> (r: Result<Wal<F>>)
        requires
            wal_kind(file.contents()) == Ok::<Kind, ErrorView>(kind),
            stop <= file.contents().len(),
            stop == if kind == Kind::Empty {
                0
            } else {
                wal_stop(file.contents(), kind)
            },
        ensures
            r matches Ok(w) ==> {
                &&& w.wf()
                &&& w.contents() == w.log()
                &&& w.log() == kept_log(file.contents())
                &&& w.writes_as(wal_kind(w.log())->Ok_0)
                &&& replayed(file.contents()) is Ok ==> w.sound()
                &&& w.path_text() == path@
                &&& w.place() == file.place()
                &&& w.sync_mode() == sync
                &&& w.syncs() == file.syncs()
            },
            r matches Err(e) ==> fs::handed_on::<F::File>(e@),
    {
        let mut file = file;
        let ghost before = file.contents();
        let size: u64 = match file.size() {
            Ok(n) => n,
            Err(e) => return Err(Error::Io(e)),
        };
        if (stop as u64) < size {
            match file.set_len(stop as u64) {
                Ok(()) => {},
                Err(e) => return Err(Error::Io(e)),
            }
        }
        proof {
            assert(file.contents() =~= before.take(stop as int));
            cut_log(before);
        }
        if stop == 0 {
            assert(file.contents() =~= Seq::<u8>::empty());
            return Wal::begin(file, path, sync);
        }
        Ok(Wal::behind(file, path, sync, kind, stop as u64))
    }

    /// The log that appends behind what is in a file of this kind.
    fn behind(file: F::File, path: &str, sync: SyncMode, kind: Kind, len: u64) -> (r: Wal<F>)
        requires
            file.contents().len() == len,
        ensures
            r.wf(),
            r.log() == file.contents(),
            r.contents() == file.contents(),
            r.writes_as(kind),
            r.path_text() == path@,
            r.place() == file.place(),
            r.sync_mode() == sync,
            r.syncs() == file.syncs(),
    {
        let wal = Wal {
            file: BufAppend::new(file),
            path: text::copy_text(path),
            sync,
            checksum: header::wal_checksum(kind),
            counted: counted_kind(kind),
            len,
            dirty: false,
        };
        assert(wal.log() =~= wal.contents());
        wal
    }

    /// Open the log at `path` after whatever ended the last run, and read the
    /// records in it.
    ///
    /// What a crash left behind the last whole frame is cut off, because a
    /// frame appended behind it would never be read. A file in which nothing is
    /// whole starts again as a fresh log. A log that does not decode is left as
    /// it is.
    pub fn recover<V: Volume<F>>(fs: V, path: &str, sync: SyncMode) -> (r: Result<(Wal<F>, Vec<Record>)>)
        ensures
            disk::ended::<F>(seq![Change::Opened { path: path@, mode: OpenMode::Append }]),
            r matches Ok((w, records)) ==> {
                &&& w.sound()
                &&& w.contents() == w.log()
                &&& replayed(w.log()) == Ok::<Seq<RecordView>, ErrorView>(record::views(records@))
                &&& exists|log: Seq<u8>| #[trigger]
                    F::answered(path@, OpenMode::Append, Ok(log)) && w.log() == kept_log(log)
                        && replayed(log) == Ok::<Seq<RecordView>, ErrorView>(
                        record::views(records@),
                    )
                &&& w.path_text() == path@
                &&& w.place() == path@
                &&& w.sync_mode() == sync
                &&& w.syncs().len() == 0
            },
            r matches Err(e) ==> unreplayed::<F>(path@, OpenMode::Append, e@),
            r is Err ==> r->Err_0 is Io || r->Err_0 is Corrupt || r->Err_0 is BadFormat,
    {
        let mut disk = fs.mount();
        let r = Self::recover_on(&mut disk, path, sync);
        let ghost done = disk.changes();
        disk.finish();
        assert(done =~= seq![Change::Opened { path: path@, mode: OpenMode::Append }]);
        r
    }

    /// Open the log at `path` after whatever ended the last run, as
    /// [`Wal::recover`] does.
    pub(crate) fn recover_on<H: Holder<F = F>>(
        disk: &mut Disk<H>,
        path: &str,
        sync: SyncMode,
    ) -> (r: Result<(Wal<F>, Vec<Record>)>)
        ensures
            final(disk).changes() == old(disk).changes().push(
                Change::Opened { path: path@, mode: OpenMode::Append },
            ),
            r matches Ok((w, records)) ==> {
                &&& w.sound()
                &&& w.contents() == w.log()
                &&& replayed(w.log()) == Ok::<Seq<RecordView>, ErrorView>(record::views(records@))
                &&& exists|log: Seq<u8>| #[trigger]
                    F::answered(path@, OpenMode::Append, Ok(log)) && w.log() == kept_log(log)
                        && replayed(log) == Ok::<Seq<RecordView>, ErrorView>(
                        record::views(records@),
                    )
                &&& w.path_text() == path@
                &&& w.place() == path@
                &&& w.sync_mode() == sync
                &&& w.syncs().len() == 0
            },
            r matches Err(e) ==> unreplayed::<F>(path@, OpenMode::Append, e@),
            r is Err ==> r->Err_0 is Io || r->Err_0 is Corrupt || r->Err_0 is BadFormat,
    {
        let file = match disk.open(path, OpenMode::Append) {
            Ok(f) => f,
            Err(e) => return Err(Error::Io(e)),
        };
        let log = match file.read_all() {
            Ok(log) => log,
            Err(e) => return Err(Error::Io(e)),
        };
        let ghost before = file.contents();
        proof {
            assert(F::answered(path@, OpenMode::Append, Ok(before)));
            replay_errors(before);
        }
        let kind = header::classify(
            log.as_slice(),
            WAL_MAGIC,
            WAL_VERSION,
            "the write-ahead log",
        )?;
        let mut records: Vec<Record> = Vec::new();
        let mut stop: usize = 0;
        if kind == Kind::Empty {
            assert(record::views(records@) =~= Seq::empty());
        } else {
            let (found, end) = read_frames(log.as_slice(), kind)?;
            records = found;
            stop = end;
        }
        let wal = Wal::resume(file, path, sync, kind, stop)?;
        proof {
            cut_log(before);
        }
        Ok((wal, records))
    }

    /// Where the log is.
    pub fn path(&self) -> (r: &str)
        ensures
            r@ == self.path_text(),
    {
        self.path.as_str()
    }

    /// Whether frames carry a count, so that one frame can hold many records.
    pub fn is_counted(&self) -> (r: bool)
        ensures
            r == self.frames_counted(),
    {
        self.counted
    }

    /// Append one record, as a batch of one.
    pub fn append(&mut self, record: &Record) -> (r: Result<()>)
        requires
            old(self).wf(),
        ensures
            final(self).wf(),
            final(self).same_log(old(self)),
            r is Ok ==> final(self).log() == old(self).log() + frame::frame(
                old(self).frame_checksum(),
                batch_payload(old(self).frames_counted(), seq![record@]),
            ) && final(self).contents() == final(self).log(),
            r is Ok && old(self).sync_mode() == SyncMode::Durable ==> final(self).is_synced(),
            r is Ok ==> final(self).syncs() == old(self).syncs().push(
                (old(self).sync_mode(), final(self).log()),
            ),
            r is Err ==> final(self).tried_to_sync(old(self)),
            r matches Err(e) ==> final(self).log() == old(self).log() && unlogged::<F::File>(
                old(self).log().len() + frame::frame(
                    old(self).frame_checksum(),
                    batch_payload(old(self).frames_counted(), seq![record@]),
                ).len(),
                e@,
            ),
    {
        let mut payload: Vec<u8> = Vec::new();
        if self.counted {
            bytes::push_u32(&mut payload, 1);
        }
        record.encode_into(&mut payload);
        proof {
            record::encoded_all_single(record@);
            assert(payload@ =~= batch_payload(self.counted, seq![record@]));
        }
        self.append_payload(payload.as_slice())
    }

    /// Append records as a single frame, and sync once for all of them. Either
    /// all of them survive a crash or none: there is no half of a batch.
    ///
    /// A log without counts refuses more than one record, because one frame
    /// per record would silently lose the atomicity that was asked for.
    pub fn append_batch(&mut self, records: &[Record]) -> (r: Result<()>)
        requires
            old(self).wf(),
        ensures
            final(self).wf(),
            final(self).same_log(old(self)),
            records@.len() == 0 ==> r is Ok && *final(self) == *old(self),
            !old(self).frames_counted() && records@.len() > 1 ==> r is Err && r->Err_0@
                == ErrorView::BadFormat(refusal(old(self).path_text(), records@.len()))
                && *final(self) == *old(self),
            (old(self).frames_counted() || records@.len() <= 1) && r is Err ==> unlogged::<F::File>(
                old(self).log().len() + frame::frame(
                    old(self).frame_checksum(),
                    batch_payload(old(self).frames_counted(), record::views(records@)),
                ).len(),
                r->Err_0@,
            ),
            r is Ok && records@.len() > 0 ==> final(self).log() == old(self).log() + frame::frame(
                old(self).frame_checksum(),
                batch_payload(old(self).frames_counted(), record::views(records@)),
            ) && final(self).contents() == final(self).log(),
            r is Ok && records@.len() > 0 && old(self).sync_mode() == SyncMode::Durable
                ==> final(self).is_synced(),
            r is Ok && records@.len() > 0 ==> final(self).syncs() == old(self).syncs().push(
                (old(self).sync_mode(), final(self).log()),
            ),
            r is Err ==> final(self).log() == old(self).log() && final(self).tried_to_sync(
                old(self),
            ),
    {
        let n: usize = records.len();
        if n == 0 {
            return Ok(());
        }
        if !self.counted && n > 1 {
            let mut m = text::joined(
                self.path.as_str(),
                " is a version 1 write-ahead log and cannot hold a batch of ",
            );
            m.append(text::decimal(n as u64).as_str());
            m.append(" records; it is replaced by a version 2 file at the next flush");
            return Err(Error::BadFormat(m));
        }
        let mut payload: Vec<u8> = Vec::new();
        if self.counted {
            bytes::push_u32(&mut payload, bytes::low_u32(n));
        }
        let ghost head = payload@;
        let ghost all = record::views(records@);
        let mut i: usize = 0;
        proof {
            assert(all.take(0) =~= Seq::empty());
            assert(payload@ =~= head + record::encoded_all(all.take(0)));
        }
        while i < n
            invariant
                i <= n == records@.len(),
                all == record::views(records@),
                payload@ == head + record::encoded_all(all.take(i as int)),
            decreases n - i,
        {
            records[i].encode_into(&mut payload);
            proof {
                assert(all.take(i + 1).drop_last() =~= all.take(i as int));
                assert(all.take(i + 1).last() == records@[i as int]@);
                assert(payload@ =~= head + record::encoded_all(all.take(i + 1)));
            }
            i += 1;
        }
        proof {
            assert(all.take(n as int) =~= all);
            assert(payload@ =~= batch_payload(self.counted, all));
        }
        self.append_payload(payload.as_slice())
    }

    /// Append one frame and make it as durable as this log's appends are.
    fn append_payload(&mut self, payload: &[u8]) -> (r: Result<()>)
        requires
            old(self).wf(),
        ensures
            final(self).wf(),
            final(self).same_log(old(self)),
            r is Ok ==> final(self).log() == old(self).log() + frame::frame(
                old(self).frame_checksum(),
                payload@,
            ) && final(self).contents() == final(self).log(),
            r is Ok && old(self).sync_mode() == SyncMode::Durable ==> final(self).is_synced(),
            r is Ok ==> final(self).syncs() == old(self).syncs().push(
                (old(self).sync_mode(), final(self).log()),
            ),
            r is Err ==> final(self).tried_to_sync(old(self)),
            r matches Err(e) ==> final(self).log() == old(self).log() && unlogged::<F::File>(
                old(self).log().len() + frame::frame(old(self).frame_checksum(), payload@).len(),
                e@,
            ),
    {
        self.repair()?;
        let ghost log = self.log();
        let ghost was = self.contents();
        let mut out: Vec<u8> = Vec::new();
        frame::push_frame(&mut out, self.checksum, payload);
        assert(out@ =~= frame::frame(self.checksum, payload@));
        let longer: u64 = match self.len.checked_add(out.len() as u64) {
            Some(n) => n,
            None => return Err(
                Error::Io(IoError::new(IoErrorKind::Other, "the write-ahead log is too long")),
            ),
        };
        self.dirty = true;
        match self.file.write(out.as_slice()) {
            Ok(()) => {},
            Err(e) => {
                proof {
                    kept(was, self.contents(), self.len as int);
                }
                return Err(Error::Io(e));
            },
        }
        // A record in this process's buffer is one that a crash loses without
        // the file ever being short, so the buffer is emptied on every append.
        let ghost mid = self.contents();
        proof {
            kept(was, mid, self.len as int);
        }
        match self.file.flush() {
            Ok(()) => {},
            Err(e) => {
                proof {
                    kept(mid, self.contents(), self.len as int);
                }
                return Err(Error::Io(e));
            },
        }
        proof {
            kept(mid, self.contents(), self.len as int);
        }
        let mode = self.sync;
        match self.file.get_mut().sync_as(mode) {
            Ok(()) => {},
            Err(e) => return Err(Error::Io(e)),
        }
        proof {
            assert(was =~= log);
            assert(self.contents() =~= log + out@);
            assert(self.contents().take(longer as int) =~= self.contents());
        }
        self.len = longer;
        self.dirty = false;
        Ok(())
    }

    /// Cut off what a failed append left in the file, so that the next frame
    /// stands where it will be read.
    fn repair(&mut self) -> (r: Result<()>)
        requires
            old(self).wf(),
        ensures
            final(self).wf(),
            final(self).same_log(old(self)),
            final(self).log() == old(self).log(),
            final(self).syncs() == old(self).syncs(),
            r is Ok ==> final(self).contents() == final(self).log() && !final(self).dirty,
            r matches Err(e) ==> fs::handed_on::<F::File>(e@),
    {
        if self.dirty {
            let ghost was = self.contents();
            self.file.discard();
            let len: u64 = self.len;
            match self.file.get_mut().set_len(len) {
                Ok(()) => {},
                Err(e) => {
                    proof {
                        kept(was.take(len as int), self.contents(), len as int);
                    }
                    return Err(Error::Io(e));
                },
            }
            proof {
                assert(self.contents() =~= was.take(len as int));
            }
            self.dirty = false;
        }
        assert(self.contents() =~= self.log());
        Ok(())
    }

    /// Make everything appended so far durable, whatever the log's own mode is:
    /// a caller that is about to publish the file by a rename needs that.
    pub fn sync(&mut self) -> (r: Result<()>)
        requires
            old(self).wf(),
        ensures
            final(self).wf(),
            final(self).same_log(old(self)),
            final(self).log() == old(self).log(),
            r is Ok ==> final(self).contents() == final(self).log() && final(self).is_synced()
                && final(self).syncs() == old(self).syncs().push(
                (SyncMode::Durable, final(self).log()),
            ),
            r matches Err(e) ==> fs::handed_on::<F::File>(e@),
    {
        self.repair()?;
        match self.file.get_mut().sync_as(SyncMode::Durable) {
            Ok(()) => Ok(()),
            Err(e) => Err(Error::Io(e)),
        }
    }

    /// Rename the log to `dest`. Appends go to the renamed file from then on.
    pub fn rename_to<V: Volume<F>>(&mut self, fs: V, dest: &str) -> (r: Result<()>)
        requires
            old(self).wf(),
        ensures
            disk::ended::<F>(
                seq![
                    Change::Renamed { from: old(self).path_text(), to: dest@, ok: r is Ok },
                ],
            ),
            final(self).wf(),
            r is Ok ==> final(self).path_text() == dest@,
            r is Ok ==> F::renamed(old(self).path_text(), dest@),
            r matches Err(e) ==> fs::handed_on::<F::File>(e@) && final(self).path_text() == old(
                self,
            ).path_text(),
            final(self).log() == old(self).log(),
            final(self).contents() == old(self).contents(),
            final(self).syncs() == old(self).syncs(),
            final(self).place() == old(self).place(),
            final(self).sync_mode() == old(self).sync_mode(),
            final(self).frame_checksum() == old(self).frame_checksum(),
            final(self).frames_counted() == old(self).frames_counted(),
    {
        let mut disk = fs.mount();
        let r = self.rename_to_on(&mut disk, dest);
        let ghost done = disk.changes();
        disk.finish();
        assert(done =~= seq![
            Change::Renamed { from: old(self).path_text(), to: dest@, ok: r is Ok },
        ]);
        r
    }

    /// Rename the log to `dest`, as [`Wal::rename_to`] does.
    pub(crate) fn rename_to_on<H: Holder<F = F>>(
        &mut self,
        disk: &mut Disk<H>,
        dest: &str,
    ) -> (r: Result<()>)
        requires
            old(self).wf(),
        ensures
            final(disk).changes() == old(disk).changes().push(
                Change::Renamed { from: old(self).path_text(), to: dest@, ok: r is Ok },
            ),
            final(self).wf(),
            r is Ok ==> final(self).path_text() == dest@,
            r is Ok ==> F::renamed(old(self).path_text(), dest@),
            r matches Err(e) ==> fs::handed_on::<F::File>(e@) && final(self).path_text() == old(
                self,
            ).path_text(),
            final(self).log() == old(self).log(),
            final(self).contents() == old(self).contents(),
            final(self).syncs() == old(self).syncs(),
            final(self).place() == old(self).place(),
            final(self).sync_mode() == old(self).sync_mode(),
            final(self).frame_checksum() == old(self).frame_checksum(),
            final(self).frames_counted() == old(self).frames_counted(),
    {
        match disk.rename(self.path.as_str(), dest) {
            Ok(()) => {},
            Err(e) => return Err(Error::Io(e)),
        }
        self.path = text::copy_text(dest);
        Ok(())
    }

    /// Read every intact record of the log at `path`. Where there is no file
    /// there are no records.
    pub fn replay<V: Volume<F>>(fs: V, path: &str) -> (r: Result<Vec<Record>>)
        ensures
            disk::ended::<F>(Seq::empty()),
            r matches Ok(v) ==> read_back::<F>(path@, record::views(v@)),
            r matches Err(e) ==> unreplayed::<F>(path@, OpenMode::Read, e@),
    {
        let disk = fs.mount();
        let r = Self::replay_on(&disk, path);
        disk.finish();
        r
    }

    /// Read every intact record of the log at `path`, as [`Wal::replay`] does.
    pub(crate) fn replay_on<H: Holder<F = F>>(disk: &Disk<H>, path: &str) -> (r: Result<
        Vec<Record>,
    >)
        ensures
            r matches Ok(v) ==> read_back::<F>(path@, record::views(v@)),
            r matches Err(e) ==> unreplayed::<F>(path@, OpenMode::Read, e@),
    {
        let log = match disk.look(path) {
            Ok(f) => {
                assert(F::answered(path@, OpenMode::Read, Ok(f.contents())));
                match f.read_all() {
                    Ok(log) => log,
                    Err(e) => return Err(Error::Io(e)),
                }
            },
            Err(e) => {
                assert(F::answered(path@, OpenMode::Read, Err(e@)));
                if e.kind() == IoErrorKind::NotFound {
                    return Ok(Vec::new());
                }
                return Err(Error::Io(e));
            },
        };
        replay_bytes(log.as_slice())
    }
}

proof fn records_errors(buf: Seq<u8>, pos: int, n: nat)
    ensures
        record::decoded_some(buf, pos, n) matches Err(e) ==> e is Corrupt,
    decreases n,
{
    if n > 0 {
        if let Ok((r, end)) = record::decoded(buf, pos) {
            records_errors(buf, end, (n - 1) as nat);
        }
    }
}

proof fn batch_errors(counted: bool, payloads: Seq<Seq<u8>>)
    ensures
        records_of(counted, payloads) matches Err(e) ==> e is Corrupt,
    decreases payloads.len(),
{
    if payloads.len() > 0 {
        let p = payloads.last();
        batch_errors(counted, payloads.drop_last());
        if counted {
            records_errors(p, 4, bytes::from_le(p.subrange(0, 4)));
        } else {
            records_errors(p, 0, 1);
        }
    }
}

/// A log that cannot be read is corrupt, or of a version that this build does
/// not understand.
pub proof fn replay_errors(log: Seq<u8>)
    ensures
        replayed(log) matches Err(e) ==> e is Corrupt || e is BadFormat,
{
    if let Ok(kind) = wal_kind(log) {
        batch_errors(is_counted(kind), wal_payloads(log, kind));
    }
}

proof fn kept(before: Seq<u8>, after: Seq<u8>, n: int)
    requires
        before.is_prefix_of(after),
        0 <= n <= before.len(),
    ensures
        n <= after.len(),
        after.take(n) == before.take(n),
{
    assert forall|i: int| 0 <= i < n implies after.take(n)[i] == before.take(n)[i] by {
        assert(after.subrange(0, before.len() as int)[i] == before[i]);
    }
    assert(after.take(n) =~= before.take(n));
}

/// What is kept of a log that can be read is intact and holds the same records.
pub proof fn cut_log(log: Seq<u8>)
    requires
        wal_kind(log) is Ok,
    ensures
        kept_log(log).len() >= HEADER_LEN,
        wal_kind(log)->Ok_0 != Kind::Empty && wal_stop(log, wal_kind(log)->Ok_0) > 0
            ==> wal_kind(kept_log(log)) == wal_kind(log),
        wal_kind(log)->Ok_0 != Kind::Empty ==> 0 <= wal_stop(log, wal_kind(log)->Ok_0)
            <= log.len(),
        replayed(log) is Ok ==> intact(kept_log(log), wal_kind(kept_log(log))->Ok_0) && replayed(
            kept_log(log),
        ) == replayed(log),
{
    let kind = wal_kind(log)->Ok_0;
    header::header_len(WAL_MAGIC@, WAL_VERSION);
    fresh_log();
    if kind != Kind::Empty {
        let start = header::first_frame(kind) as int;
        let c = header::wal_checksum_of(kind);
        let n = wal_stop(log, kind);
        frame::cut_at_stop(log, start, c);
        match frame::frame_end(log, start, c) {
            Some(end) => {
                frame::cut_at_stop(log, end, c);
            },
            None => {
                assert(wal_payloads(log, kind) =~= Seq::empty());
            },
        }
        if n > 0 {
            assert(n >= HEADER_LEN);
            kind_is_settled(log.take(n), log.skip(n));
            assert(log.take(n) + log.skip(n) =~= log);
        }
    }
}

/// An intact log is kept byte for byte.
pub proof fn intact_log_is_kept(log: Seq<u8>, kind: Kind)
    requires
        intact(log, kind),
    ensures
        kept_log(log) == log,
{
    assert(log.take(log.len() as int) =~= log);
}

/// What a crash left behind an intact log is not kept, and the log is.
pub proof fn torn_tail_is_cut(log: Seq<u8>, kind: Kind, tail: Seq<u8>)
    requires
        intact(log, kind),
        frame::frame_end(log + tail, log.len() as int, header::wal_checksum_of(kind)) is None,
    ensures
        kept_log(log + tail) == log,
        replayed(log + tail) == replayed(log),
{
    kind_is_settled(log, tail);
    let start = header::first_frame(kind) as int;
    let c = header::wal_checksum_of(kind);
    frame::stop_before_tail(log, start, c, tail);
    assert((log + tail).take(log.len() as int) =~= log);
}

// -------------------------------------------------------------------- laws
/// Whether a batch can stand in a frame: no length is too long for the 32 bits
/// that hold it, and a frame without a count holds exactly one record.
pub open spec fn batch_fits(counted: bool, batch: Seq<RecordView>) -> bool {
    &&& record::all_fit(batch)
    &&& batch_payload(counted, batch).len() < 0x1_0000_0000
    &&& batch.len() < 0x1_0000_0000
    &&& counted || batch.len() == 1
}

/// Whether a batch can stand in a frame.
pub fn fits(counted: bool, records: &[Record]) -> (r: bool)
    ensures
        r == batch_fits(counted, record::views(records@)),
{
    let ghost all = record::views(records@);
    proof {
        record::encoded_all_bounds(all);
        bytes::le_len(all.len() % 0x1_0000_0000, 4);
    }
    let room: u128 = if counted {
        0xffff_fffb
    } else {
        0xffff_ffff
    };
    let small = record::encoded_total(records, room).is_some();
    proof {
        if small {
            assert(record::all_fit(all)) by {
                assert forall|i: int| 0 <= i < all.len() implies (#[trigger] all[i]).fits() by {
                    assert(all[i].size() <= record::encoded_all(all).len());
                }
            }
        }
    }
    small && (counted || records.len() == 1)
}

/// A batch is read back from its payload.
pub proof fn batch_round_trip(counted: bool, batch: Seq<RecordView>)
    requires
        batch_fits(counted, batch),
    ensures
        batch_of(counted, batch_payload(counted, batch)) == Ok::<Seq<RecordView>, ErrorView>(batch),
{
    let payload = batch_payload(counted, batch);
    if counted {
        let count = bytes::le(batch.len(), 4);
        bytes::spans();
        bytes::le_round_trip(batch.len(), 4);
        assert(payload.subrange(0, 4) =~= count);
        record::records_round_trip(count, batch, Seq::empty());
        assert(count + record::encoded_all(batch) + Seq::empty() =~= payload);
    } else {
        record::records_round_trip(Seq::empty(), batch, Seq::empty());
        assert(Seq::<u8>::empty() + record::encoded_all(batch) + Seq::empty() =~= payload);
    }
}

/// Appending does not change what kind of log a file is, once it is as long as
/// a header.
pub proof fn kind_is_settled(log: Seq<u8>, more: Seq<u8>)
    requires
        log.len() >= HEADER_LEN,
    ensures
        wal_kind(log + more) == wal_kind(log),
{
    assert((log + more).subrange(0, 4) =~= log.subrange(0, 4));
    assert((log + more).subrange(4, 6) =~= log.subrange(4, 6));
}

/// A log in which every frame is whole and decodes, and that is long enough to
/// tell what kind it is.
pub open spec fn intact(log: Seq<u8>, kind: Kind) -> bool {
    &&& log.len() >= HEADER_LEN
    &&& wal_kind(log) == Ok::<Kind, ErrorView>(kind)
    &&& frame::stop(log, header::first_frame(kind) as int, header::wal_checksum_of(kind))
        == log.len()
    &&& replayed(log) is Ok
}

/// The bytes that appending a batch to a log of this kind adds.
pub open spec fn batch_frame(kind: Kind, batch: Seq<RecordView>) -> Seq<u8> {
    frame::frame(header::wal_checksum_of(kind), batch_payload(is_counted(kind), batch))
}

/// A fresh log is intact and holds no records.
pub proof fn fresh_log()
    ensures
        intact(header::header_bytes(WAL_MAGIC@, WAL_VERSION), Kind::Versioned(WAL_VERSION)),
        replayed(header::header_bytes(WAL_MAGIC@, WAL_VERSION)) == Ok::<
            Seq<RecordView>,
            ErrorView,
        >(Seq::empty()),
{
    let log = header::header_bytes(WAL_MAGIC@, WAL_VERSION);
    header::header_len(WAL_MAGIC@, WAL_VERSION);
    header::header_round_trip(
        WAL_MAGIC@,
        WAL_VERSION,
        Seq::empty(),
        WAL_VERSION,
        "the write-ahead log"@,
    );
    assert(log + Seq::empty() =~= log);
    let kind = Kind::Versioned(WAL_VERSION);
    assert(frame::frame_end(log, HEADER_LEN as int, header::wal_checksum_of(kind)) is None);
    assert(wal_payloads(log, kind) =~= Seq::empty());
}

/// What is appended to an intact log is replayed: the records that were there,
/// then those of the batch. The log stays intact.
pub proof fn append_then_replay(log: Seq<u8>, kind: Kind, batch: Seq<RecordView>)
    requires
        intact(log, kind),
        batch_fits(is_counted(kind), batch),
    ensures
        intact(log + batch_frame(kind, batch), kind),
        replayed(log + batch_frame(kind, batch)) == Ok::<Seq<RecordView>, ErrorView>(
            replayed(log)->Ok_0 + batch,
        ),
{
    let c = header::wal_checksum_of(kind);
    let counted = is_counted(kind);
    let payload = batch_payload(counted, batch);
    let start = header::first_frame(kind) as int;
    frame::append_frame(log, start, c, payload);
    kind_is_settled(log, batch_frame(kind, batch));
    batch_round_trip(counted, batch);
    let ps = frame::payloads(log, start, c);
    assert(ps.push(payload).drop_last() =~= ps);
}

/// The payloads of batches.
pub open spec fn batch_payloads(batches: Seq<Seq<RecordView>>) -> Seq<Seq<u8>> {
    batches.map_values(|b: Seq<RecordView>| batch_payload(true, b))
}

/// The log that this build writes when these batches are appended.
pub open spec fn log_of(batches: Seq<Seq<RecordView>>) -> Seq<u8> {
    header::header_bytes(WAL_MAGIC@, WAL_VERSION) + frame::frames(
        Checksum::Castagnoli,
        batch_payloads(batches),
    )
}

/// All records of these batches, in order.
pub open spec fn flat(batches: Seq<Seq<RecordView>>) -> Seq<RecordView>
    decreases batches.len(),
{
    if batches.len() == 0 {
        Seq::empty()
    } else {
        flat(batches.drop_last()) + batches.last()
    }
}

proof fn flat_is_replayed(batches: Seq<Seq<RecordView>>)
    requires
        forall|i: int| 0 <= i < batches.len() ==> batch_fits(true, #[trigger] batches[i]),
    ensures
        records_of(true, batch_payloads(batches)) == Ok::<Seq<RecordView>, ErrorView>(
            flat(batches),
        ),
    decreases batches.len(),
{
    let ps = batch_payloads(batches);
    if batches.len() > 0 {
        assert(ps.drop_last() =~= batch_payloads(batches.drop_last()));
        flat_is_replayed(batches.drop_last());
        batch_round_trip(true, batches.last());
    }
}

/// A log with one more batch is the log and one more frame.
pub proof fn log_grows(batches: Seq<Seq<RecordView>>, batch: Seq<RecordView>)
    ensures
        log_of(batches.push(batch)) == log_of(batches) + batch_frame(
            Kind::Versioned(WAL_VERSION),
            batch,
        ),
{
    let ps = batch_payloads(batches.push(batch));
    assert(ps.drop_last() =~= batch_payloads(batches));
    assert(log_of(batches.push(batch)) =~= log_of(batches) + batch_frame(
        Kind::Versioned(WAL_VERSION),
        batch,
    ));
}

/// A log without batches is a header.
pub proof fn log_of_none()
    ensures
        log_of(Seq::empty()) == header::header_bytes(WAL_MAGIC@, WAL_VERSION),
{
    assert(log_of(Seq::empty()) =~= header::header_bytes(WAL_MAGIC@, WAL_VERSION));
}

/// A log that this build wrote is intact and replays to the records of its
/// batches.
pub proof fn log_is_intact(batches: Seq<Seq<RecordView>>)
    requires
        forall|i: int| 0 <= i < batches.len() ==> batch_fits(true, #[trigger] batches[i]),
    ensures
        intact(log_of(batches), Kind::Versioned(WAL_VERSION)),
        replayed(log_of(batches)) == Ok::<Seq<RecordView>, ErrorView>(flat(batches)),
    decreases batches.len(),
{
    let kind = Kind::Versioned(WAL_VERSION);
    if batches.len() == 0 {
        fresh_log();
        log_of_none();
        assert(batches =~= Seq::empty());
    } else {
        let rest = batches.drop_last();
        log_is_intact(rest);
        append_then_replay(log_of(rest), kind, batches.last());
        log_grows(rest, batches.last());
        assert(rest.push(batches.last()) =~= batches);
    }
}

/// The frames of a log that lie whole within its first `n` bytes.
pub open spec fn whole_batches(batches: Seq<Seq<RecordView>>, n: int) -> nat {
    frame::whole_frames(log_of(batches), HEADER_LEN as int, Checksum::Castagnoli, n)
}

/// Wherever a crash cuts a log off, replay gives whole batches: those whose
/// frames lie before the cut, in order, and nothing of any other. Uncut, it
/// gives them all.
pub proof fn batches_are_atomic(batches: Seq<Seq<RecordView>>, n: int)
    requires
        forall|i: int| 0 <= i < batches.len() ==> batch_fits(true, #[trigger] batches[i]),
        0 <= n <= log_of(batches).len(),
    ensures
        whole_batches(batches, n) <= batches.len(),
        replayed(log_of(batches).take(n)) == Ok::<Seq<RecordView>, ErrorView>(
            flat(batches.take(whole_batches(batches, n) as int)),
        ),
        n == log_of(batches).len() ==> whole_batches(batches, n) == batches.len(),
{
    let c = Checksum::Castagnoli;
    let front = header::header_bytes(WAL_MAGIC@, WAL_VERSION);
    let ps = batch_payloads(batches);
    let log = log_of(batches);
    let cut = log.take(n);
    let k = whole_batches(batches, n);
    header::header_len(WAL_MAGIC@, WAL_VERSION);
    frame::frames_round_trip(front, c, ps);
    frame::cut_log(log, HEADER_LEN as int, c, n);
    assert(frame::payloads(log, HEADER_LEN as int, c) == ps);
    frame::all_frames_are_whole(log, HEADER_LEN as int, c);
    assert(batch_payloads(batches.take(k as int)) =~= ps.take(k as int));
    flat_is_replayed(batches.take(k as int));
    if n >= HEADER_LEN {
        let rest = cut.skip(HEADER_LEN as int);
        header::header_round_trip(
            WAL_MAGIC@,
            WAL_VERSION,
            rest,
            WAL_VERSION,
            "the write-ahead log"@,
        );
        assert(front + rest =~= cut);
    } else {
        assert(frame::frame_end(log, HEADER_LEN as int, c) matches Some(e) ==> e > n);
        assert(k == 0);
        assert(batches.take(0) =~= Seq::empty());
        if n > 0 {
            assert(frame::frame_end(cut, 0, Checksum::IsoHdlc) is None);
            assert(wal_payloads(cut, Kind::Legacy) =~= Seq::empty());
        }
    }
}

/// What stands in the payload of a frame: how many records it holds, lowest byte first,
/// where its kind of log counts them, and then the records. All kinds do but version 1
/// and logs from before there were headers.
pub proof fn batch_layout(batch: Seq<RecordView>, version: u16)
    requires
        batch.len() < 0x1_0000_0000,
    ensures
        bytes::from_le(batch_payload(true, batch).take(4)) == batch.len(),
        batch_payload(true, batch).skip(4) == record::encoded_all(batch),
        batch_payload(false, batch) == record::encoded_all(batch),
        is_counted(Kind::Versioned(version)) <==> version != 1,
        !is_counted(Kind::Legacy),
{
    bytes::spans();
    bytes::le_round_trip(batch.len(), 4);
    assert(batch_payload(true, batch).take(4) =~= bytes::le(batch.len(), 4));
    assert(batch_payload(true, batch).skip(4) =~= record::encoded_all(batch));
}

/// A batch is appended to a log of this build as one frame: CRC32C of all of the
/// payload, its length, and the payload.
pub proof fn log_frames_carry_crc32c(batches: Seq<Seq<RecordView>>, batch: Seq<RecordView>)
    requires
        batch_fits(true, batch),
    ensures
        ({
            let payload = batch_payload(true, batch);
            log_of(batches.push(batch)) == log_of(batches) + (bytes::le(
                hash::castagnoli(payload) as nat,
                4,
            ) + bytes::le(payload.len(), 4) + payload)
        }),
{
    log_grows(batches, batch);
}

/// A frame whose payload was damaged stops replay: where the payload does not have the
/// CRC that stands in front of it, it is not replayed, nor is what stands behind it, and
/// everything before it is.
pub proof fn damaged_frame_stops_replay(
    batches: Seq<Seq<RecordView>>,
    payload: Seq<u8>,
    damaged: Seq<u8>,
    after: Seq<u8>,
)
    requires
        forall|i: int| 0 <= i < batches.len() ==> batch_fits(true, #[trigger] batches[i]),
        payload.len() < 0x1_0000_0000,
        damaged.len() == payload.len(),
        hash::castagnoli(damaged) != hash::castagnoli(payload),
    ensures
        replayed(
            log_of(batches) + (bytes::le(hash::castagnoli(payload) as nat, 4) + bytes::le(
                payload.len(),
                4,
            ) + damaged + after),
        ) == Ok::<Seq<RecordView>, ErrorView>(flat(batches)),
{
    let c = Checksum::Castagnoli;
    let kind = Kind::Versioned(WAL_VERSION);
    let log = log_of(batches);
    let tail = bytes::le(hash::castagnoli(payload) as nat, 4) + bytes::le(payload.len(), 4)
        + damaged + after;
    let all = log + tail;
    let pos = log.len() as int;
    log_is_intact(batches);
    header::header_len(WAL_MAGIC@, WAL_VERSION);
    bytes::spans();
    bytes::le_round_trip(hash::castagnoli(payload) as nat, 4);
    bytes::le_round_trip(payload.len(), 4);
    frame::frame_is_read_if_its_crc_is_right(all, pos, c);
    assert(all.subrange(pos, pos + 4) =~= bytes::le(hash::castagnoli(payload) as nat, 4));
    assert(all.subrange(pos + 4, pos + 8) =~= bytes::le(payload.len(), 4));
    assert(all.subrange(pos + 8, pos + 8 + payload.len()) =~= damaged);
    frame::stop_before_tail(log, HEADER_LEN as int, c, tail);
    kind_is_settled(log, tail);
}

/// What a frame takes: a batch whose payload is shorter than four gigabytes and whose
/// keys and values are, any number of records where they are counted and else one.
pub proof fn batches_up_to_four_gigabytes_fit(batch: Seq<RecordView>)
    ensures
        batch_fits(true, batch) <==> 4 + record::encoded_all(batch).len() < 0x1_0000_0000,
        batch_fits(false, batch) <==> batch.len() == 1 && record::encoded_all(batch).len()
            < 0x1_0000_0000,
{
    bytes::le_len(batch.len() % 0x1_0000_0000, 4);
    record::encoded_all_bounds(batch);
    if record::encoded_all(batch).len() < 0x1_0000_0000 {
        assert forall|i: int| 0 <= i < batch.len() implies (#[trigger] batch[i]).fits() by {
            assert(batch[i].size() <= record::encoded_all(batch).len());
        }
    }
}

/// A log that this build starts is eight bytes: `LSMW`, the version, and two zeros.
pub proof fn fresh_log_layout()
    ensures
        log_of(Seq::empty()) == seq![76u8, 83u8, 77u8, 87u8, 3u8, 0u8, 0u8, 0u8],
{
    log_of_none();
    header::header_layout(WAL_MAGIC@, WAL_VERSION);
    let log = log_of(Seq::empty());
    assert(log.take(4) == WAL_MAGIC@);
    assert forall|i: int| 0 <= i < 4 implies log[i] == WAL_MAGIC@[i] by {
        assert(log.take(4)[i] == log[i]);
    }
    assert(log =~= seq![76u8, 83u8, 77u8, 87u8, 3u8, 0u8, 0u8, 0u8]);
}

} // verus!
