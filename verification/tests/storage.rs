//! The write-ahead log, the manifest, tables and compaction, on a filesystem
//! that is held in memory.
#![allow(dead_code)]

use std::cell::{Cell, RefCell};
use std::collections::{BTreeMap, BTreeSet};
use std::rc::Rc;

use lsm_kv::compaction::compact;
use lsm_kv::error::{Error, IoError, IoErrorKind};
use lsm_kv::fs::{BufAppend, File, Fs, OpenMode, SyncMode};
use lsm_kv::header::{HEADER_LEN, MANIFEST_MAGIC, WAL_MAGIC};
use lsm_kv::manifest::{replay, Manifest, VersionEdit};
use lsm_kv::names::{manifest_path, CURRENT_FILENAME};
use lsm_kv::record::Record;
use lsm_kv::sstable::{SsTableReader, SsTableWriter};
use lsm_kv::wal::Wal;
use lsm_kv::{directory, fuzzing};

// ------------------------------------------------------ a filesystem in memory

#[derive(Clone, Default)]
struct MemFs {
    files: Rc<RefCell<BTreeMap<String, Rc<RefCell<Vec<u8>>>>>>,
    locks: Rc<RefCell<BTreeSet<String>>>,
    counts: Rc<Counts>,
    /// Appends to paths that contain the text are refused, after the first few.
    refuse: Rc<RefCell<Option<(String, usize)>>>,
}

#[derive(Default)]
struct Counts {
    opens: Cell<usize>,
    renames: Cell<usize>,
    removes: Cell<usize>,
    dir_syncs: Cell<usize>,
    file_syncs: Cell<usize>,
    /// Every sync that was asked for, and how long the file was then.
    modes: RefCell<Vec<(SyncMode, usize)>>,
}

struct MemFile {
    data: Rc<RefCell<Vec<u8>>>,
    path: String,
    held: Option<Rc<RefCell<BTreeSet<String>>>>,
    counts: Rc<Counts>,
    allowance: Option<usize>,
}

impl Drop for MemFile {
    fn drop(&mut self) {
        if let Some(locks) = &self.held {
            locks.borrow_mut().remove(&self.path);
        }
    }
}

type Io<T> = std::result::Result<T, IoError>;

fn missing<T>() -> Io<T> {
    Err(IoError::new(IoErrorKind::NotFound, "no such file"))
}

fn bump(c: &Cell<usize>) {
    c.set(c.get() + 1);
}

impl File for MemFile {
    fn read_at(&self, off: u64, buf: &mut [u8]) -> Io<usize> {
        let data = self.data.borrow();
        let start = (off as usize).min(data.len());
        let n = (data.len() - start).min(buf.len());
        buf[..n].copy_from_slice(&data[start..start + n]);
        Ok(n)
    }
    fn append(&mut self, buf: &[u8]) -> Io<()> {
        match &mut self.allowance {
            Some(0) => {
                // Half of it gets through, as on a disk that fills up.
                self.data.borrow_mut().extend(&buf[..buf.len() / 2]);
                return Err(IoError::new(IoErrorKind::Other, "no space left"));
            }
            Some(n) => *n -= 1,
            None => {}
        }
        self.data.borrow_mut().extend(buf);
        Ok(())
    }
    fn sync_as(&mut self, mode: SyncMode) -> Io<()> {
        let len = self.data.borrow().len();
        self.counts.modes.borrow_mut().push((mode, len));
        if mode.is_durable() {
            bump(&self.counts.file_syncs);
        }
        Ok(())
    }
    fn size(&self) -> Io<u64> {
        Ok(self.data.borrow().len() as u64)
    }
    fn set_len(&mut self, len: u64) -> Io<()> {
        self.data.borrow_mut().resize(len as usize, 0);
        Ok(())
    }
}

impl Fs for MemFs {
    type File = MemFile;

    fn create_dir_all(&self, _dir: &str) -> Io<()> {
        Ok(())
    }
    fn list(&self, dir: &str) -> Io<Vec<String>> {
        let prefix = format!("{dir}/");
        Ok(self
            .files
            .borrow()
            .keys()
            .filter(|p| p.starts_with(&prefix) && !p[prefix.len()..].contains('/'))
            .cloned()
            .collect())
    }
    fn open(&self, path: &str, mode: OpenMode) -> Io<MemFile> {
        bump(&self.counts.opens);
        let mut files = self.files.borrow_mut();
        if mode == OpenMode::Read && !files.contains_key(path) {
            return missing();
        }
        let mut held = None;
        if mode == OpenMode::Lock {
            if !self.locks.borrow_mut().insert(path.to_string()) {
                return Err(IoError::new(IoErrorKind::WouldBlock, "held elsewhere"));
            }
            held = Some(Rc::clone(&self.locks));
        }
        let data = Rc::clone(files.entry(path.to_string()).or_default());
        if mode == OpenMode::Truncate {
            data.borrow_mut().clear();
        }
        let allowance = match &*self.refuse.borrow() {
            Some((text, n)) if path.contains(text.as_str()) => Some(*n),
            _ => None,
        };
        Ok(MemFile {
            data,
            path: path.to_string(),
            held,
            counts: Rc::clone(&self.counts),
            allowance,
        })
    }
    fn rename(&self, from: &str, to: &str) -> Io<()> {
        bump(&self.counts.renames);
        let mut files = self.files.borrow_mut();
        match files.remove(from) {
            Some(data) => {
                files.insert(to.to_string(), data);
                Ok(())
            }
            None => missing(),
        }
    }
    fn hard_link(&self, original: &str, link: &str) -> Io<()> {
        let mut files = self.files.borrow_mut();
        if files.contains_key(link) {
            return Err(IoError::new(IoErrorKind::AlreadyExists, "it exists"));
        }
        match files.get(original).cloned() {
            Some(data) => {
                files.insert(link.to_string(), data);
                Ok(())
            }
            None => missing(),
        }
    }
    fn remove(&self, path: &str) -> Io<()> {
        bump(&self.counts.removes);
        match self.files.borrow_mut().remove(path) {
            Some(_) => Ok(()),
            None => missing(),
        }
    }
    fn size(&self, path: &str) -> Io<u64> {
        match self.files.borrow().get(path) {
            Some(data) => Ok(data.borrow().len() as u64),
            None => missing(),
        }
    }
    fn sync_dir(&self, _dir: &str) -> Io<()> {
        bump(&self.counts.dir_syncs);
        Ok(())
    }
}

impl MemFs {
    fn read(&self, path: &str) -> Vec<u8> {
        self.files.borrow()[path].borrow().clone()
    }
    fn write(&self, path: &str, bytes: &[u8]) {
        let data = Rc::new(RefCell::new(bytes.to_vec()));
        self.files.borrow_mut().insert(path.to_string(), data);
    }
    fn cut(&self, path: &str, len: usize) {
        self.files.borrow()[path].borrow_mut().truncate(len);
    }
    fn has(&self, path: &str) -> bool {
        self.files.borrow().contains_key(path)
    }
}

// ------------------------------------------------------------ files and buffers

#[test]
fn a_file_round_trips_through_the_seam() {
    let fs = MemFs::default();
    {
        let mut f = fs.open("f", OpenMode::Truncate).unwrap();
        f.append(b"hello ").unwrap();
        f.append(b"world").unwrap();
        f.sync().unwrap();
    }
    let f = fs.open("f", OpenMode::Read).unwrap();
    assert_eq!(f.size().unwrap(), 11);
    assert_eq!(f.read_all().unwrap(), b"hello world");
    let mut buf = [0u8; 5];
    f.read_exact_at(6, &mut buf).unwrap();
    assert_eq!(&buf, b"world");
}

#[test]
fn reading_past_the_end_is_an_error_rather_than_a_short_answer() {
    let fs = MemFs::default();
    fs.open("f", OpenMode::Truncate)
        .unwrap()
        .append(b"abc")
        .unwrap();
    let f = fs.open("f", OpenMode::Read).unwrap();
    let mut buf = [0u8; 8];
    assert_eq!(
        f.read_exact_at(0, &mut buf).unwrap_err().kind(),
        IoErrorKind::UnexpectedEof
    );
}

#[test]
fn buffered_appends_produce_the_same_file_as_direct_ones() {
    let fs = MemFs::default();
    let pieces: Vec<Vec<u8>> = (0..64u8).map(|i| vec![i; (i as usize % 17) + 1]).collect();
    let expected: Vec<u8> = pieces.concat();

    for cap in [1usize, 7, 64, 4096] {
        let path = format!("buffered-{cap}");
        let mut w = BufAppend::with_capacity(fs.open(&path, OpenMode::Truncate).unwrap(), cap);
        for piece in &pieces {
            w.write(piece).unwrap();
        }
        w.sync().unwrap();
        drop(w);
        assert_eq!(
            fs.open(&path, OpenMode::Read).unwrap().read_all().unwrap(),
            expected,
            "a buffer of {cap} bytes changed the file"
        );
    }
}

#[test]
fn an_unflushed_buffer_has_not_reached_the_file() {
    let fs = MemFs::default();
    let mut w = BufAppend::with_capacity(fs.open("held", OpenMode::Truncate).unwrap(), 1024);
    w.write(b"not yet").unwrap();
    assert_eq!(fs.size("held").unwrap(), 0, "the buffer wrote through");
    w.flush().unwrap();
    assert_eq!(fs.size("held").unwrap(), 7);
}

#[test]
fn a_buffer_that_is_discarded_never_reaches_the_file() {
    let fs = MemFs::default();
    let mut w = BufAppend::new(fs.open("held", OpenMode::Truncate).unwrap());
    w.write(b"lost").unwrap();
    w.discard();
    w.write(b"kept").unwrap();
    w.flush().unwrap();
    assert_eq!(fs.read("held"), b"kept");
}

#[test]
fn a_buffer_is_synced_once_and_not_after_bytes_were_refused() {
    let fs = MemFs::default();
    let mut w = BufAppend::new(fs.open("file", OpenMode::Truncate).unwrap());
    w.write(b"abc").unwrap();
    w.flush().unwrap();
    assert_eq!(fs.counts.modes.borrow().len(), 0);
    w.write(b"de").unwrap();
    w.sync().unwrap();
    w.sync().unwrap();
    assert_eq!(
        *fs.counts.modes.borrow(),
        [(SyncMode::Durable, 5), (SyncMode::Durable, 5)]
    );

    *fs.refuse.borrow_mut() = Some(("full".to_string(), 0));
    let mut w = BufAppend::new(fs.open("full", OpenMode::Truncate).unwrap());
    w.write(b"abcd").unwrap();
    assert!(w.sync().is_err());
    assert_eq!(fs.counts.modes.borrow().len(), 2);
    // The bytes are offered again.
    assert!(w.flush().is_err());
    assert_eq!(fs.read("full"), b"abab");
    w.discard();
}

#[test]
fn a_batch_is_synced_once_as_the_log_asks_and_after_its_last_byte() {
    for mode in [SyncMode::Durable, SyncMode::Barrier, SyncMode::Unsynced] {
        let fs = MemFs::default();
        let mut wal = Wal::create(&fs, "wal.log", mode).unwrap();
        let batch: Vec<Record> = (0..10u64)
            .map(|i| Record::put(vec![i as u8], b"v".to_vec(), i))
            .collect();
        wal.append_batch(&batch).unwrap();
        let first = fs.read("wal.log").len();
        assert_eq!(*fs.counts.modes.borrow(), [(mode, first)]);
        wal.append_batch(&[]).unwrap();
        wal.append(&batch[0]).unwrap();
        let second = fs.read("wal.log").len();
        assert_eq!(*fs.counts.modes.borrow(), [(mode, first), (mode, second)]);
        wal.sync().unwrap();
        assert_eq!(fs.counts.modes.borrow()[2], (SyncMode::Durable, second));
    }
}

#[test]
fn edits_are_synced_once_after_the_last_of_them() {
    let fs = MemFs::default();
    let mut m = Manifest::create(&fs, "/db").unwrap();
    fs.counts.modes.borrow_mut().clear();
    let edits: Vec<VersionEdit> = (0..5).map(|id| VersionEdit::AddTable { id }).collect();
    m.append_batch(&edits).unwrap();
    let len = fs.read(&manifest_path("/db", 0)).len();
    assert_eq!(len, HEADER_LEN + 5 * 17);
    assert_eq!(*fs.counts.modes.borrow(), [(SyncMode::Durable, len)]);
}

// -------------------------------------------------------------------- the lock

#[test]
fn a_second_lock_on_a_held_directory_is_refused() {
    let fs = MemFs::default();
    let first = directory::acquire_lock(&fs, "/db").unwrap();

    match directory::acquire_lock(&fs, "/db") {
        Err(Error::Locked(p)) => assert_eq!(p, "/db"),
        other => panic!("expected Locked, got {:?}", other.map(|_| "a lock")),
    }

    drop(first);
}

#[test]
fn dropping_the_handle_releases_the_lock() {
    let fs = MemFs::default();
    drop(directory::acquire_lock(&fs, "/db").unwrap());

    assert!(
        directory::acquire_lock(&fs, "/db").is_ok(),
        "the lock should be free again"
    );
}

#[test]
fn the_lock_file_survives_a_release() {
    let fs = MemFs::default();
    drop(directory::acquire_lock(&fs, "/db").unwrap());
    assert!(fs.has("/db/LOCK"));
    // Its name is made durable once, when it is created.
    assert_eq!(fs.counts.dir_syncs.get(), 1);
    drop(directory::acquire_lock(&fs, "/db").unwrap());
    assert_eq!(fs.counts.dir_syncs.get(), 1);
}

// ------------------------------------------------------------ write-ahead logs

#[test]
fn append_and_replay() {
    let fs = MemFs::default();
    let mut wal = Wal::create(&fs, "wal.log", SyncMode::Unsynced).unwrap();
    wal.append(&Record::put(b"a".to_vec(), b"1".to_vec(), 1))
        .unwrap();
    wal.append(&Record::tombstone(b"b".to_vec(), 2)).unwrap();
    drop(wal);

    let records = Wal::replay(&fs, "wal.log").unwrap();
    assert_eq!(records.len(), 2);
    assert_eq!(records[0].value, Some(b"1".to_vec()));
    assert!(records[1].value.is_none());
}

#[test]
fn replay_missing_file_is_empty() {
    let fs = MemFs::default();
    assert!(Wal::replay(&fs, "wal.log").unwrap().is_empty());
}

#[test]
fn wal_torn_trailing_frame_is_ignored() {
    let fs = MemFs::default();
    let mut wal = Wal::create(&fs, "wal.log", SyncMode::Unsynced).unwrap();
    wal.append(&Record::put(b"good".to_vec(), b"v".to_vec(), 1))
        .unwrap();
    wal.append(&Record::put(b"torn".to_vec(), b"vvvv".to_vec(), 2))
        .unwrap();
    drop(wal);

    let len = fs.read("wal.log").len();
    fs.cut("wal.log", len - 3);

    let records = Wal::replay(&fs, "wal.log").unwrap();
    assert_eq!(records.len(), 1);
    assert_eq!(records[0].key, b"good");
}

#[test]
fn crc_mismatch_stops_replay() {
    let fs = MemFs::default();
    let mut wal = Wal::create(&fs, "wal.log", SyncMode::Unsynced).unwrap();
    wal.append(&Record::put(b"k".to_vec(), b"v".to_vec(), 1))
        .unwrap();
    drop(wal);

    let mut bytes = fs.read("wal.log");
    let last = bytes.len() - 1;
    bytes[last] ^= 0xFF;
    fs.write("wal.log", &bytes);

    assert!(Wal::replay(&fs, "wal.log").unwrap().is_empty());
}

fn legacy_frame(payload: &[u8]) -> Vec<u8> {
    let mut bytes = Vec::new();
    bytes.extend(crc32fast::hash(payload).to_le_bytes());
    bytes.extend((payload.len() as u32).to_le_bytes());
    bytes.extend(payload);
    bytes
}

#[test]
fn a_headerless_wal_still_replays() {
    let fs = MemFs::default();
    let mut bytes = Vec::new();
    for record in [
        Record::put(b"a".to_vec(), b"1".to_vec(), 1),
        Record::tombstone(b"b".to_vec(), 2),
    ] {
        bytes.extend(legacy_frame(&record.encode()));
    }
    fs.write("wal.log", &bytes);

    let records = Wal::replay(&fs, "wal.log").unwrap();
    assert_eq!(records.len(), 2);
    assert_eq!(records[0].key, b"a");
    assert!(records[1].value.is_none());
}

#[test]
fn appending_to_a_legacy_wal_leaves_it_headerless_and_readable() {
    let fs = MemFs::default();
    let first = Record::put(b"old".to_vec(), b"v".to_vec(), 1);
    fs.write("wal.log", &legacy_frame(&first.encode()));

    let mut wal = Wal::open_append(&fs, "wal.log", SyncMode::Unsynced).unwrap();
    wal.append(&Record::put(b"new".to_vec(), b"v".to_vec(), 2))
        .unwrap();
    wal.sync().unwrap();
    drop(wal);

    let records = Wal::replay(&fs, "wal.log").unwrap();
    assert_eq!(records.len(), 2, "the append or the legacy frame was lost");
    assert_eq!(records[0].key, b"old");
    assert_eq!(records[1].key, b"new");
}

#[test]
fn a_wal_whose_first_frame_is_torn_holds_no_records() {
    let fs = MemFs::default();
    let mut wal = Wal::create(&fs, "wal.log", SyncMode::Unsynced).unwrap();
    wal.append(&Record::put(b"k".to_vec(), b"v".to_vec(), 1))
        .unwrap();
    wal.sync().unwrap();
    drop(wal);

    fs.cut("wal.log", HEADER_LEN + 3);

    assert!(Wal::replay(&fs, "wal.log").unwrap().is_empty());
}

#[test]
fn a_fresh_wal_starts_with_a_header() {
    let fs = MemFs::default();
    drop(Wal::create(&fs, "wal.log", SyncMode::Unsynced).unwrap());
    let bytes = fs.read("wal.log");
    assert_eq!(bytes.len(), HEADER_LEN);
    assert_eq!(&bytes[0..4], WAL_MAGIC);
}

#[test]
fn a_legacy_wal_refuses_a_batch_and_says_why() {
    let fs = MemFs::default();
    let first = Record::put(b"old".to_vec(), b"v".to_vec(), 1);
    fs.write("wal.log", &legacy_frame(&first.encode()));
    let mut wal = Wal::open_append(&fs, "wal.log", SyncMode::Unsynced).unwrap();
    let two = [Record::tombstone(b"a".to_vec(), 2), Record::tombstone(b"b".to_vec(), 3)];
    let err = wal.append_batch(&two).unwrap_err();
    assert_eq!(
        err.message(),
        "unsupported sstable format: wal.log is a version 1 write-ahead log and cannot hold a \
         batch of 2 records; it is replaced by a version 2 file at the next flush"
    );
    wal.append_batch(&two[..1]).unwrap();
    wal.append_batch(&[]).unwrap();
    drop(wal);
    assert_eq!(Wal::replay(&fs, "wal.log").unwrap().len(), 2);
}

#[test]
fn a_wal_is_renamed_and_appended_to_under_its_new_name() {
    let fs = MemFs::default();
    let mut wal = Wal::create(&fs, "wal.log.tmp", SyncMode::Durable).unwrap();
    wal.rename_to(&fs, "wal.log").unwrap();
    assert_eq!(wal.path(), "wal.log");
    wal.append(&Record::tombstone(b"k".to_vec(), 1)).unwrap();
    assert_eq!(fs.counts.file_syncs.get(), 1);
    assert!(!fs.has("wal.log.tmp"));
    assert_eq!(Wal::replay(&fs, "wal.log").unwrap().len(), 1);
}

/// Behind what a crash cut short, an append would never be read.
#[test]
fn recovering_a_torn_wal_lets_appends_be_read_again() {
    let fs = MemFs::default();
    let mut wal = Wal::create(&fs, "wal.log", SyncMode::Unsynced).unwrap();
    wal.append(&Record::put(b"a".to_vec(), b"1".to_vec(), 1))
        .unwrap();
    wal.append(&Record::put(b"torn".to_vec(), b"2".to_vec(), 2))
        .unwrap();
    drop(wal);
    let whole = fs.read("wal.log");
    for cut in HEADER_LEN..whole.len() {
        fs.write("wal.log", &whole[..cut]);
        let (mut wal, records) = Wal::recover(&fs, "wal.log", SyncMode::Unsynced).unwrap();
        let found = records.len();
        wal.append(&Record::put(b"b".to_vec(), b"3".to_vec(), 3))
            .unwrap();
        drop(wal);
        let replayed = Wal::replay(&fs, "wal.log").unwrap();
        assert_eq!(replayed.len(), found + 1, "cut at {cut}");
        assert_eq!(replayed[found].key, b"b");
    }
    // Even the header may be torn.
    fs.write("wal.log", &whole[..3]);
    let (mut wal, records) = Wal::recover(&fs, "wal.log", SyncMode::Unsynced).unwrap();
    assert!(records.is_empty());
    wal.append(&Record::tombstone(b"b".to_vec(), 3)).unwrap();
    drop(wal);
    assert_eq!(Wal::replay(&fs, "wal.log").unwrap().len(), 1);
}

/// Nor behind what an append left that failed half way.
#[test]
fn opening_a_log_keeps_it_and_cuts_what_a_crash_left_behind_it() {
    let fs = MemFs::default();
    let mut wal = Wal::create(&fs, "wal.log", SyncMode::Unsynced).unwrap();
    wal.append(&Record::put(b"a".to_vec(), b"1".to_vec(), 1))
        .unwrap();
    drop(wal);
    let whole = fs.read("wal.log");

    // A log in which every frame is whole stays as it is, byte for byte.
    drop(Wal::open_append(&fs, "wal.log", SyncMode::Unsynced).unwrap());
    assert_eq!(fs.read("wal.log"), whole);

    // The start of a frame behind it goes, and a write after it is not lost.
    let mut torn = whole.clone();
    torn.extend([7, 7, 7]);
    fs.write("wal.log", &torn);
    let mut wal = Wal::open_append(&fs, "wal.log", SyncMode::Unsynced).unwrap();
    assert_eq!(fs.read("wal.log"), whole);
    wal.append(&Record::put(b"b".to_vec(), b"2".to_vec(), 2))
        .unwrap();
    drop(wal);
    assert!(fs.read("wal.log").starts_with(&whole));
    let records = Wal::replay(&fs, "wal.log").unwrap();
    assert_eq!(records.len(), 2);
    assert_eq!(records[1].key, b"b");

    // Where nothing is whole, a fresh log starts.
    fs.write("wal.log", &whole[..3]);
    drop(Wal::open_append(&fs, "wal.log", SyncMode::Unsynced).unwrap());
    assert_eq!(fs.read("wal.log"), whole[..HEADER_LEN]);
}

#[test]
fn replaying_fails_where_the_file_cannot_be_opened_but_not_where_there_is_none() {
    let fs = MemFs::default();
    assert!(fuzzing::replay_wal(&fs, "wal.log").is_ok());
    assert_eq!(replay(&fs, "/db/MANIFEST-000000").unwrap().next_sst_id, 0);
    assert!(replay(&fs, "/db/MANIFEST-000000")
        .unwrap()
        .live_tables
        .is_empty());
    let closed = ClosedFs;
    assert!(matches!(
        Wal::replay(&closed, "wal.log"),
        Err(Error::Io(e)) if e.kind() == IoErrorKind::Other
    ));
    assert!(matches!(
        replay(&closed, "/db/MANIFEST-000000"),
        Err(Error::Io(e)) if e.kind() == IoErrorKind::Other
    ));
}

/// A filesystem that opens nothing.
struct ClosedFs;

fn denied<T>() -> Io<T> {
    Err(IoError::new(IoErrorKind::Other, "denied"))
}

impl Fs for ClosedFs {
    type File = MemFile;

    fn create_dir_all(&self, _dir: &str) -> Io<()> {
        denied()
    }
    fn list(&self, _dir: &str) -> Io<Vec<String>> {
        denied()
    }
    fn open(&self, _path: &str, _mode: OpenMode) -> Io<MemFile> {
        denied()
    }
    fn rename(&self, _from: &str, _to: &str) -> Io<()> {
        denied()
    }
    fn hard_link(&self, _original: &str, _link: &str) -> Io<()> {
        denied()
    }
    fn remove(&self, _path: &str) -> Io<()> {
        denied()
    }
    fn size(&self, _path: &str) -> Io<u64> {
        denied()
    }
    fn sync_dir(&self, _dir: &str) -> Io<()> {
        denied()
    }
}

/// A file that interrupts the first reads, and then gives one byte at a time.
struct Restless {
    bytes: Vec<u8>,
    interruptions: Cell<usize>,
}

impl File for Restless {
    fn read_at(&self, off: u64, buf: &mut [u8]) -> Io<usize> {
        let left = self.interruptions.get();
        if left > 0 {
            self.interruptions.set(left - 1);
            return Err(IoError::new(IoErrorKind::Interrupted, "interrupted"));
        }
        match self.bytes.get(off as usize) {
            Some(b) if !buf.is_empty() => {
                buf[0] = *b;
                Ok(1)
            }
            _ => Ok(0),
        }
    }
    fn append(&mut self, _buf: &[u8]) -> Io<()> {
        denied()
    }
    fn sync_as(&mut self, _mode: SyncMode) -> Io<()> {
        Ok(())
    }
    fn size(&self) -> Io<u64> {
        Ok(self.bytes.len() as u64)
    }
    fn set_len(&mut self, _len: u64) -> Io<()> {
        denied()
    }
}

#[test]
fn an_interrupted_read_is_tried_again() {
    let file = Restless {
        bytes: b"abcdef".to_vec(),
        interruptions: Cell::new(5),
    };
    let mut buf = [0u8; 4];
    file.read_exact_at(1, &mut buf).unwrap();
    assert_eq!(&buf, b"bcde");
    assert_eq!(file.interruptions.get(), 0);
    file.interruptions.set(1);
    assert_eq!(file.read_all().unwrap(), b"abcdef");
    file.interruptions.set(1);
    let err = file.read_exact_at(4, &mut buf).unwrap_err();
    assert_eq!(err.kind(), IoErrorKind::UnexpectedEof);
}

#[test]
fn an_append_that_failed_leaves_nothing_before_the_next_one() {
    let fs = MemFs::default();
    drop(Wal::create(&fs, "wal.log", SyncMode::Unsynced).unwrap());
    *fs.refuse.borrow_mut() = Some(("wal.log".to_string(), 1));
    let mut wal = Wal::open_append(&fs, "wal.log", SyncMode::Unsynced).unwrap();
    wal.append(&Record::put(b"a".to_vec(), b"1".to_vec(), 1))
        .unwrap();
    let good = fs.read("wal.log");
    assert!(wal
        .append(&Record::put(b"lost".to_vec(), b"2".to_vec(), 2))
        .is_err());
    assert!(fs.read("wal.log").len() > good.len());
    // The next append cuts the rest off, and fails in its turn.
    assert!(wal.append(&Record::tombstone(b"b".to_vec(), 3)).is_err());
    wal.sync().unwrap();
    assert_eq!(fs.read("wal.log"), good);
}

// ---------------------------------------------------------------- the manifest

#[test]
fn create_open_round_trip() {
    let fs = MemFs::default();
    {
        let mut m = Manifest::create(&fs, "/db").unwrap();
        m.append_batch(&[
            VersionEdit::AddTable { id: 1 },
            VersionEdit::AddTable { id: 2 },
            VersionEdit::SetNextSeq(42),
            VersionEdit::SetNextSstId(3),
        ])
        .unwrap();
    }
    let (_m, state) = Manifest::open(&fs, "/db").unwrap();
    assert_eq!(state.live_tables, BTreeSet::from([1, 2]));
    assert_eq!(state.next_seq, 42);
    assert_eq!(state.next_sst_id, 3);
}

#[test]
fn delete_table_removes_from_live_set() {
    let fs = MemFs::default();
    {
        let mut m = Manifest::create(&fs, "/db").unwrap();
        m.append_batch(&[
            VersionEdit::AddTable { id: 1 },
            VersionEdit::AddTable { id: 2 },
            VersionEdit::DeleteTable { id: 1 },
        ])
        .unwrap();
    }
    let (_m, state) = Manifest::open(&fs, "/db").unwrap();
    assert_eq!(state.live_tables, BTreeSet::from([2]));
}

#[test]
fn rollover_compacts_and_preserves_state() {
    let fs = MemFs::default();
    {
        let mut m = Manifest::create(&fs, "/db").unwrap();
        for id in 0..10 {
            m.append_batch(&[VersionEdit::AddTable { id }]).unwrap();
        }
        for id in 0..8 {
            m.append_batch(&[VersionEdit::DeleteTable { id }]).unwrap();
        }
        m.append_batch(&[VersionEdit::SetNextSeq(100)]).unwrap();
    }
    let (_m, state) = Manifest::open(&fs, "/db").unwrap();
    assert_eq!(state.live_tables, BTreeSet::from([8, 9]));
    assert_eq!(state.next_seq, 100);
    assert!(!fs.has(&manifest_path("/db", 0)));
    assert!(fs.has(&manifest_path("/db", 1)));
}

#[test]
fn manifest_torn_trailing_frame_is_ignored() {
    let fs = MemFs::default();
    {
        let mut m = Manifest::create(&fs, "/db").unwrap();
        m.append_batch(&[VersionEdit::AddTable { id: 7 }]).unwrap();
        m.append_batch(&[VersionEdit::AddTable { id: 8 }]).unwrap();
    }
    let path = manifest_path("/db", 0);
    let len = fs.read(&path).len();
    fs.cut(&path, len - 2);

    let state = replay(&fs, &path).unwrap();
    assert_eq!(
        state.live_tables.iter().copied().collect::<Vec<_>>(),
        vec![7],
        "the intact frame before the torn one was lost"
    );
}

#[test]
fn a_manifest_with_no_readable_frame_is_refused_rather_than_read_as_empty() {
    let fs = MemFs::default();
    {
        let mut m = Manifest::create(&fs, "/db").unwrap();
        m.append_batch(&[VersionEdit::AddTable { id: 7 }]).unwrap();
    }
    let path = manifest_path("/db", 0);
    fs.cut(&path, HEADER_LEN + 3);

    let err = replay(&fs, &path).unwrap_err();
    assert!(
        matches!(err, Error::Corrupt(_)),
        "a manifest with no readable frame gave {err:?} rather than Corrupt"
    );
}

#[test]
fn a_header_and_nothing_else_is_an_empty_manifest() {
    let fs = MemFs::default();
    let path = manifest_path("/db", 0);
    drop(Manifest::create(&fs, "/db").unwrap());
    assert_eq!(
        fs.size(&path).unwrap(),
        HEADER_LEN as u64,
        "create wrote more than a header"
    );
    assert!(replay(&fs, &path).unwrap().live_tables.is_empty());
}

#[test]
fn a_headerless_manifest_still_replays_and_is_rewritten_with_a_header() {
    let fs = MemFs::default();
    let path = manifest_path("/db", 0);
    let mut bytes = Vec::new();
    for edit in [
        VersionEdit::SetNextSstId(3),
        VersionEdit::AddTable { id: 2 },
    ] {
        bytes.extend(legacy_frame(&edit.encode()));
    }
    fs.write(&path, &bytes);
    fs.write(&format!("/db/{CURRENT_FILENAME}"), b"MANIFEST-000000\n");

    let state = replay(&fs, &path).unwrap();
    assert_eq!(state.next_sst_id, 3);
    assert_eq!(
        state.live_tables.iter().copied().collect::<Vec<_>>(),
        vec![2]
    );

    let (_m, opened) = Manifest::open(&fs, "/db").unwrap();
    assert_eq!(opened.next_sst_id, 3);
    let rolled = fs.read(&manifest_path("/db", 1));
    assert_eq!(
        &rolled[0..4],
        MANIFEST_MAGIC,
        "the rollover did not write a header"
    );
}

#[test]
fn a_manifest_pointer_that_points_nowhere_is_corrupt() {
    let fs = MemFs::default();
    assert!(!Manifest::is_present(&fs, "/db"));
    fs.write("/db/CURRENT", b"nonsense");
    assert!(Manifest::is_present(&fs, "/db"));
    assert!(matches!(
        Manifest::open(&fs, "/db").map(|_| ()),
        Err(Error::Corrupt(_))
    ));
}

// ---------------------------------------------------------------------- tables

fn write_table(records: &[Record]) -> (MemFs, SsTableReader<MemFs>) {
    let fs = MemFs::default();
    let n = SsTableWriter::write(&fs, "t.db", records).unwrap();
    assert_eq!(n, records.len() as u64);
    let reader = SsTableReader::open(&fs, "t.db", true).unwrap();
    (fs, reader)
}

#[test]
fn write_then_point_lookup() {
    let recs: Vec<_> = (0u32..2000)
        .map(|i| {
            Record::put(
                format!("key{i:05}").into_bytes(),
                vec![i as u8; 64],
                i as u64,
            )
        })
        .collect();
    let (_d, r) = write_table(&recs);
    assert_eq!(r.record_count(), 2000);
    for i in [0u32, 1, 15, 16, 17, 99, 500, 1999] {
        let got = r.get(format!("key{i:05}").as_bytes()).unwrap().unwrap();
        assert_eq!(got.value, Some(vec![i as u8; 64]));
    }
    assert!(r.get(b"key99999").unwrap().is_none());
    assert!(r.get(b"aaa").unwrap().is_none());
}

#[test]
fn the_newest_record_of_a_table_may_have_the_highest_number() {
    let records = vec![
        Record::put(b"a".to_vec(), b"1".to_vec(), 1),
        Record::put(b"k".to_vec(), b"new".to_vec(), u64::MAX),
        Record::put(b"k".to_vec(), b"old".to_vec(), 2),
    ];
    let (_fs, reader) = write_table(&records);
    assert_eq!(reader.get(b"k").unwrap(), Some(records[1].clone()));
    assert_eq!(reader.get_at(b"k", u64::MAX).unwrap(), Some(records[2].clone()));
    assert_eq!(reader.get(b"b").unwrap(), None);
}

#[test]
fn tombstone_survives_round_trip() {
    let recs = vec![
        Record::put(b"a".to_vec(), b"1".to_vec(), 1),
        Record::tombstone(b"b".to_vec(), 2),
    ];
    let (_d, r) = write_table(&recs);
    assert!(r.get(b"b").unwrap().unwrap().value.is_none());
}

#[test]
fn iter_all_returns_sorted_records() {
    let recs: Vec<_> = (0u32..500)
        .map(|i| Record::put(format!("k{i:04}").into_bytes(), vec![7; 32], i as u64))
        .collect();
    let (_d, r) = write_table(&recs);
    assert_eq!(r.iter_all().unwrap(), recs);
}

#[test]
fn empty_table_lookup() {
    let (_d, r) = write_table(&[]);
    assert_eq!(r.record_count(), 0);
    assert!(r.get(b"anything").unwrap().is_none());
    assert!(r.iter_all().unwrap().is_empty());
}

#[test]
fn bloom_disabled_still_correct() {
    let recs: Vec<_> = (0u32..300)
        .map(|i| Record::put(format!("k{i:04}").into_bytes(), vec![1; 32], i as u64))
        .collect();
    let fs = MemFs::default();
    SsTableWriter::write(&fs, "t.db", &recs).unwrap();
    let r = SsTableReader::open(&fs, "t.db", false).unwrap();
    assert!(r.get(b"k0100").unwrap().is_some());
    assert!(r.get(b"missing").unwrap().is_none());
}

#[test]
fn bad_magic_is_rejected() {
    let fs = MemFs::default();
    fs.write("junk.db", &[0u8; 64]);
    let err = SsTableReader::open(&fs, "junk.db", true).map(|_| ()).unwrap_err();
    assert_eq!(
        err.message(),
        "unsupported sstable format: bad magic (expected LSM2)"
    );
    fs.write("short.db", &[0u8; 8]);
    let err = SsTableReader::open(&fs, "short.db", true).map(|_| ()).unwrap_err();
    assert_eq!(
        err.message(),
        "unsupported sstable format: file smaller than footer"
    );
}

#[test]
fn a_table_keeps_all_versions_of_a_key_in_one_block() {
    let recs: Vec<_> = (0u64..400)
        .rev()
        .map(|seq| Record::put(b"k".to_vec(), vec![seq as u8; 64], seq))
        .collect();
    let (_d, r) = write_table(&recs);
    for bound in [1u64, 2, 77, 400, u64::MAX] {
        let got = r.get_at(b"k", bound).unwrap().unwrap();
        assert_eq!(got.seq, bound.min(400) - 1);
    }
    assert!(r.get_at(b"k", 0).unwrap().is_none());
}

#[test]
fn the_filter_of_a_table_is_sized_for_one_in_a_hundred() {
    for n in [0usize, 1, 2, 3, 7, 100, 1000, 12_345] {
        let recs: Vec<_> = (0..n)
            .map(|i| Record::put(format!("{i:06}").into_bytes(), vec![], 1))
            .collect();
        let (fs, _r) = write_table(&recs);
        let file = fs.read("t.db");
        let footer = &file[file.len() - 44..];
        let bloom_at = u64::from_le_bytes(footer[12..20].try_into().unwrap()) as usize;
        let bits = u64::from_le_bytes(file[bloom_at + 4..bloom_at + 12].try_into().unwrap());
        let ln2 = std::f64::consts::LN_2;
        let expected = (-(n.max(1) as f64) * 0.01f64.ln() / (ln2 * ln2)).ceil() as u64;
        let hashes = u32::from_le_bytes(file[bloom_at..bloom_at + 4].try_into().unwrap());
        assert_eq!((bits, hashes), (expected, 7), "for {n} keys");
        assert_eq!(u64::from_le_bytes(footer[28..36].try_into().unwrap()), n as u64);
        assert_eq!(&footer[40..44], b"LSM2");
    }
}

#[test]
fn a_block_of_a_table_that_was_damaged_is_reported() {
    let recs: Vec<_> = (0u32..500)
        .map(|i| Record::put(format!("k{i:04}").into_bytes(), vec![i as u8; 64], i as u64))
        .collect();
    let (fs, r) = write_table(&recs);
    drop(r);
    let mut bytes = fs.read("t.db");
    for b in bytes.iter_mut().take(40).skip(4) {
        *b = 0xff;
    }
    fs.write("t.db", &bytes);
    let r = SsTableReader::open(&fs, "t.db", true).unwrap();
    assert!(matches!(r.get(b"k0000"), Err(Error::Corrupt(_))));
    assert!(matches!(r.iter_all(), Err(Error::Corrupt(_))));
    assert!(r.get(b"k0499").unwrap().is_some());
}

#[test]
fn a_block_is_read_once_and_then_remembered() {
    let recs: Vec<_> = (0u32..500)
        .map(|i| Record::put(format!("k{i:04}").into_bytes(), vec![7; 32], i as u64))
        .collect();
    let (fs, r) = write_table(&recs);
    assert!(r.get(b"k0001").unwrap().is_some());
    fs.cut("t.db", 0);
    assert!(r.get(b"k0001").unwrap().is_some());
    assert!(matches!(r.get(b"k0499"), Err(Error::Io(_))));
}

#[test]
fn a_range_of_a_table_is_read_block_by_block() {
    let recs: Vec<_> = (0u32..500)
        .map(|i| Record::put(format!("k{i:04}").into_bytes(), vec![7; 32], i as u64))
        .collect();
    let (_d, r) = write_table(&recs);
    let (start, end): (&[u8], &[u8]) = (b"k0100", b"k0300");
    let (from, to) = r.block_range(Some(start), Some(end));
    assert!(0 < from && from < to);
    let mut got = Vec::new();
    for block in from..to {
        got.extend(r.load_in_range(block, Some(start), Some(end)).unwrap());
    }
    assert_eq!(got, recs[100..300]);
}

// ------------------------------------------------------------------ compaction

fn table(fs: &MemFs, name: &str, records: &[Record]) -> SsTableReader<MemFs> {
    SsTableWriter::write(fs, name, records).unwrap();
    SsTableReader::open(fs, name, true).unwrap()
}

#[test]
fn newest_input_wins_on_duplicate_key() {
    let fs = MemFs::default();
    let old = table(
        &fs,
        "a.db",
        &[Record::put(b"k".to_vec(), b"old".to_vec(), 1)],
    );
    let new = table(
        &fs,
        "b.db",
        &[Record::put(b"k".to_vec(), b"new".to_vec(), 2)],
    );
    compact(&fs, "out.db", &[&old, &new], false, u64::MAX).unwrap();
    let r = SsTableReader::open(&fs, "out.db", true).unwrap();
    assert_eq!(r.get(b"k").unwrap().unwrap().value, Some(b"new".to_vec()));
}

#[test]
fn tombstone_dropped_when_oldest_run() {
    let fs = MemFs::default();
    let old = table(
        &fs,
        "a.db",
        &[Record::put(b"k".to_vec(), b"v".to_vec(), 1)],
    );
    let new = table(&fs, "b.db", &[Record::tombstone(b"k".to_vec(), 2)]);
    let n = compact(&fs, "out.db", &[&old, &new], true, u64::MAX).unwrap();
    assert_eq!(n, 0);
    let r = SsTableReader::open(&fs, "out.db", true).unwrap();
    assert!(r.get(b"k").unwrap().is_none());
}

#[test]
fn tombstone_retained_when_not_oldest_run() {
    let fs = MemFs::default();
    let old = table(
        &fs,
        "a.db",
        &[Record::put(b"k".to_vec(), b"v".to_vec(), 1)],
    );
    let new = table(&fs, "b.db", &[Record::tombstone(b"k".to_vec(), 2)]);
    let n = compact(&fs, "out.db", &[&old, &new], false, u64::MAX).unwrap();
    assert_eq!(n, 1);
    let r = SsTableReader::open(&fs, "out.db", true).unwrap();
    assert!(r.get(b"k").unwrap().unwrap().value.is_none());
}

#[test]
fn disjoint_keys_all_survive() {
    let fs = MemFs::default();
    let a = table(
        &fs,
        "a.db",
        &[
            Record::put(b"a".to_vec(), b"1".to_vec(), 1),
            Record::put(b"c".to_vec(), b"3".to_vec(), 2),
        ],
    );
    let b = table(
        &fs,
        "b.db",
        &[Record::put(b"b".to_vec(), b"2".to_vec(), 3)],
    );
    compact(&fs, "out.db", &[&a, &b], false, u64::MAX).unwrap();
    let r = SsTableReader::open(&fs, "out.db", true).unwrap();
    assert_eq!(r.record_count(), 3);
    for (k, v) in [(b"a", b"1"), (b"b", b"2"), (b"c", b"3")] {
        assert_eq!(r.get(k).unwrap().unwrap().value, Some(v.to_vec()));
    }
}

// ------------------------------------------------------------- arbitrary bytes

#[test]
fn arbitrary_bytes_are_refused_and_never_panic() {
    let fs = MemFs::default();
    let mut seed = 0x9e37_79b9_7f4a_7c15u64;
    for round in 0..300usize {
        let mut bytes = Vec::new();
        for _ in 0..round {
            seed = seed.wrapping_mul(6364136223846793005).wrapping_add(1442695040888963407);
            bytes.push((seed >> 56) as u8);
        }
        let _ = fuzzing::decode_record(&bytes);
        fs.write("w", &bytes);
        let _ = fuzzing::replay_wal(&fs, "w");
        assert!(fuzzing::open_sstable(&fs, "w").is_err());
        // And with the right magic at the end.
        bytes.extend([0u8; 40]);
        bytes.extend(b"LSM2");
        fs.write("w", &bytes);
        let _ = fuzzing::open_sstable(&fs, "w");
    }
    assert!(fuzzing::decode_record(&Record::tombstone(b"k".to_vec(), 1).encode()).is_ok());
}
