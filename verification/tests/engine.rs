//! The engine as a whole, on a filesystem that is held in memory.
#![allow(dead_code)]

use std::cell::{Cell, RefCell};
use std::collections::{BTreeMap, BTreeSet};
use std::rc::Rc;

use lsm_kv::names::sst_path;
use lsm_kv::{
    Db, Error, File, Fs, IoError, IoErrorKind, Maintenance, OpenMode, Options, Snapshot, SyncMode,
    WriteBatch,
};

// ------------------------------------------------------ a filesystem in memory

#[derive(Clone, Default)]
struct MemFs {
    files: Rc<RefCell<BTreeMap<String, Rc<RefCell<Vec<u8>>>>>>,
    locks: Rc<RefCell<BTreeSet<String>>>,
    counts: Rc<Counts>,
    /// Appends to paths that contain the text are refused, after the first few.
    refuse: Rc<RefCell<Option<(String, usize)>>>,
}

#[derive(Default)]
struct Counts {
    opens: Cell<usize>,
    renames: Cell<usize>,
    removes: Cell<usize>,
    dir_syncs: Cell<usize>,
    file_syncs: Cell<usize>,
}

struct MemFile {
    data: Rc<RefCell<Vec<u8>>>,
    path: String,
    held: Option<Rc<RefCell<BTreeSet<String>>>>,
    counts: Rc<Counts>,
    allowance: Option<usize>,
}

impl Drop for MemFile {
    fn drop(&mut self) {
        if let Some(locks) = &self.held {
            locks.borrow_mut().remove(&self.path);
        }
    }
}

type Io<T> = std::result::Result<T, IoError>;

fn missing<T>() -> Io<T> {
    Err(IoError::new(IoErrorKind::NotFound, "no such file"))
}

fn bump(c: &Cell<usize>) {
    c.set(c.get() + 1);
}

impl File for MemFile {
    fn read_at(&self, off: u64, buf: &mut [u8]) -> Io<usize> {
        let data = self.data.borrow();
        let start = (off as usize).min(data.len());
        let n = (data.len() - start).min(buf.len());
        buf[..n].copy_from_slice(&data[start..start + n]);
        Ok(n)
    }
    fn append(&mut self, buf: &[u8]) -> Io<()> {
        match &mut self.allowance {
            Some(0) => {
                // Half of it gets through, as on a disk that fills up.
                self.data.borrow_mut().extend(&buf[..buf.len() / 2]);
                return Err(IoError::new(IoErrorKind::Other, "no space left"));
            }
            Some(n) => *n -= 1,
            None => {}
        }
        self.data.borrow_mut().extend(buf);
        Ok(())
    }
    fn sync_as(&mut self, mode: SyncMode) -> Io<()> {
        if mode.is_durable() {
            bump(&self.counts.file_syncs);
        }
        Ok(())
    }
    fn size(&self) -> Io<u64> {
        Ok(self.data.borrow().len() as u64)
    }
    fn set_len(&mut self, len: u64) -> Io<()> {
        self.data.borrow_mut().resize(len as usize, 0);
        Ok(())
    }
}

impl Fs for MemFs {
    type File = MemFile;

    fn create_dir_all(&self, _dir: &str) -> Io<()> {
        Ok(())
    }
    fn list(&self, dir: &str) -> Io<Vec<String>> {
        let prefix = format!("{dir}/");
        Ok(self
            .files
            .borrow()
            .keys()
            .filter(|p| p.starts_with(&prefix) && !p[prefix.len()..].contains('/'))
            .cloned()
            .collect())
    }
    fn open(&self, path: &str, mode: OpenMode) -> Io<MemFile> {
        bump(&self.counts.opens);
        let mut files = self.files.borrow_mut();
        if mode == OpenMode::Read && !files.contains_key(path) {
            return missing();
        }
        let mut held = None;
        if mode == OpenMode::Lock {
            if !self.locks.borrow_mut().insert(path.to_string()) {
                return Err(IoError::new(IoErrorKind::WouldBlock, "held elsewhere"));
            }
            held = Some(Rc::clone(&self.locks));
        }
        let data = Rc::clone(files.entry(path.to_string()).or_default());
        if mode == OpenMode::Truncate {
            data.borrow_mut().clear();
        }
        let allowance = match &*self.refuse.borrow() {
            Some((text, n)) if path.contains(text.as_str()) => Some(*n),
            _ => None,
        };
        Ok(MemFile {
            data,
            path: path.to_string(),
            held,
            counts: Rc::clone(&self.counts),
            allowance,
        })
    }
    fn rename(&self, from: &str, to: &str) -> Io<()> {
        bump(&self.counts.renames);
        let mut files = self.files.borrow_mut();
        match files.remove(from) {
            Some(data) => {
                files.insert(to.to_string(), data);
                Ok(())
            }
            None => missing(),
        }
    }
    fn hard_link(&self, original: &str, link: &str) -> Io<()> {
        let mut files = self.files.borrow_mut();
        if files.contains_key(link) {
            return Err(IoError::new(IoErrorKind::AlreadyExists, "it exists"));
        }
        match files.get(original).cloned() {
            Some(data) => {
                files.insert(link.to_string(), data);
                Ok(())
            }
            None => missing(),
        }
    }
    fn remove(&self, path: &str) -> Io<()> {
        bump(&self.counts.removes);
        match self.files.borrow_mut().remove(path) {
            Some(_) => Ok(()),
            None => missing(),
        }
    }
    fn size(&self, path: &str) -> Io<u64> {
        match self.files.borrow().get(path) {
            Some(data) => Ok(data.borrow().len() as u64),
            None => missing(),
        }
    }
    fn sync_dir(&self, _dir: &str) -> Io<()> {
        bump(&self.counts.dir_syncs);
        Ok(())
    }
}

impl MemFs {
    fn read(&self, path: &str) -> Vec<u8> {
        self.files.borrow()[path].borrow().clone()
    }
    fn write(&self, path: &str, bytes: &[u8]) {
        let data = Rc::new(RefCell::new(bytes.to_vec()));
        self.files.borrow_mut().insert(path.to_string(), data);
    }
    fn cut(&self, path: &str, len: usize) {
        self.files.borrow()[path].borrow_mut().truncate(len);
    }
    fn has(&self, path: &str) -> bool {
        self.files.borrow().contains_key(path)
    }
}

fn fast_opts() -> Options {
    Options {
        sync_wal: SyncMode::Unsynced,
        ..Options::default()
    }
}

fn open(fs: &MemFs, opts: Options) -> Db<MemFs> {
    Db::open_with(fs.clone(), "/db", opts).unwrap()
}

fn tables(fs: &MemFs, dir: &str) -> Vec<String> {
    let mut names: Vec<String> = fs
        .list(dir)
        .unwrap()
        .into_iter()
        .filter(|p| p.ends_with(".db"))
        .map(|p| p[dir.len() + 1..].to_string())
        .collect();
    names.sort();
    names
}

// ------------------------------------------------------------- puts and gets

#[test]
fn put_get_delete() {
    let fs = MemFs::default();
    let mut db = open(&fs, fast_opts());
    db.put(b"k", b"v").unwrap();
    assert_eq!(db.get(b"k").unwrap(), Some(b"v".to_vec()));
    db.delete(b"k").unwrap();
    assert_eq!(db.get(b"k").unwrap(), None);
    assert_eq!(db.get(b"missing").unwrap(), None);
}

#[test]
fn reopen_recovers_from_wal() {
    let fs = MemFs::default();
    {
        let mut db = open(&fs, fast_opts());
        db.put(b"a", b"1").unwrap();
        db.put(b"b", b"2").unwrap();
    }
    let db = open(&fs, fast_opts());
    assert_eq!(db.get(b"a").unwrap(), Some(b"1".to_vec()));
    assert_eq!(db.get(b"b").unwrap(), Some(b"2".to_vec()));
}

#[test]
fn data_survives_repeated_reopen_without_flush() {
    let fs = MemFs::default();
    {
        let mut db = open(&fs, fast_opts());
        db.put(b"persist", b"me").unwrap();
    }
    for _ in 0..5 {
        let db = open(&fs, fast_opts());
        assert_eq!(db.get(b"persist").unwrap(), Some(b"me".to_vec()));
    }
}

#[test]
fn writes_across_reopens_accumulate() {
    let fs = MemFs::default();
    for i in 0..10u32 {
        let mut db = open(&fs, fast_opts());
        db.put(format!("k{i}").as_bytes(), &i.to_le_bytes())
            .unwrap();
    }
    let db = open(&fs, fast_opts());
    for i in 0..10u32 {
        assert_eq!(
            db.get(format!("k{i}").as_bytes()).unwrap(),
            Some(i.to_le_bytes().to_vec())
        );
    }
}

#[test]
fn deleted_key_stays_deleted_after_reopen() {
    let fs = MemFs::default();
    {
        let mut db = open(&fs, fast_opts());
        db.put(b"k", b"v").unwrap();
        db.delete(b"k").unwrap();
    }
    let db = open(&fs, fast_opts());
    assert_eq!(db.get(b"k").unwrap(), None);
}

#[test]
fn flush_persists_and_survives_reopen() {
    let fs = MemFs::default();
    {
        let mut db = open(&fs, fast_opts());
        for i in 0..1000u32 {
            db.put(format!("k{i:04}").as_bytes(), &i.to_le_bytes())
                .unwrap();
        }
        db.flush().unwrap();
        assert_eq!(db.sstable_count(), 1);
    }
    let db = open(&fs, fast_opts());
    assert_eq!(db.sstable_count(), 1);
    for i in 0..1000u32 {
        assert_eq!(
            db.get(format!("k{i:04}").as_bytes()).unwrap(),
            Some(i.to_le_bytes().to_vec())
        );
    }
}

#[test]
fn newer_sstable_shadows_older() {
    let fs = MemFs::default();
    let mut db = open(&fs, fast_opts());
    db.put(b"k", b"old").unwrap();
    db.flush().unwrap();
    db.put(b"k", b"new").unwrap();
    db.flush().unwrap();
    assert_eq!(db.sstable_count(), 2);
    assert_eq!(db.get(b"k").unwrap(), Some(b"new".to_vec()));

    db.delete(b"k").unwrap();
    db.flush().unwrap();
    assert_eq!(db.get(b"k").unwrap(), None);
}

#[test]
fn auto_flush_on_threshold() {
    let fs = MemFs::default();
    let opts = Options {
        memtable_threshold: 4 * 1024,
        sync_wal: SyncMode::Unsynced,
        ..Options::default()
    };
    let mut db = open(&fs, opts);
    for i in 0..5000u32 {
        db.put(format!("key{i:06}").as_bytes(), b"some-value-payload")
            .unwrap();
        while db.pending_work() {
            assert!(db.maintain().unwrap());
        }
    }
    assert!(db.sstable_count() > 0);
    for i in 0..5000u32 {
        assert_eq!(
            db.get(format!("key{i:06}").as_bytes()).unwrap(),
            Some(b"some-value-payload".to_vec())
        );
    }
}

// ---------------------------------------------------------------- compaction

#[test]
fn compaction_reduces_table_count_and_preserves_data() {
    let fs = MemFs::default();
    let opts = Options {
        sync_wal: SyncMode::Unsynced,
        compaction_threshold: 4,
        ..Options::default()
    };
    let mut db = open(&fs, opts);
    for batch in 0..4u32 {
        for i in 0..200u32 {
            let k = format!("k{batch}_{i:04}");
            db.put(k.as_bytes(), b"payload-value-data").unwrap();
        }
        db.flush().unwrap();
    }
    assert!(
        db.sstable_count() < 4,
        "expected compaction to merge tables, got {}",
        db.sstable_count()
    );
    for batch in 0..4u32 {
        for i in 0..200u32 {
            let k = format!("k{batch}_{i:04}");
            assert_eq!(
                db.get(k.as_bytes()).unwrap(),
                Some(b"payload-value-data".to_vec())
            );
        }
    }
    drop(db);
    let db = open(&fs, fast_opts());
    assert_eq!(
        db.get(b"k2_0100").unwrap(),
        Some(b"payload-value-data".to_vec())
    );
    // The files of the tables that were merged are gone.
    assert_eq!(tables(&fs, "/db").len(), db.sstable_count());
}

#[test]
fn compaction_keeps_newest_value_and_drops_deleted_key() {
    let fs = MemFs::default();
    let opts = Options {
        sync_wal: SyncMode::Unsynced,
        compaction_threshold: 3,
        ..Options::default()
    };
    let mut db = open(&fs, opts);
    db.put(b"k", b"v1").unwrap();
    db.flush().unwrap();
    db.put(b"k", b"v2").unwrap();
    db.flush().unwrap();
    db.put(b"gone", b"x").unwrap();
    db.delete(b"gone").unwrap();
    db.flush().unwrap();
    assert_eq!(db.get(b"k").unwrap(), Some(b"v2".to_vec()));
    assert_eq!(db.get(b"gone").unwrap(), None);
}

// ------------------------------------------------------------------- opening

#[test]
fn open_creates_manifest_and_reclaims_orphans() {
    let fs = MemFs::default();
    {
        let mut db = open(&fs, fast_opts());
        db.put(b"k", b"v").unwrap();
        db.flush().unwrap();
    }
    assert!(fs.has("/db/CURRENT"));

    let orphan = "/db/sst_0000009999.db";
    fs.write(orphan, &fs.read(&sst_path("/db", 0)));
    let db = open(&fs, fast_opts());
    assert!(!fs.has(orphan));
    assert_eq!(db.get(b"k").unwrap(), Some(b"v".to_vec()));
}

#[test]
fn migrates_phase2_directory_without_manifest() {
    let fs = MemFs::default();
    {
        let mut db = open(&fs, fast_opts());
        db.put(b"old", b"data").unwrap();
        db.flush().unwrap();
    }
    fs.remove("/db/CURRENT").unwrap();
    for path in fs.list("/db").unwrap() {
        if path.starts_with("/db/MANIFEST-") {
            fs.remove(&path).unwrap();
        }
    }
    let mut db = open(&fs, fast_opts());
    assert!(fs.has("/db/CURRENT"));
    assert_eq!(db.get(b"old").unwrap(), Some(b"data".to_vec()));
    assert_eq!(db.sstable_count(), 1);
    // The next table does not take the place of the one that was found.
    db.put(b"new", b"data").unwrap();
    db.flush().unwrap();
    assert_eq!(tables(&fs, "/db"), ["sst_0000000000.db", "sst_0000000001.db"]);
}

#[test]
fn a_directory_without_manifest_gets_one_edit_for_each_file_of_a_table() {
    let fs = MemFs::default();
    {
        let mut db = open(&fs, fast_opts());
        db.put(b"old", b"data").unwrap();
        db.flush().unwrap();
    }
    let table = fs.read("/db/sst_0000000000.db");
    let fs = MemFs::default();
    fs.write("/db/sst_0000000000.db", &table);
    // Another name for the same id.
    fs.write("/db/sst_0.db", &table);
    let db = open(&fs, fast_opts());
    assert_eq!(db.sstable_count(), 1);
    assert_eq!(db.get(b"old").unwrap(), Some(b"data".to_vec()));
    drop(db);
    // A header, the counter, and the table twice: every frame is 17 bytes long.
    assert_eq!(fs.read("/db/MANIFEST-000000").len(), 8 + 3 * 17);
    let state = lsm_kv::manifest::replay(&fs, "/db/MANIFEST-000000").unwrap();
    assert_eq!(state.next_sst_id, 1);
    assert_eq!(state.live_tables.iter().copied().collect::<Vec<_>>(), [0]);
}

#[test]
fn a_flush_of_nothing_does_nothing() {
    let fs = MemFs::default();
    let opts = Options {
        compaction_threshold: 2,
        ..fast_opts()
    };
    let mut db = open(&fs, opts);
    db.flush().unwrap();
    assert_eq!(db.sstable_count(), 0);
    for key in [b"a", b"b"] {
        db.put(key, b"v").unwrap();
        db.flush_only().unwrap();
    }
    // A merge has fallen due, but there is nothing to flush.
    let files: Vec<String> = fs.files.borrow().keys().cloned().collect();
    db.flush().unwrap();
    assert_eq!(db.sstable_count(), 2);
    assert_eq!(fs.files.borrow().keys().cloned().collect::<Vec<_>>(), files);
    assert!(db.pending_work());
    assert!(db.maintain().unwrap());
    assert_eq!(db.sstable_count(), 1);
    // With something to flush, a flush merges too.
    db.put(b"c", b"v").unwrap();
    db.flush_only().unwrap();
    db.put(b"d", b"v").unwrap();
    db.flush().unwrap();
    assert!(!db.pending_work());
}

#[test]
fn a_log_that_uses_up_the_sequence_numbers_is_refused() {
    let fs = MemFs::default();
    drop(open(&fs, fast_opts()));
    let mut wal =
        lsm_kv::wal::Wal::open_append(&fs, "/db/wal.log", SyncMode::Unsynced).unwrap();
    wal.append(&lsm_kv::record::Record::put(
        b"k".to_vec(),
        b"v".to_vec(),
        u64::MAX,
    ))
    .unwrap();
    drop(wal);
    let err = Db::open(fs.clone(), "/db").map(|_| ()).unwrap_err();
    assert_eq!(err.message(), "corrupt data: sequence numbers are exhausted");
}

#[test]
fn a_table_with_the_last_id_is_refused() {
    let fs = MemFs::default();
    fs.write("/db/sst_18446744073709551615.db", b"");
    let err = Db::open(fs.clone(), "/db").map(|_| ()).unwrap_err();
    assert_eq!(err.message(), "corrupt data: table ids are exhausted");
    assert!(fs.has("/db/sst_18446744073709551615.db"));
}

#[test]
fn a_second_open_of_a_live_directory_is_refused() {
    let fs = MemFs::default();
    let mut db = Db::open(fs.clone(), "/db").unwrap();
    db.put(b"k", b"v").unwrap();

    match Db::open(fs.clone(), "/db") {
        Err(Error::Locked(dir)) => assert_eq!(dir, "/db"),
        other => panic!("expected Locked, got {:?}", other.map(|_| "Db")),
    }

    drop(db);
    let reopened = Db::open(fs.clone(), "/db");
    assert!(reopened.is_ok(), "the lock is released on drop");
    assert_eq!(
        reopened.unwrap().get(b"k").unwrap().as_deref(),
        Some(&b"v"[..])
    );
}

#[test]
fn the_lock_file_is_not_reclaimed_as_an_orphan() {
    let fs = MemFs::default();
    {
        let mut db = Db::open(fs.clone(), "/db").unwrap();
        db.put(b"k", b"v").unwrap();
        db.flush().unwrap();
    }
    let db = Db::open(fs.clone(), "/db").unwrap();
    assert_eq!(db.get(b"k").unwrap().as_deref(), Some(&b"v"[..]));
    assert!(fs.has("/db/LOCK"));
}

#[test]
fn a_stale_wal_scratch_file_is_reclaimed_on_open() {
    let fs = MemFs::default();
    {
        let mut db = open(&fs, fast_opts());
        db.put(b"k", b"v").unwrap();
    }
    fs.write("/db/wal.log.tmp", b"garbage");

    let db = open(&fs, fast_opts());
    assert_eq!(db.get(b"k").unwrap().as_deref(), Some(&b"v"[..]));
    assert!(!fs.has("/db/wal.log.tmp"));
}

#[test]
fn partial_tmp_file_is_reclaimed_on_open() {
    let fs = MemFs::default();
    {
        let mut db = open(&fs, fast_opts());
        db.put(b"k", b"v").unwrap();
        db.flush().unwrap();
    }
    let stale = "/db/sst_0000009999.db.tmp";
    fs.write(stale, b"garbage half-written sstable");

    let db = open(&fs, fast_opts());
    assert!(!fs.has(stale), "partial .tmp file should be reclaimed");
    assert_eq!(db.get(b"k").unwrap(), Some(b"v".to_vec()));
}

#[test]
fn a_flush_publishes_a_new_wal_rather_than_truncating_the_live_one() {
    let fs = MemFs::default();
    let mut db = open(&fs, fast_opts());
    db.put(b"a", b"1").unwrap();

    let inode = |fs: &MemFs| Rc::clone(&fs.files.borrow()["/db/wal.log"]);
    let before = inode(&fs);

    db.flush().unwrap();
    db.put(b"b", b"2").unwrap();

    let after = inode(&fs);
    assert!(
        !Rc::ptr_eq(&before, &after),
        "the live WAL was truncated in place"
    );
    assert!(
        !fs.has("/db/wal.log.tmp"),
        "the scratch file should have been renamed away, not left behind"
    );

    drop(db);
    let db = open(&fs, fast_opts());
    assert_eq!(db.get(b"a").unwrap().as_deref(), Some(&b"1"[..]));
    assert_eq!(db.get(b"b").unwrap().as_deref(), Some(&b"2"[..]));
}

// ----------------------------------------------------------------- snapshots

#[test]
fn snapshot_sees_value_at_capture_time() {
    let fs = MemFs::default();
    let mut db = open(&fs, fast_opts());
    db.put(b"k", b"v1").unwrap();
    db.flush().unwrap();

    let snap = db.snapshot();
    db.put(b"k", b"v2").unwrap();
    db.flush().unwrap();

    assert_eq!(db.get(b"k").unwrap(), Some(b"v2".to_vec()));
    assert_eq!(db.get_at(&snap, b"k").unwrap(), Some(b"v1".to_vec()));
}

#[test]
fn snapshot_sees_absence_of_later_keys() {
    let fs = MemFs::default();
    let mut db = open(&fs, fast_opts());
    db.put(b"early", b"1").unwrap();

    let snap = db.snapshot();
    db.put(b"late", b"2").unwrap();

    assert_eq!(db.get_at(&snap, b"early").unwrap(), Some(b"1".to_vec()));
    assert_eq!(db.get_at(&snap, b"late").unwrap(), None);
    assert_eq!(db.get(b"late").unwrap(), Some(b"2".to_vec()));
}

#[test]
fn snapshot_survives_compaction() {
    let fs = MemFs::default();
    let opts = Options {
        sync_wal: SyncMode::Unsynced,
        compaction_threshold: 3,
        ..Options::default()
    };
    let mut db = open(&fs, opts);
    db.put(b"k", b"v1").unwrap();
    db.flush().unwrap();

    let snap = db.snapshot();

    db.put(b"k", b"v2").unwrap();
    db.flush().unwrap();
    db.put(b"k", b"v3").unwrap();
    db.flush().unwrap();

    assert_eq!(db.get(b"k").unwrap(), Some(b"v3".to_vec()));
    assert_eq!(db.get_at(&snap, b"k").unwrap(), Some(b"v1".to_vec()));
}

#[test]
fn a_snapshot_pins_versions_until_it_is_released() {
    let fs = MemFs::default();
    let opts = Options {
        compaction_threshold: 2,
        ..fast_opts()
    };
    let mut db = open(&fs, opts);
    db.put(b"k", b"v1").unwrap();
    db.flush_only().unwrap();
    let snap = db.snapshot();
    assert_eq!(db.min_snapshot_seq(), snap.horizon());
    db.put(b"k", b"v2").unwrap();
    db.flush().unwrap();
    assert_eq!(db.sstable_count(), 1);
    assert_eq!(db.get_at(&snap, b"k").unwrap(), Some(b"v1".to_vec()));
    let pinned = fs.read("/db/sst_0000000001.db").len();
    db.release(snap);
    assert_eq!(db.min_snapshot_seq(), u64::MAX);
    db.put(b"k", b"v3").unwrap();
    db.flush().unwrap();
    assert_eq!(db.sstable_count(), 1);
    assert!(fs.read("/db/sst_0000000002.db").len() < pinned);
    assert_eq!(db.get(b"k").unwrap(), Some(b"v3".to_vec()));
}

// ------------------------------------------------------------------ failures

#[test]
fn a_failed_flush_poisons_the_handle() {
    let fs = MemFs::default();
    let mut db = open(&fs, fast_opts());
    db.put(b"k", b"v").unwrap();

    *fs.refuse.borrow_mut() = Some((".db.tmp".to_string(), 0));

    assert!(db.flush().is_err());

    assert!(matches!(db.health(), Err(Error::Poisoned(_))));
    assert!(matches!(db.put(b"k2", b"v"), Err(Error::Poisoned(_))));
    assert!(matches!(db.delete(b"k"), Err(Error::Poisoned(_))));
    assert!(matches!(db.get(b"k"), Err(Error::Poisoned(_))));
    assert!(matches!(db.flush(), Err(Error::Poisoned(_))));
    assert!(matches!(db.scan(None, None, 1), Err(Error::Poisoned(_))));
    assert!(matches!(db.checkpoint("/cp"), Err(Error::Poisoned(_))));
    assert!(!db.pending_work());

    // Opening the directory again is the way to recover, and nothing is lost.
    *fs.refuse.borrow_mut() = None;
    drop(db);
    let db = open(&fs, fast_opts());
    assert_eq!(db.get(b"k").unwrap(), Some(b"v".to_vec()));
}

#[test]
fn a_flush_that_cannot_rewrite_the_log_leaves_its_table() {
    let fs = MemFs::default();
    let mut db = open(&fs, fast_opts());
    db.put(b"k", b"v").unwrap();
    *fs.refuse.borrow_mut() = Some(("wal.log.tmp".to_string(), 0));
    let err = db.flush().unwrap_err();
    assert_eq!(
        err.message(),
        "engine poisoned by an earlier failure: io error: no space left"
    );
    // The manifest names the table, and so does the handle.
    assert_eq!(db.sstable_count(), 1);
    *fs.refuse.borrow_mut() = None;
    drop(db);
    let db = open(&fs, fast_opts());
    assert_eq!(db.sstable_count(), 1);
    assert_eq!(db.get(b"k").unwrap(), Some(b"v".to_vec()));
}

#[test]
fn a_flush_without_an_id_left_says_so() {
    let fs = MemFs::default();
    drop(open(&fs, fast_opts()));
    let (mut m, _) = lsm_kv::manifest::Manifest::open(&fs, "/db").unwrap();
    m.append_batch(&[lsm_kv::manifest::VersionEdit::SetNextSstId(u64::MAX)])
        .unwrap();
    drop(m);
    let mut db = open(&fs, fast_opts());
    // Nothing to flush needs no id.
    db.flush().unwrap();
    db.put(b"k", b"v").unwrap();
    let err = db.flush().unwrap_err();
    assert_eq!(
        err.message(),
        "engine poisoned by an earlier failure: corrupt data: table ids are exhausted"
    );
}

#[test]
fn too_few_tables_are_never_a_run() {
    let fs = MemFs::default();
    let opts = Options {
        compaction_threshold: 3,
        ..fast_opts()
    };
    let mut db = open(&fs, opts);
    assert!(!db.compact_step().unwrap());
    for key in [b"a", b"b"] {
        db.put(key, b"v").unwrap();
        db.flush_only().unwrap();
    }
    // Not even the sizes are asked for.
    fs.remove("/db/sst_0000000000.db").unwrap();
    assert!(!db.compact_step().unwrap());
    assert!(!db.pending_work());
    // With enough of them they are, and that one has none is the reason kept.
    db.put(b"c", b"v").unwrap();
    db.flush_only().unwrap();
    assert!(db.pending_work());
    let err = db.compact_step().unwrap_err();
    assert_eq!(
        err.message(),
        "engine poisoned by an earlier failure: io error: no such file"
    );
}

#[test]
fn only_the_first_failure_is_kept() {
    let fs = MemFs::default();
    let mut db = open(&fs, fast_opts());

    db.fail(Error::Corrupt("first".into()));
    db.fail(Error::Corrupt("second".into()));

    match db.health() {
        Err(Error::Poisoned(msg)) => assert!(msg.contains("first"), "got {msg}"),
        other => panic!("expected Poisoned, got {other:?}"),
    }
}

fn manual_opts() -> Options {
    Options {
        memtable_threshold: 512,
        compaction_threshold: 2,
        sync_wal: SyncMode::Unsynced,
        maintenance: Maintenance::Manual,
        ..Options::default()
    }
}

#[test]
fn every_operation_goes_through_the_seam() {
    let fs = MemFs::default();
    let mut db = open(&fs, manual_opts());

    for i in 0..200u32 {
        db.put(
            format!("k{i:04}").as_bytes(),
            b"a value long enough to matter",
        )
        .unwrap();
    }
    while db.maintain().unwrap() {}

    assert!(fs.counts.opens.get() > 0, "nothing was opened");
    assert!(
        fs.counts.renames.get() > 0,
        "a flush published without a rename, so it bypassed the seam"
    );
    assert!(
        fs.counts.dir_syncs.get() > 0,
        "a rename was published without a directory fsync going through the seam"
    );
    drop(db);

    let reopened = open(&fs, manual_opts());
    for i in 0..200u32 {
        assert_eq!(
            reopened
                .get(format!("k{i:04}").as_bytes())
                .unwrap()
                .as_deref(),
            Some(&b"a value long enough to matter"[..]),
            "key {i} did not survive"
        );
    }
}

#[test]
fn the_engine_runs_on_a_filesystem_that_is_neither_send_nor_sync() {
    let fs = MemFs::default();
    let mut db = open(&fs, manual_opts());

    for i in 0..300u32 {
        db.put(format!("k{i:04}").as_bytes(), format!("v{i}").as_bytes())
            .unwrap();
    }
    while db.maintain().unwrap() {}
    assert!(db.sstable_count() > 0, "nothing was ever flushed");

    for i in 0..300u32 {
        assert_eq!(
            db.get(format!("k{i:04}").as_bytes()).unwrap(),
            Some(format!("v{i}").into_bytes())
        );
    }

    drop(db);
    let reopened = open(&fs, manual_opts());
    for i in 0..300u32 {
        assert_eq!(
            reopened.get(format!("k{i:04}").as_bytes()).unwrap(),
            Some(format!("v{i}").into_bytes()),
            "key {i} did not survive a reopen"
        );
    }
}

#[test]
fn an_injected_flush_failure_poisons_the_handle() {
    let fs = MemFs::default();
    *fs.refuse.borrow_mut() = Some((".db.tmp".to_string(), 0));
    let mut db = open(&fs, manual_opts());

    for i in 0..200u32 {
        db.put(
            format!("k{i:04}").as_bytes(),
            b"a value long enough to matter",
        )
        .unwrap();
    }
    assert!(
        db.pending_work(),
        "no flush became due, so nothing was tested"
    );
    assert!(
        db.maintain().is_err(),
        "the SSTable could not be written and the flush reported success"
    );

    assert!(
        db.health().is_err(),
        "a flush failed and the handle went on claiming to be healthy"
    );
    assert!(db.put(b"anything", b"at all").is_err());
    assert!(db.get(b"k0000").is_err());
    assert!(db.maintain().is_err());
}

#[test]
fn a_refused_wal_append_fails_the_write_without_poisoning_the_handle() {
    let fs = MemFs::default();
    *fs.refuse.borrow_mut() = Some(("wal.log".to_string(), 1));
    let mut db = open(&fs, manual_opts());

    assert!(
        db.put(b"k", b"v").is_err(),
        "the WAL refused the append and the write reported success"
    );
    assert!(
        db.health().is_ok(),
        "a write that never became visible poisoned the handle"
    );
    assert_eq!(
        db.get(b"k").unwrap(),
        None,
        "a record whose WAL append failed is visible in the MemTable"
    );
}

/// A write that is acknowledged after one that failed is not lost behind what
/// the failed one left in the log.
#[test]
fn a_write_after_a_refused_one_survives() {
    let fs = MemFs::default();
    {
        let mut db = open(&fs, manual_opts());
        db.put(b"a", b"1").unwrap();
    }
    *fs.refuse.borrow_mut() = Some(("wal.log".to_string(), 0));
    {
        let mut db = open(&fs, manual_opts());
        assert!(db.put(b"b", b"2").is_err());
    }
    *fs.refuse.borrow_mut() = None;
    {
        let mut db = open(&fs, manual_opts());
        db.put(b"c", b"3").unwrap();
    }
    let db = open(&fs, manual_opts());
    assert_eq!(db.get(b"a").unwrap(), Some(b"1".to_vec()));
    assert_eq!(db.get(b"b").unwrap(), None);
    assert_eq!(db.get(b"c").unwrap(), Some(b"3".to_vec()));
}

#[test]
fn an_unreadable_manifest_refuses_the_open_instead_of_deleting_the_database() {
    let fs = MemFs::default();
    {
        let mut db = open(&fs, manual_opts());
        for i in 0..400u32 {
            db.put(
                format!("k{i:04}").as_bytes(),
                b"a value long enough to matter",
            )
            .unwrap();
        }
        db.flush().unwrap();
        assert!(db.sstable_count() > 0, "nothing was flushed to test with");
    }

    let tables_before = tables(&fs, "/db");
    assert!(!tables_before.is_empty());

    let current = String::from_utf8(fs.read("/db/CURRENT")).unwrap();
    let manifest = format!("/db/{}", current.trim());
    fs.write(&manifest, b"not a manifest, not even close");

    let message = match Db::open_with(fs.clone(), "/db", manual_opts()) {
        Ok(_) => panic!("an unreadable manifest opened successfully"),
        Err(e) => e.message(),
    };
    assert!(
        message.contains("readable frame"),
        "the refusal did not say why: {message}"
    );

    assert_eq!(
        tables(&fs, "/db"),
        tables_before,
        "the refused open deleted SSTables on its way out"
    );
}

// -------------------------------------------------------------- checkpoints

fn checkpoint_opts() -> Options {
    Options {
        memtable_threshold: 4 * 1024,
        compaction_threshold: 2,
        sync_wal: SyncMode::Unsynced,
        maintenance: Maintenance::Manual,
        ..Options::default()
    }
}

#[test]
fn a_checkpoint_shares_its_bytes_with_the_source() {
    let fs = MemFs::default();
    let mut db = open(&fs, checkpoint_opts());
    for i in 0..2_000u32 {
        db.put(
            format!("k{i:05}").as_bytes(),
            b"a value long enough to matter",
        )
        .unwrap();
        if db.pending_work() {
            db.maintain().unwrap();
        }
    }
    db.flush_only().unwrap();
    db.checkpoint("/cp").unwrap();

    let linked = tables(&fs, "/cp");
    assert!(!linked.is_empty(), "the checkpoint linked no tables");
    for name in &linked {
        let files = fs.files.borrow();
        let a = &files[&format!("/db/{name}")];
        let b = &files[&format!("/cp/{name}")];
        assert!(Rc::ptr_eq(a, b), "{name} was copied rather than linked");
        assert!(
            Rc::strong_count(a) >= 2,
            "{name} does not have a second name"
        );
    }
}

#[test]
fn a_checkpoint_survives_the_source_losing_the_names_it_linked() {
    let fs = MemFs::default();
    let mut db = open(&fs, checkpoint_opts());
    for i in 0..2_000u32 {
        db.put(
            format!("k{i:05}").as_bytes(),
            b"a value long enough to matter",
        )
        .unwrap();
        if db.pending_work() {
            db.maintain().unwrap();
        }
    }
    db.flush_only().unwrap();
    db.checkpoint("/cp").unwrap();
    let linked = tables(&fs, "/cp");

    for round in 0..3u32 {
        for i in 0..2_000u32 {
            db.put(
                format!("k{i:05}").as_bytes(),
                format!("REWRITTEN-{round}").as_bytes(),
            )
            .unwrap();
        }
        db.flush().unwrap();
        while db.maintain().unwrap() {}
    }
    drop(db);

    for name in &linked {
        let path = format!("/db/{name}");
        if fs.has(&path) {
            fs.remove(&path).unwrap();
        }
    }
    for name in &linked {
        assert!(
            !fs.has(&format!("/db/{name}")),
            "{name} still has a name in the source"
        );
    }

    let restored = Db::open_with(fs.clone(), "/cp", checkpoint_opts()).unwrap();
    for i in 0..2_000u32 {
        assert_eq!(
            restored
                .get(format!("k{i:05}").as_bytes())
                .unwrap()
                .as_deref(),
            Some(&b"a value long enough to matter"[..]),
            "key {i} in the checkpoint was lost when the source removed the names it had linked"
        );
    }
}

#[test]
fn a_checkpoint_includes_what_was_still_in_memory() {
    let fs = MemFs::default();
    let mut db = open(
        &fs,
        Options {
            memtable_threshold: 1 << 20,
            ..checkpoint_opts()
        },
    );
    for i in 0..50u32 {
        db.put(format!("buffered{i}").as_bytes(), b"v").unwrap();
    }
    assert_eq!(db.sstable_count(), 0, "something flushed early");

    db.checkpoint("/cp").unwrap();
    drop(db);

    let restored = Db::open_with(fs.clone(), "/cp", checkpoint_opts()).unwrap();
    for i in 0..50u32 {
        assert_eq!(
            restored.get(format!("buffered{i}").as_bytes()).unwrap(),
            Some(b"v".to_vec()),
            "a buffered key was not in the checkpoint"
        );
    }
}

#[test]
fn writes_after_a_checkpoint_are_not_in_it() {
    let fs = MemFs::default();
    let mut db = open(&fs, checkpoint_opts());
    db.put(b"before", b"v").unwrap();
    db.checkpoint("/cp").unwrap();
    db.put(b"after", b"v").unwrap();
    db.flush().unwrap();
    drop(db);

    let restored = Db::open_with(fs.clone(), "/cp", checkpoint_opts()).unwrap();
    assert_eq!(restored.get(b"before").unwrap(), Some(b"v".to_vec()));
    assert_eq!(
        restored.get(b"after").unwrap(),
        None,
        "a write made after the checkpoint appeared in it"
    );
}

#[test]
fn a_checkpoint_over_an_existing_one_is_refused() {
    let fs = MemFs::default();
    let mut db = open(&fs, checkpoint_opts());
    db.put(b"k", b"v").unwrap();
    db.checkpoint("/cp").unwrap();

    assert!(
        db.checkpoint("/cp").is_err(),
        "a second checkpoint over the first would describe two states"
    );
    assert!(db.health().is_ok());
}

#[test]
fn the_source_is_unaffected_by_being_checkpointed() {
    let fs = MemFs::default();
    let mut db = open(&fs, checkpoint_opts());
    for i in 0..500u32 {
        db.put(format!("k{i:04}").as_bytes(), b"v").unwrap();
        if db.pending_work() {
            db.maintain().unwrap();
        }
    }
    db.checkpoint("/cp").unwrap();

    for i in 0..500u32 {
        assert_eq!(
            db.get(format!("k{i:04}").as_bytes()).unwrap(),
            Some(b"v".to_vec()),
            "the source lost key {i} to being checkpointed"
        );
    }
    db.put(b"after", b"v").unwrap();
    while db.maintain().unwrap() {}
    assert_eq!(db.get(b"after").unwrap(), Some(b"v".to_vec()));
}

// ------------------------------------------------------------ older versions

const HEADER_LEN: usize = 8;

fn version_opts() -> Options {
    Options {
        memtable_threshold: 4096,
        sync_wal: SyncMode::Unsynced,
        maintenance: Maintenance::Manual,
        ..Options::default()
    }
}

/// Rewrite a frame file in an older format: a different version in the header,
/// and every frame with the older checksum.
fn downgrade_to_iso_hdlc(fs: &MemFs, path: &str, version: u16) {
    let bytes = fs.read(path);
    assert!(bytes.len() >= HEADER_LEN, "{path:?} has no header");

    let mut out = bytes[..HEADER_LEN].to_vec();
    out[4..6].copy_from_slice(&version.to_le_bytes());

    let mut pos = HEADER_LEN;
    while pos + 8 <= bytes.len() {
        let len = u32::from_le_bytes(bytes[pos + 4..pos + 8].try_into().unwrap()) as usize;
        let start = pos + 8;
        let end = start + len;
        assert!(end <= bytes.len(), "{path:?} has a torn frame");
        let payload = &bytes[start..end];
        out.extend(crc32fast::hash(payload).to_le_bytes());
        out.extend((len as u32).to_le_bytes());
        out.extend(payload);
        pos = end;
    }
    fs.write(path, &out);
}

fn live_manifest(fs: &MemFs) -> String {
    let current = String::from_utf8(fs.read("/db/CURRENT")).unwrap();
    format!("/db/{}", current.trim())
}

#[test]
fn a_database_from_before_the_checksum_changed_still_opens_with_its_data() {
    let fs = MemFs::default();
    {
        let mut db = open(&fs, version_opts());
        for i in 0..300u32 {
            db.put(format!("flushed{i:04}").as_bytes(), b"value")
                .unwrap();
        }
        db.flush().unwrap();
        for i in 0..50u32 {
            db.put(format!("buffered{i:04}").as_bytes(), b"value")
                .unwrap();
        }
    }

    let tables_before = tables(&fs, "/db");
    assert!(
        !tables_before.is_empty(),
        "nothing was flushed, so the reclamation hazard is not being tested"
    );

    downgrade_to_iso_hdlc(&fs, &live_manifest(&fs), 1);
    downgrade_to_iso_hdlc(&fs, "/db/wal.log", 2);

    let db = open(&fs, version_opts());

    assert_eq!(
        tables(&fs, "/db"),
        tables_before,
        "opening an older database deleted its SSTables"
    );
    for i in 0..300u32 {
        assert_eq!(
            db.get(format!("flushed{i:04}").as_bytes())
                .unwrap()
                .as_deref(),
            Some(&b"value"[..]),
            "flushed key {i} was lost"
        );
    }
    for i in 0..50u32 {
        assert_eq!(
            db.get(format!("buffered{i:04}").as_bytes())
                .unwrap()
                .as_deref(),
            Some(&b"value"[..]),
            "buffered key {i} was lost, so the old WAL did not replay"
        );
    }
}

#[test]
fn an_older_database_is_rewritten_at_the_current_version() {
    let fs = MemFs::default();
    {
        let mut db = open(&fs, version_opts());
        for i in 0..100u32 {
            db.put(format!("k{i:04}").as_bytes(), b"value").unwrap();
        }
        db.flush().unwrap();
        db.put(b"unflushed", b"value").unwrap();
    }

    downgrade_to_iso_hdlc(&fs, &live_manifest(&fs), 1);
    downgrade_to_iso_hdlc(&fs, "/db/wal.log", 2);

    let mut db = open(&fs, version_opts());
    db.put(b"after", b"value").unwrap();
    db.flush().unwrap();
    drop(db);

    let version_of = |path: &str| -> u16 {
        let bytes = fs.read(path);
        u16::from_le_bytes([bytes[4], bytes[5]])
    };
    assert_eq!(
        version_of(&live_manifest(&fs)),
        2,
        "the rollover left the manifest at the old version"
    );
    assert_eq!(
        version_of("/db/wal.log"),
        3,
        "the flush left the WAL at the old version"
    );

    let db = open(&fs, version_opts());
    for i in 0..100u32 {
        assert_eq!(
            db.get(format!("k{i:04}").as_bytes()).unwrap().as_deref(),
            Some(&b"value"[..])
        );
    }
    assert!(db.get(b"unflushed").unwrap().is_some());
    assert!(db.get(b"after").unwrap().is_some());
}

/// A log without counts takes single writes, and refuses batches until a flush
/// has replaced it.
#[test]
fn a_batch_waits_for_the_flush_that_replaces_a_legacy_log() {
    let fs = MemFs::default();
    drop(open(&fs, version_opts()));
    fs.write("/db/wal.log", &[]);
    let first = lsm_kv::record::Record::put(b"old".to_vec(), b"v".to_vec(), 0).encode();
    let mut log = crc32fast::hash(&first).to_le_bytes().to_vec();
    log.extend((first.len() as u32).to_le_bytes());
    log.extend(&first);
    fs.write("/db/wal.log", &log);

    let mut db = open(&fs, version_opts());
    db.put(b"new", b"v").unwrap();
    let mut batch = WriteBatch::new();
    batch.put(b"x", b"1");
    batch.delete(b"old");
    match db.write_batch(&batch) {
        Err(Error::BadFormat(m)) => assert!(m.starts_with("/db/wal.log is a version 1"), "{m}"),
        other => panic!("expected BadFormat, got {other:?}"),
    }
    assert!(db.get(b"old").unwrap().is_some());
    db.flush().unwrap();
    db.write_batch(&batch).unwrap();
    drop(db);
    let db = open(&fs, version_opts());
    assert_eq!(db.get(b"old").unwrap(), None);
    assert_eq!(db.get(b"new").unwrap(), Some(b"v".to_vec()));
    assert_eq!(db.get(b"x").unwrap(), Some(b"1".to_vec()));
}

// --------------------------------------------------------------------- scans

fn scan_opts(threshold: usize) -> Options {
    Options {
        memtable_threshold: threshold,
        compaction_threshold: 2,
        sync_wal: SyncMode::Unsynced,
        maintenance: Maintenance::Manual,
        ..Options::default()
    }
}

fn key(i: u32) -> Vec<u8> {
    format!("k{i:04}").into_bytes()
}

type Model = BTreeMap<Vec<u8>, Vec<u8>>;

fn expected(
    model: &Model,
    start: Option<&[u8]>,
    end: Option<&[u8]>,
    limit: usize,
) -> Vec<(Vec<u8>, Vec<u8>)> {
    model
        .iter()
        .filter(|(k, _)| start.map_or(true, |s| k.as_slice() >= s))
        .filter(|(k, _)| end.map_or(true, |e| k.as_slice() < e))
        .take(limit)
        .map(|(k, v)| (k.clone(), v.clone()))
        .collect()
}

#[test]
fn a_scan_matches_the_model_in_every_state() {
    let fs = MemFs::default();
    let mut db = open(&fs, scan_opts(2048));
    let mut model: Model = BTreeMap::new();

    let check = |db: &Db<MemFs>, model: &Model, where_: &str| {
        type Case = (Option<Vec<u8>>, Option<Vec<u8>>, usize);
        let cases: [Case; 7] = [
            (None, None, usize::MAX),
            (None, None, 5),
            (Some(key(10)), None, usize::MAX),
            (None, Some(key(10)), usize::MAX),
            (Some(key(5)), Some(key(15)), usize::MAX),
            (Some(key(5)), Some(key(15)), 3),
            (Some(b"zzz".to_vec()), None, usize::MAX),
        ];
        for (start, end, limit) in cases {
            let (s, e) = (start.as_deref(), end.as_deref());
            assert_eq!(
                db.scan(s, e, limit).unwrap(),
                expected(model, s, e, limit),
                "{where_}: scan({s:?}, {e:?}, {limit}) disagreed with the model"
            );
        }
    };

    for i in 0..40u32 {
        db.put(&key(i), format!("v{i}").as_bytes()).unwrap();
        model.insert(key(i), format!("v{i}").into_bytes());
    }
    check(&db, &model, "buffered");

    db.flush_only().unwrap();
    for i in 40..60u32 {
        db.put(&key(i), format!("v{i}").as_bytes()).unwrap();
        model.insert(key(i), format!("v{i}").into_bytes());
    }
    check(&db, &model, "half flushed");

    let mut batch = WriteBatch::new();
    for i in (0..60).step_by(3) {
        batch.put(&key(i), b"rewritten");
        model.insert(key(i), b"rewritten".to_vec());
    }
    for i in (1..60).step_by(7) {
        batch.delete(&key(i));
        model.remove(&key(i));
    }
    db.write_batch(&batch).unwrap();
    check(&db, &model, "rewritten and deleted");

    for round in 0..3u32 {
        for i in 0..20u32 {
            let k = key(1000 + round * 100 + i);
            db.put(&k, b"extra").unwrap();
            model.insert(k, b"extra".to_vec());
        }
        db.flush_only().unwrap();
    }
    check(&db, &model, "several sstables");

    // A MemTable that is being flushed is scanned like any other.
    db.put(&key(7), b"frozen").unwrap();
    model.insert(key(7), b"frozen".to_vec());
    let job = db.freeze().unwrap().unwrap();
    db.put(&key(8), b"active").unwrap();
    model.insert(key(8), b"active".to_vec());
    check(&db, &model, "frozen");
    job.write(&fs).unwrap();
    db.publish_flush().unwrap();
    check(&db, &model, "published");

    db.flush().unwrap();
    check(&db, &model, "compacted");

    drop(db);
    let db = open(&fs, scan_opts(2048));
    check(&db, &model, "reopened");
}

#[test]
fn a_scan_through_a_snapshot_sees_the_database_as_it_was() {
    let fs = MemFs::default();
    let mut db = open(&fs, scan_opts(1 << 20));

    for i in 0..10u32 {
        db.put(&key(i), b"before").unwrap();
    }
    let snapshot = db.snapshot();

    let mut batch = WriteBatch::new();
    for i in 0..10u32 {
        batch.put(&key(i), b"after");
    }
    batch.delete(&key(3));
    db.write_batch(&batch).unwrap();

    let now = db.scan(None, None, usize::MAX).unwrap();
    assert_eq!(now.len(), 9, "the delete did not take effect");
    assert!(now.iter().all(|(_, v)| v == b"after"));

    let then = db.scan_at(&snapshot, None, None, usize::MAX).unwrap();
    assert_eq!(then.len(), 10, "the snapshot lost the deleted key");
    assert!(
        then.iter().all(|(_, v)| v == b"before"),
        "the snapshot saw writes made after it was taken"
    );
}

#[test]
fn a_bounded_scan_of_a_large_table_returns_only_what_was_asked_for() {
    let fs = MemFs::default();
    let mut db = open(&fs, scan_opts(1 << 16));
    for i in 0..20_000u32 {
        db.put(&key(i), b"value").unwrap();
        if db.pending_work() {
            db.maintain().unwrap();
        }
    }
    db.flush().unwrap();

    let got = db.scan(Some(&key(10_000)), None, 10).unwrap();
    assert_eq!(got.len(), 10);
    assert_eq!(got[0].0, key(10_000));
    assert_eq!(got[9].0, key(10_009));
}

/// A scan reads no block that it does not need: damage behind what was asked for
/// goes unnoticed, and damage within it is reported.
#[test]
fn a_scan_reads_only_the_blocks_that_it_needs() {
    let fs = MemFs::default();
    {
        let mut db = open(&fs, scan_opts(1 << 20));
        for i in 0..2000u32 {
            db.put(&key(i), format!("value {i}").as_bytes()).unwrap();
        }
        db.flush().unwrap();
    }
    // The third block and those behind it, as far as a scan would read.
    let path = "/db/sst_0000000000.db";
    let mut bytes = fs.read(path);
    let footer = bytes.len() - 44;
    let index = u64::from_le_bytes(bytes[footer..footer + 8].try_into().unwrap()) as usize;
    for b in &mut bytes[index / 2..index] {
        *b = 0xff;
    }
    fs.write(path, &bytes);
    let db = open(&fs, scan_opts(1 << 20));
    assert_eq!(db.scan(None, None, 10).unwrap().len(), 10);
    assert!(matches!(
        db.scan(None, None, usize::MAX),
        Err(Error::Corrupt(_))
    ));
    assert!(db.scan(None, Some(&key(10)), usize::MAX).is_ok());
}

#[test]
fn a_limit_of_zero_returns_nothing() {
    let fs = MemFs::default();
    let mut db = open(&fs, scan_opts(1 << 20));
    db.put(b"k", b"v").unwrap();
    assert!(db.scan(None, None, 0).unwrap().is_empty());
}

#[test]
fn an_empty_database_scans_to_nothing() {
    let fs = MemFs::default();
    let db = open(&fs, scan_opts(1 << 20));
    assert!(db.scan(None, None, usize::MAX).unwrap().is_empty());
}

// ------------------------------------------------------------------- batches

fn batch_opts(sync: SyncMode) -> Options {
    Options {
        sync_wal: sync,
        maintenance: Maintenance::Manual,
        ..Options::default()
    }
}

#[test]
fn a_batch_costs_one_fsync_and_the_same_keys_written_singly_cost_one_each() {
    let batched = {
        let fs = MemFs::default();
        let mut db = open(&fs, batch_opts(SyncMode::Durable));
        let before = fs.counts.file_syncs.get();
        let mut batch = WriteBatch::new();
        for i in 0..100u32 {
            batch.put(format!("k{i:04}").as_bytes(), b"v");
        }
        db.write_batch(&batch).unwrap();
        fs.counts.file_syncs.get() - before
    };

    let singly = {
        let fs = MemFs::default();
        let mut db = open(&fs, batch_opts(SyncMode::Durable));
        let before = fs.counts.file_syncs.get();
        for i in 0..100u32 {
            db.put(format!("k{i:04}").as_bytes(), b"v").unwrap();
        }
        fs.counts.file_syncs.get() - before
    };

    assert_eq!(
        batched, 1,
        "a batch of a hundred keys cost {batched} fsyncs"
    );
    assert_eq!(
        singly, 100,
        "a hundred separate writes cost {singly} fsyncs, so the comparison means nothing"
    );
}

#[test]
fn every_truncation_of_a_batch_leaves_all_of_it_or_none_of_it() {
    let fs = MemFs::default();
    let wal = "/db/wal.log";
    {
        let mut db = open(&fs, batch_opts(SyncMode::Unsynced));
        let mut batch = WriteBatch::new();
        for i in 0..8u32 {
            batch.put(format!("k{i}").as_bytes(), format!("v{i}").as_bytes());
        }
        db.write_batch(&batch).unwrap();
    }
    let whole = fs.read(wal);
    assert!(whole.len() > 16, "the batch did not reach the file");

    for cut in 0..whole.len() {
        fs.write(wal, &whole[..cut]);
        let db = open(&fs, batch_opts(SyncMode::Unsynced));
        let present = (0..8u32)
            .filter(|i| db.get(format!("k{i}").as_bytes()).unwrap().is_some())
            .count();
        drop(db);
        assert!(
            present == 0 || present == 8,
            "a WAL truncated to {cut} bytes replayed {present} of 8 records, \
             so the batch was not atomic"
        );
    }

    fs.write(wal, &whole);
    let db = open(&fs, batch_opts(SyncMode::Unsynced));
    for i in 0..8u32 {
        assert_eq!(
            db.get(format!("k{i}").as_bytes()).unwrap(),
            Some(format!("v{i}").into_bytes())
        );
    }
}

/// Wherever a crash cuts the log, what is written after it survives the next
/// one.
#[test]
fn every_truncation_of_the_log_leaves_room_for_writes_that_survive() {
    let fs = MemFs::default();
    let wal = "/db/wal.log";
    {
        let mut db = open(&fs, fast_opts());
        db.put(b"a", b"1").unwrap();
        db.put(b"b", b"2").unwrap();
    }
    let whole = fs.read(wal);
    for cut in 0..=whole.len() {
        fs.write(wal, &whole[..cut]);
        {
            let mut db = open(&fs, fast_opts());
            db.put(b"c", b"3").unwrap();
        }
        let db = open(&fs, fast_opts());
        assert_eq!(
            db.get(b"c").unwrap(),
            Some(b"3".to_vec()),
            "a write was lost behind a log that was cut at {cut}"
        );
    }
}

#[test]
fn a_later_write_in_a_batch_shadows_an_earlier_one() {
    let fs = MemFs::default();
    let mut db = open(&fs, batch_opts(SyncMode::Unsynced));

    let mut batch = WriteBatch::new();
    batch.put(b"k", b"first");
    batch.put(b"k", b"second");
    batch.put(b"gone", b"here");
    batch.delete(b"gone");
    assert_eq!(batch.len(), 4);
    db.write_batch(&batch).unwrap();

    assert_eq!(db.get(b"k").unwrap(), Some(b"second".to_vec()));
    assert_eq!(db.get(b"gone").unwrap(), None);
}

#[test]
fn an_empty_batch_is_a_no_op() {
    let fs = MemFs::default();
    let mut db = open(&fs, batch_opts(SyncMode::Unsynced));
    let before = fs.read("/db/wal.log");
    assert!(WriteBatch::new().is_empty());
    db.write_batch(&WriteBatch::new()).unwrap();
    assert_eq!(db.get(b"anything").unwrap(), None);
    assert_eq!(fs.read("/db/wal.log"), before);
}

#[test]
fn a_batch_survives_a_flush_and_a_reopen() {
    let fs = MemFs::default();
    {
        let mut db = open(&fs, batch_opts(SyncMode::Durable));
        let mut batch = WriteBatch::new();
        for i in 0..500u32 {
            batch.put(format!("k{i:04}").as_bytes(), format!("v{i}").as_bytes());
        }
        db.write_batch(&batch).unwrap();
        db.flush().unwrap();
    }
    let db = open(&fs, batch_opts(SyncMode::Durable));
    for i in 0..500u32 {
        assert_eq!(
            db.get(format!("k{i:04}").as_bytes()).unwrap(),
            Some(format!("v{i}").into_bytes()),
            "key {i} did not survive"
        );
    }
}

// ------------------------------------------- flushes and merges in the background

#[test]
fn writes_go_on_while_a_flush_is_under_way() {
    let fs = MemFs::default();
    let mut db = open(&fs, fast_opts());
    db.put(b"a", b"1").unwrap();
    let job = db.freeze().unwrap().unwrap();
    assert!(db.freeze().unwrap().is_none(), "one flush at a time");
    db.put(b"a", b"2").unwrap();
    db.put(b"b", b"3").unwrap();
    assert_eq!(db.get(b"a").unwrap(), Some(b"2".to_vec()));
    // A crash now finds all three writes in the log.
    let log = fs.read("/db/wal.log");
    assert_eq!(lsm_kv::wal::replay_bytes(&log).unwrap().len(), 3);
    assert_eq!(job.write(&fs).unwrap(), 1);
    db.publish_flush().unwrap();
    assert!(db.pending_flush().is_none());
    // And now the log backs only what was written since.
    let log = fs.read("/db/wal.log");
    assert_eq!(lsm_kv::wal::replay_bytes(&log).unwrap().len(), 2);
    assert_eq!(db.get(b"a").unwrap(), Some(b"2".to_vec()));
    drop(db);
    let db = open(&fs, fast_opts());
    assert_eq!(db.get(b"a").unwrap(), Some(b"2".to_vec()));
    assert_eq!(db.get(b"b").unwrap(), Some(b"3".to_vec()));
}

#[test]
fn a_flush_may_be_cut_short_before_the_log_is_rewritten() {
    let fs = MemFs::default();
    {
        let mut db = open(&fs, fast_opts());
        db.put(b"a", b"1").unwrap();
        db.put(b"a", b"2").unwrap();
        *fs.refuse.borrow_mut() = Some(("wal.log.tmp".to_string(), 0));
        assert!(db.flush().is_err());
    }
    *fs.refuse.borrow_mut() = None;
    // The table is live and the log still holds its records.
    let mut db = open(&fs, fast_opts());
    assert_eq!(db.sstable_count(), 1);
    assert_eq!(db.get(b"a").unwrap(), Some(b"2".to_vec()));
    db.flush().unwrap();
    assert_eq!(db.get(b"a").unwrap(), Some(b"2".to_vec()));
    assert_eq!(db.scan(None, None, 9).unwrap().len(), 1);
}

#[test]
fn a_merge_is_published_behind_tables_that_were_flushed_meanwhile() {
    let fs = MemFs::default();
    let opts = Options {
        compaction_threshold: 2,
        ..fast_opts()
    };
    let mut db = open(&fs, opts);
    for v in [b"1", b"2"] {
        db.put(b"k", v).unwrap();
        db.flush_only().unwrap();
    }
    let job = db.plan_compaction().unwrap().unwrap();
    db.put(b"k", b"3").unwrap();
    db.flush_only().unwrap();
    assert_eq!(job.merge(&fs).unwrap(), 1);
    db.publish_compaction(job).unwrap();
    assert_eq!(db.sstable_count(), 2);
    assert_eq!(tables(&fs, "/db"), ["sst_0000000001.db", "sst_0000000002.db"]);
    assert_eq!(db.get(b"k").unwrap(), Some(b"3".to_vec()));
    drop(db);
    let db = open(&fs, opts);
    assert_eq!(db.sstable_count(), 2);
    assert_eq!(db.get(b"k").unwrap(), Some(b"3".to_vec()));
}

#[test]
fn a_run_that_vanished_is_reported() {
    let fs = MemFs::default();
    let opts = Options {
        compaction_threshold: 2,
        ..fast_opts()
    };
    let mut db = open(&fs, opts);
    for v in [b"1", b"2"] {
        db.put(b"k", v).unwrap();
        db.flush_only().unwrap();
    }
    let first = db.plan_compaction().unwrap().unwrap();
    let second = db.plan_compaction().unwrap().unwrap();
    first.merge(&fs).unwrap();
    db.publish_compaction(first).unwrap();
    let err = db.publish_compaction(second).unwrap_err();
    assert!(
        err.message().contains("compacted run vanished from the live set: sst 1"),
        "{}",
        err.message()
    );
}

// --------------------------------------------------------------- a long history

/// Random histories, checked against a map after every step: the live view, and
/// every snapshot.
#[test]
fn engine_matches_a_map_through_random_histories() {
    let mut seed = 0x2545_f491_4f6c_dd1du64;
    let mut next = |n: u64| {
        seed ^= seed << 13;
        seed ^= seed >> 7;
        seed ^= seed << 17;
        seed % n
    };
    for _ in 0..40 {
        let fs = MemFs::default();
        let opts = Options {
            memtable_threshold: 256,
            sync_wal: SyncMode::Unsynced,
            compaction_threshold: 3,
            ..Options::default()
        };
        let mut db = open(&fs, opts);
        let mut model: BTreeMap<u8, u8> = BTreeMap::new();
        let mut snapshots: Vec<(Snapshot, BTreeMap<u8, u8>)> = Vec::new();
        for _ in 0..120 {
            let k = next(16) as u8;
            match next(9) {
                0..=3 => {
                    let v = next(255) as u8;
                    db.put(&[k], &[v]).unwrap();
                    model.insert(k, v);
                }
                4 | 5 => {
                    db.delete(&[k]).unwrap();
                    model.remove(&k);
                }
                6 => db.flush().unwrap(),
                7 => snapshots.push((db.snapshot(), model.clone())),
                _ => {
                    while db.maintain().unwrap() {}
                    if snapshots.is_empty() {
                        drop(db);
                        db = open(&fs, opts);
                    } else if next(3) == 0 {
                        db.release(snapshots.remove(0).0);
                    }
                }
            }
            let live: Vec<(Vec<u8>, Vec<u8>)> =
                model.iter().map(|(k, v)| (vec![*k], vec![*v])).collect();
            assert_eq!(db.scan(None, None, usize::MAX).unwrap(), live);
            for k in 0u8..16 {
                let got = db.get(&[k]).unwrap();
                assert_eq!(got, model.get(&k).map(|v| vec![*v]));
            }
            for (snap, then) in &snapshots {
                for k in 0u8..16 {
                    let got = db.get_at(snap, &[k]).unwrap();
                    assert_eq!(got, then.get(&k).map(|v| vec![*v]), "snapshot, key {k}");
                }
            }
        }
    }
}

// ------------------------------------------------------ restarts at bad moments

/// The filesystem as a crash right now would leave it.
fn crashed(fs: &MemFs) -> MemFs {
    let copy = MemFs::default();
    for (path, data) in fs.files.borrow().iter() {
        let bytes = data.borrow().clone();
        copy.files
            .borrow_mut()
            .insert(path.clone(), Rc::new(RefCell::new(bytes)));
    }
    copy
}

fn bytes_at(fs: &MemFs, path: &str) -> Vec<u8> {
    fs.files.borrow()[path].borrow().clone()
}

fn put_bytes(fs: &MemFs, path: &str, bytes: Vec<u8>) {
    fs.files
        .borrow_mut()
        .insert(path.to_string(), Rc::new(RefCell::new(bytes)));
}

#[test]
fn a_restart_between_a_merge_and_its_manifest_changes_no_read() {
    let fs = MemFs::default();
    let opts = Options {
        compaction_threshold: 4,
        memtable_threshold: 1 << 20,
        ..manual_opts()
    };
    let mut db = open(&fs, opts);
    for i in 0..2000u32 {
        db.put(&key(i), &key(i.wrapping_mul(2654435761))).unwrap();
    }
    db.flush_only().unwrap();
    db.put(&key(1), b"new").unwrap();
    db.put(&key(2), b"new").unwrap();
    db.flush_only().unwrap();
    db.delete(&key(1)).unwrap();
    db.put(&key(3), b"new").unwrap();
    db.flush_only().unwrap();
    db.put(&key(2), b"newer").unwrap();
    db.delete(&key(4)).unwrap();
    db.flush_only().unwrap();
    db.delete(&key(3)).unwrap();
    db.put(&key(5), b"new").unwrap();
    db.flush_only().unwrap();
    let live = db.scan(None, None, usize::MAX).unwrap();
    let before = crashed(&fs);
    assert_eq!(db.sstable_count(), 5);
    assert!(db.compact_step().unwrap());
    assert_eq!(db.sstable_count(), 2);
    assert_eq!(db.scan(None, None, usize::MAX).unwrap(), live);

    // The merged table has its name, and the manifest has not heard of it.
    let newest = sst_path("/db", 4);
    put_bytes(&before, &newest, bytes_at(&fs, &newest));
    let mut db = open(&before, opts);
    assert_eq!(db.sstable_count(), 5);
    assert_eq!(db.scan(None, None, usize::MAX).unwrap(), live);
    assert_eq!(db.get(&key(1)).unwrap(), None);
    assert_eq!(db.get(&key(2)).unwrap(), Some(b"newer".to_vec()));
    assert_eq!(db.get(&key(3)).unwrap(), None);
    assert_eq!(db.get(&key(4)).unwrap(), None);
    assert_eq!(db.get(&key(5)).unwrap(), Some(b"new".to_vec()));
    // The next compaction goes on from there.
    db.flush().unwrap();
    assert_eq!(db.scan(None, None, usize::MAX).unwrap(), live);
}

#[test]
fn a_restart_between_the_manifest_and_the_log_of_a_flush_changes_no_read() {
    let fs = MemFs::default();
    let mut db = open(&fs, manual_opts());
    db.put(b"a", b"1").unwrap();
    db.put(b"b", b"1").unwrap();
    db.put(b"a", b"2").unwrap();
    db.delete(b"b").unwrap();
    let old_log = bytes_at(&fs, "/db/wal.log");
    db.flush_only().unwrap();
    let cut = crashed(&fs);
    put_bytes(&cut, "/db/wal.log", old_log);

    let mut db = open(&cut, manual_opts());
    assert_eq!(db.sstable_count(), 1);
    let live = vec![(b"a".to_vec(), b"2".to_vec())];
    assert_eq!(db.scan(None, None, usize::MAX).unwrap(), live);
    assert_eq!(db.get(b"b").unwrap(), None);
    let snap = db.snapshot();
    db.put(b"a", b"3").unwrap();
    assert_eq!(db.get_at(&snap, b"a").unwrap(), Some(b"2".to_vec()));
    assert_eq!(db.get(b"a").unwrap(), Some(b"3".to_vec()));
    db.release(snap);
    // What stands in two tables is merged to one.
    db.flush().unwrap();
    let live = vec![(b"a".to_vec(), b"3".to_vec())];
    assert_eq!(db.scan(None, None, usize::MAX).unwrap(), live);
}

#[test]
fn sequence_numbers_go_on_after_a_restart() {
    let fs = MemFs::default();
    let mut db = open(&fs, manual_opts());
    db.put(b"k", b"1").unwrap();
    db.put(b"k", b"2").unwrap();
    db.flush_only().unwrap();
    drop(db);
    // The log is empty now: only the manifest knows how far they had come.
    let mut db = open(&fs, manual_opts());
    let snap = db.snapshot();
    db.put(b"k", b"3").unwrap();
    assert_eq!(db.get_at(&snap, b"k").unwrap(), Some(b"2".to_vec()));
    assert_eq!(db.get(b"k").unwrap(), Some(b"3".to_vec()));
    drop(db);
    // And now the log knows more than the manifest.
    let mut db = open(&fs, manual_opts());
    let snap = db.snapshot();
    db.put(b"k", b"4").unwrap();
    assert_eq!(db.get_at(&snap, b"k").unwrap(), Some(b"3".to_vec()));
}

#[test]
fn a_full_memtable_is_told() {
    let fs = MemFs::default();
    let mut db = open(&fs, manual_opts());
    assert!(!db.is_full());
    db.put(b"k", &[7u8; 600]).unwrap();
    assert!(db.is_full());
    db.flush_only().unwrap();
    assert!(!db.is_full());
}
