//! A database directory: its lock, the files in it that are left over, and how
//! one without a manifest gets one.

use std::collections::BTreeSet;
use vstd::prelude::*;

use crate::disk;
use crate::disk::{Change, Disk, Holder, Volume};
use crate::error::{Error, ErrorView, IoError, IoErrorKind, IoErrorView, Result};
use crate::fs;
use crate::fs::{File, Fs, OpenMode};
use crate::header::Checksum;
use crate::ids;
use crate::manifest;
use crate::manifest::{Manifest, ManifestState, StateView, VersionEdit};
use crate::names;
use crate::text;

verus! {

broadcast use vstd::std_specs::btree::group_btree_axioms;

/// The name of the write-ahead log.
pub const WAL_FILENAME: &'static str = "wal.log";

/// Where a write-ahead log is rewritten, before it is renamed.
pub const WAL_TMP_FILENAME: &'static str = "wal.log.tmp";

/// The file whose lock says that a directory is open.
pub const LOCK_FILENAME: &'static str = "LOCK";

/// What it means that the lock on a directory could not be taken: that the
/// directory is open elsewhere, if the lock would have had to be waited for.
pub fn lock_error(dir: &str, e: IoError) -> (r: Error)
    ensures
        r@ == if e.kind == IoErrorKind::WouldBlock {
            ErrorView::Locked(dir@)
        } else {
            ErrorView::Io(e@)
        },
{
    if e.kind() == IoErrorKind::WouldBlock {
        Error::Locked(text::copy_text(dir))
    } else {
        Error::Io(e)
    }
}

/// Where the lock on a directory is.
pub open spec fn lock_path(dir: Seq<char>) -> Seq<char> {
    names::path_in(dir, LOCK_FILENAME@)
}

/// Whether the name of the lock is durable: it was there, or it was made so.
pub open spec fn lock_is_named<F: Fs>(dir: Seq<char>) -> bool {
    exists|answer: core::result::Result<u64, IoErrorView>| #[trigger]
        F::sized(lock_path(dir), answer) && (answer is Err ==> F::dir_synced(dir))
}

/// Whether the lock on a directory was once to be taken, and that ended in this
/// error: the directory is open elsewhere where the lock would have had to be
/// waited for, and everything else is the filesystem's failure.
pub open spec fn unlocked<F: Fs>(dir: Seq<char>, e: ErrorView) -> bool {
    exists|answer: core::result::Result<Seq<u8>, IoErrorView>| #[trigger]
        F::answered(lock_path(dir), OpenMode::Lock, answer) && match answer {
            Ok(_) => fs::handed_on::<F::File>(e),
            Err(x) => e == if x.kind == IoErrorKind::WouldBlock {
                ErrorView::Locked(dir)
            } else {
                ErrorView::Io(x)
            },
        }
}

/// Take the lock on a directory, or fail at once if another handle holds it.
///
/// Opening a directory rolls its manifest over and deletes from it, so two
/// handles on one directory would delete each other's files.
pub fn acquire_lock<F: Fs, V: Volume<F>>(fs: V, dir: &str) -> (r: Result<F::File>)
    ensures
        disk::ended::<F>(seq![Change::Opened { path: lock_path(dir@), mode: OpenMode::Lock }]),
        r matches Ok(f) ==> {
            &&& f.place() == lock_path(dir@)
            &&& f.mode() == OpenMode::Lock
            &&& F::answered(lock_path(dir@), OpenMode::Lock, Ok(f.contents()))
            &&& lock_is_named::<F>(dir@)
        },
        r matches Err(e) ==> unlocked::<F>(dir@, e@),
{
    let mut disk = fs.mount();
    let r = acquire_lock_on(&mut disk, dir);
    let ghost done = disk.changes();
    disk.finish();
    assert(done =~= seq![Change::Opened { path: lock_path(dir@), mode: OpenMode::Lock }]);
    r
}

/// Take the lock on a directory, as [`acquire_lock`] does.
pub(crate) fn acquire_lock_on<F: Fs, H: Holder<F = F>>(disk: &mut Disk<H>, dir: &str) -> (r: Result<
    F::File,
>)
    ensures
        final(disk).changes() == old(disk).changes().push(
            Change::Opened { path: lock_path(dir@), mode: OpenMode::Lock },
        ),
        r matches Ok(f) ==> {
            &&& f.place() == lock_path(dir@)
            &&& f.mode() == OpenMode::Lock
            &&& F::answered(lock_path(dir@), OpenMode::Lock, Ok(f.contents()))
            &&& lock_is_named::<F>(dir@)
        },
        r matches Err(e) ==> unlocked::<F>(dir@, e@),
{
    let path = names::join(dir, LOCK_FILENAME);
    let existed = disk.is_present(path.as_str());
    let file = match disk.open(path.as_str(), OpenMode::Lock) {
        Ok(f) => f,
        Err(e) => {
            assert(F::answered(lock_path(dir@), OpenMode::Lock, Err(e@)));
            return Err(lock_error(dir, e));
        },
    };
    assert(F::answered(lock_path(dir@), OpenMode::Lock, Ok(file.contents())));
    // Only the first creation needs the directory entry made durable.
    if !existed {
        match disk.sync_dir(dir) {
            Ok(()) => {},
            Err(e) => return Err(Error::Io(e)),
        }
    }
    Ok(file)
}

/// Whether a name ends like this.
pub open spec fn ends_in(name: Seq<char>, suffix: Seq<char>) -> bool {
    name.len() >= suffix.len() && name.skip(name.len() - suffix.len()) == suffix
}

/// Whether a file of this name is left over from a crash: a table that the
/// manifest does not name, or a file that was being written.
pub open spec fn left_over(name: Seq<char>, live: Set<u64>) -> bool {
    &&& name != LOCK_FILENAME@
    &&& match names::sst_id(name) {
        Some(id) => !live.contains(id),
        None => ends_in(name, ".db.tmp"@) || name == WAL_TMP_FILENAME@,
    }
}

/// Whether a file of this name is left over from a crash.
pub fn is_left_over(name: &str, live: &BTreeSet<u64>) -> (r: bool)
    ensures
        r == left_over(name@, live@),
{
    if names::same_text(name, LOCK_FILENAME) {
        return false;
    }
    match names::parse_sst_id(name) {
        Some(id) => !live.contains(&id),
        None => names::ends_with(name, ".db.tmp") || names::same_text(name, WAL_TMP_FILENAME),
    }
}

/// Whether everything that a listing of a directory found to be left over was
/// removed.
pub open spec fn reclaimed<F: Fs>(dir: Seq<char>, live: Set<u64>) -> bool {
    exists|paths: Seq<Seq<char>>| #[trigger]
        F::listed(dir, paths) && forall|i: int|
            0 <= i < paths.len() && left_over(names::base_of(#[trigger] paths[i]), live)
                ==> F::removed(paths[i], Ok(()))
}

/// The paths of the files that are left over from a crash.
pub open spec fn left_overs(live: Set<u64>) -> Set<Seq<char>> {
    Set::new(|path: Seq<char>| left_over(names::base_of(path), live))
}

/// What is done to remove the files at these paths.
pub open spec fn clearing(paths: Seq<Seq<char>>) -> Seq<Change> {
    paths.map_values(|path: Seq<char>| Change::Removed { path, ok: true })
}

/// Whether all that was done since is that files were removed that are left over.
pub open spec fn cleared(before: Seq<Change>, now: Seq<Change>, live: Set<u64>) -> bool {
    exists|gone: Seq<Seq<char>>|
        now == before + #[trigger] clearing(gone) && forall|k: int|
            0 <= k < gone.len() ==> left_over(names::base_of(#[trigger] gone[k]), live)
}

/// Remove what is left over in a directory, and nothing else.
pub(crate) fn reclaim<F: Fs, H: Holder<F = F>>(
    disk: &mut Disk<H>,
    dir: &str,
    live: &BTreeSet<u64>,
) -> (r: Result<()>)
    ensures
        disk::went_on(old(disk).changes(), final(disk).changes(), left_overs(live@)),
        r is Ok ==> cleared(old(disk).changes(), final(disk).changes(), live@),
        r is Ok ==> reclaimed::<F>(dir@, live@),
        r matches Err(e) ==> fs::handed_on::<F::File>(e@),
{
    let ghost start = disk.changes();
    let ghost mut gone: Seq<Seq<char>> = Seq::empty();
    proof {
        disk::went_nowhere(start, left_overs(live@));
        assert(start + clearing(gone) =~= start);
    }
    let paths = match disk.list(dir) {
        Ok(v) => v,
        Err(e) => return Err(Error::Io(e)),
    };
    let n: usize = paths.len();
    let mut i: usize = 0;
    while i < n
        invariant
            i <= n == paths@.len(),
            disk::went_on(start, disk.changes(), left_overs(live@)),
            start == old(disk).changes(),
            disk.changes() == start + clearing(gone),
            forall|k: int|
                0 <= k < gone.len() ==> left_over(names::base_of(#[trigger] gone[k]), live@),
            forall|k: int|
                0 <= k < i && left_over(names::base_of(#[trigger] fs::path_views(paths@)[k]), live@)
                    ==> F::removed(fs::path_views(paths@)[k], Ok(())),
        decreases n - i,
    {
        let path = paths[i].as_str();
        if is_left_over(names::base(path), live) {
            let ghost mid = disk.changes();
            let removed = disk.remove(path);
            proof {
                let ok = removed is Ok;
                disk::went_on_once(
                    start,
                    mid,
                    Change::Removed { path: path@, ok },
                    left_overs(live@),
                );
                if ok {
                    gone = gone.push(path@);
                    assert(disk.changes() =~= start + clearing(gone));
                }
            }
            match removed {
                Ok(()) => {},
                Err(e) => return Err(Error::Io(e)),
            }
        }
        i += 1;
    }
    Ok(())
}

/// The edits that name these tables in a fresh manifest.
pub open spec fn naming_edits(table_ids: Seq<u64>, next_sst_id: u64) -> Seq<VersionEdit> {
    seq![VersionEdit::SetNextSstId(next_sst_id)] + table_ids.map_values(
        |id: u64| VersionEdit::AddTable { id },
    )
}

/// A fresh manifest with these edits names these tables.
pub proof fn naming_edits_name(table_ids: Seq<u64>, next_sst_id: u64)
    ensures
        StateView::empty().applied_all(naming_edits(table_ids, next_sst_id)) == (StateView {
            live_tables: table_ids.to_set(),
            next_seq: 0,
            next_sst_id,
        }),
{
    let head = seq![VersionEdit::SetNextSstId(next_sst_id)];
    let tail = table_ids.map_values(|id: u64| VersionEdit::AddTable { id });
    manifest::applied_all_concat(StateView::empty(), head, tail);
    let mid = StateView::empty().applied_all(head);
    assert(head.drop_last() =~= Seq::empty());
    reveal_with_fuel(StateView::applied_all, 2);
    manifest::adding_tables(mid, table_ids);
    assert(mid.live_tables.union(table_ids.to_set()) =~= table_ids.to_set());
}

/// The ids of the tables among these paths, one for each path of a table.
pub open spec fn ids_in(paths: Seq<Seq<char>>) -> Seq<u64>
    decreases paths.len(),
{
    if paths.len() == 0 {
        Seq::empty()
    } else {
        let rest = ids_in(paths.drop_last());
        match names::sst_id(names::base_of(paths.last())) {
            Some(id) => rest.push(id),
            None => rest,
        }
    }
}

/// The ids of the tables among these paths, from the lowest to the highest.
fn table_ids(paths: &Vec<String>) -> (r: Vec<u64>)
    ensures
        ids::climbs(r@),
        r@.to_multiset() == ids_in(fs::path_views(paths@)).to_multiset(),
{
    let n: usize = paths.len();
    let mut out: Vec<u64> = Vec::new();
    let mut i: usize = 0;
    let ghost all = fs::path_views(paths@);
    assert(all.take(0) =~= Seq::empty());
    assert(out@ =~= ids_in(all.take(0)));
    while i < n
        invariant
            i <= n == paths@.len(),
            all == fs::path_views(paths@),
            ids::climbs(out@),
            out@.to_multiset() == ids_in(all.take(i as int)).to_multiset(),
        decreases n - i,
    {
        proof {
            assert(all.take(i + 1).drop_last() =~= all.take(i as int));
            assert(all.take(i + 1).last() == paths@[i as int]@);
        }
        if let Some(id) = names::parse_sst_id(names::base(paths[i].as_str())) {
            ids::insert_climbing(&mut out, id);
            proof {
                vstd::seq_lib::to_multiset_build(ids_in(all.take(i as int)), id);
            }
        }
        i += 1;
    }
    assert(all.take(n as int) =~= all);
    out
}

/// Whether this is the state of a directory without a manifest in which these
/// paths were found: the tables among them are live, and the next table gets an
/// id above theirs.
pub open spec fn describes(state: StateView, paths: Seq<Seq<char>>) -> bool {
    &&& state.live_tables == ids_in(paths).to_set()
    &&& state.next_seq == 0
    &&& forall|id: u64| #[trigger] state.live_tables.contains(id) ==> id < state.next_sst_id
    &&& state.next_sst_id > 0 ==> state.live_tables.contains((state.next_sst_id - 1) as u64)
}

/// Whether this is the manifest that a directory without one gets where these
/// paths were found in it: it names the tables among them, from the lowest id to
/// the highest.
pub open spec fn migrated<F: Fs>(
    manifest: &Manifest<F>,
    state: StateView,
    paths: Seq<Seq<char>>,
) -> bool {
    exists|found: Seq<u64>|
        ids::climbs(found) && found.to_multiset() == ids_in(paths).to_multiset()
            && #[trigger] manifest.holds(naming_edits(found, state.next_sst_id))
}

/// The manifest that a directory without one gets records the tables that were
/// found.
pub(crate) proof fn migration_names<F: Fs>(
    manifest: &Manifest<F>,
    state: StateView,
    paths: Seq<Seq<char>>,
)
    requires
        describes(state, paths),
        migrated(manifest, state, paths),
    ensures
        exists|edits: Seq<VersionEdit>|
            manifest.contents() == #[trigger] manifest::log_of(edits)
                && StateView::empty().applied_all(edits) == state,
        manifest.buffered() == Seq::<u8>::empty(),
        manifest.frame_checksum() == Checksum::Castagnoli,
{
    broadcast use vstd::seq_lib::group_to_multiset_ensures;

    let found = choose|found: Seq<u64>|
        ids::climbs(found) && found.to_multiset() == ids_in(paths).to_multiset()
            && #[trigger] manifest.holds(naming_edits(found, state.next_sst_id));
    naming_edits_name(found, state.next_sst_id);
    assert forall|id: u64| #[trigger] found.contains(id) <==> ids_in(paths).contains(id) by {
        assert(found.to_multiset().count(id) == ids_in(paths).to_multiset().count(id));
    }
    assert(found.to_set() =~= ids_in(paths).to_set());
    assert(manifest.contents() == manifest::log_of(naming_edits(found, state.next_sst_id)));
}

/// Give a directory that has none a manifest, which names the tables that are
/// there.
pub(crate) fn migrate_dir<F: Fs, H: Holder<F = F>>(disk: &mut Disk<H>, dir: &str) -> (r: Result<
    (Manifest<F>, ManifestState),
>)
    ensures
        r is Ok ==> final(disk).changes() == old(disk).changes() + manifest::creation_changes(
            dir@,
            0,
        ),
        disk::went_on(old(disk).changes(), final(disk).changes(), manifest::manifest_files(dir@)),
        disk::went_softly(old(disk).changes(), final(disk).changes()),
        r matches Ok((m, state)) ==> {
            &&& exists|paths: Seq<Seq<char>>| #[trigger]
                F::listed(dir@, paths) && describes(state@, paths) && migrated(&m, state@, paths)
            &&& m.is_synced()
            &&& m.dir_text() == dir@
            &&& m.live_generation() == 0
            &&& manifest::is_current::<F>(dir@, 0)
        },
        r matches Err(e) ==> fs::handed_on::<F::File>(e@) || exists|paths: Seq<Seq<char>>|
         #[trigger]
            F::listed(dir@, paths) && ids_in(paths).contains(u64::MAX) && e@
                == ErrorView::Corrupt("table ids are exhausted"@),
{
    broadcast use vstd::seq_lib::group_to_multiset_ensures;

    proof {
        disk::went_nowhere(disk.changes(), manifest::manifest_files(dir@));
    }
    let paths = match disk.list(dir) {
        Ok(v) => v,
        Err(e) => return Err(Error::Io(e)),
    };
    let ghost all = fs::path_views(paths@);
    assert(F::listed(dir@, all));
    let found = table_ids(&paths);
    proof {
        assert forall|id: u64| #[trigger] found@.contains(id) <==> ids_in(all).contains(id) by {
            assert(found@.to_multiset().count(id) == ids_in(all).to_multiset().count(id));
        }
        assert(found@.to_set() =~= ids_in(all).to_set());
    }
    let n: usize = found.len();
    let mut next_sst_id: u64 = 0;
    if n > 0 {
        let last: u64 = found[n - 1];
        assert(found@.contains(last));
        if last == u64::MAX {
            return Err(Error::corrupt("table ids are exhausted"));
        }
        next_sst_id = last + 1;
    }
    let mut manifest = Manifest::create_on(disk, dir)?;
    let mut edits: Vec<VersionEdit> = Vec::new();
    edits.push(VersionEdit::SetNextSstId(next_sst_id));
    let mut live: BTreeSet<u64> = BTreeSet::new();
    let mut i: usize = 0;
    assert(found@.take(0).to_set() =~= Set::<u64>::empty());
    assert(edits@ =~= naming_edits(found@.take(0), next_sst_id));
    while i < n
        invariant
            i <= n == found@.len(),
            edits@ == naming_edits(found@.take(i as int), next_sst_id),
            live@ == found@.take(i as int).to_set(),
        decreases n - i,
    {
        let id: u64 = found[i];
        edits.push(VersionEdit::AddTable { id });
        live.insert(id);
        proof {
            assert(found@.take(i + 1) =~= found@.take(i as int).push(id));
            found@.take(i as int).lemma_push_to_set_commute(id);
            assert(edits@ =~= naming_edits(found@.take(i + 1), next_sst_id));
        }
        i += 1;
    }
    assert(found@.take(n as int) =~= found@);
    manifest.append_batch(edits.as_slice())?;
    proof {
        manifest::manifest_grows(Seq::empty(), edits@);
        assert(Seq::<VersionEdit>::empty() + edits@ =~= edits@);
        let front = manifest::log_of(Seq::<VersionEdit>::empty());
        assert(front + Seq::<u8>::empty() =~= front);
        assert(manifest.holds(naming_edits(found@, next_sst_id)));
        assert forall|id: u64| #[trigger] live@.contains(id) implies id < next_sst_id by {
            let k = choose|k: int| 0 <= k < found@.len() && found@[k] == id;
            assert(found@[k] <= found@[n - 1]);
        }
    }
    let state = ManifestState { live_tables: live, next_seq: 0, next_sst_id };
    assert(describes(state@, all));
    assert(migrated(&manifest, state@, all));
    Ok((manifest, state))
}

/// What is in use is never left over: the lock, the log, `CURRENT` and the tables
/// that the manifest names. A table that it does not name is.
pub proof fn files_in_use_stay(live: Set<u64>, id: u64)
    ensures
        !left_over(LOCK_FILENAME@, live),
        !left_over(WAL_FILENAME@, live),
        !left_over(names::CURRENT_FILENAME@, live),
        left_over(names::sst_name(id), live) <==> !live.contains(id),
{
    names::sst_name_round_trip(id);
    reveal_strlit("LOCK");
    reveal_strlit("wal.log");
    reveal_strlit("wal.log.tmp");
    reveal_strlit("CURRENT");
    reveal_strlit(".db.tmp");
    reveal_strlit("sst_");
    reveal_strlit(".db");
    assert("wal.log"@.skip(0)[0] != ".db.tmp"@[0]);
    assert("CURRENT"@.skip(0)[0] != ".db.tmp"@[0]);
    assert("wal.log"@.take(4)[0] != "sst_"@[0]);
    assert("CURRENT"@.take(4)[0] != "sst_"@[0]);
}

/// What is left over: tables that are not live, what is written beside a table and
/// beside the log, and nothing else.
pub proof fn only_left_overs_go(name: Seq<char>, live: Set<u64>, id: u64)
    ensures
        left_over(names::sst_name(id) + ".tmp"@, live),
        left_over(WAL_TMP_FILENAME@, live),
        left_over(name, live) ==> name == WAL_TMP_FILENAME@ || ends_in(name, ".db.tmp"@) || (
        names::sst_id(name) matches Some(n) && !live.contains(n)),
        !left_over(names::manifest_name(id), live),
{
    let tmp = names::sst_name(id) + ".tmp"@;
    let d = text::padded(id as nat, 10);
    let m = names::manifest_name(id);
    reveal_strlit("LOCK");
    reveal_strlit("wal.log.tmp");
    reveal_strlit(".db.tmp");
    reveal_strlit(".tmp");
    reveal_strlit("sst_");
    reveal_strlit(".db");
    reveal_strlit("MANIFEST-");
    names::names_are_numbered(id);
    names::manifest_path_ends(Seq::empty(), id);
    names::path_layout(Seq::empty(), m);
    assert(tmp.skip(tmp.len() - 7) =~= ".db.tmp"@);
    assert(tmp.last() == 'p');
    assert(tmp.skip(tmp.len() - 3).last() != ".db"@.last());
    assert(tmp[0] == "sst_"@[0]);
    assert("wal.log.tmp"@.take(4)[0] != "sst_"@[0]);
    assert(m.skip(m.len() - 3).last() != ".db"@.last());
    assert(m.last() != 'p');
    if ends_in(m, ".db.tmp"@) {
        assert(m.skip(m.len() - 7).last() == ".db.tmp"@.last());
    }
    assert(m != "wal.log.tmp"@) by {
        assert("wal.log.tmp"@.last() == 'p');
    }
}

/// The tables among paths are those whose last part is the name of a table.
pub proof fn tables_among_paths(paths: Seq<Seq<char>>, id: u64)
    ensures
        ids_in(paths).contains(id) <==> exists|i: int|
            0 <= i < paths.len() && names::sst_id(names::base_of(#[trigger] paths[i])) == Some(id),
    decreases paths.len(),
{
    if paths.len() > 0 {
        let front = paths.drop_last();
        let rest = ids_in(front);
        let all = ids_in(paths);
        tables_among_paths(front, id);
        let last = names::sst_id(names::base_of(paths.last()));
        if all.contains(id) {
            let k = choose|k: int| 0 <= k < all.len() && all[k] == id;
            if k < rest.len() {
                assert(rest[k] == id);
                let i = choose|i: int|
                    0 <= i < front.len() && names::sst_id(names::base_of(#[trigger] front[i]))
                        == Some(id);
                assert(paths[i] == front[i]);
            } else {
                assert(names::sst_id(names::base_of(paths[paths.len() - 1])) == Some(id));
            }
        }
        if exists|i: int|
            0 <= i < paths.len() && names::sst_id(names::base_of(#[trigger] paths[i])) == Some(
                id,
            ) {
            let i = choose|i: int|
                0 <= i < paths.len() && names::sst_id(names::base_of(#[trigger] paths[i])) == Some(
                    id,
                );
            if i < front.len() {
                assert(front[i] == paths[i]);
                let k = choose|k: int| 0 <= k < rest.len() && rest[k] == id;
                assert(all[k] == id);
            } else {
                assert(all.last() == id);
            }
        }
    }
}

/// What the files of a directory are called.
pub proof fn files_have_their_names()
    ensures
        WAL_FILENAME@ == "wal.log"@,
        WAL_TMP_FILENAME@ == "wal.log.tmp"@,
        LOCK_FILENAME@ == "LOCK"@,
        names::CURRENT_FILENAME@ == "CURRENT"@,
{
}

} // verus!
