//! Checkpoints: a second database that shares the first one's tables.

use std::collections::BTreeSet;
use vstd::prelude::*;

use super::flush;
use super::Db;
use crate::disk;
use crate::disk::Change;
use crate::error::{Error, ErrorView, IoError, IoErrorKind, IoErrorView, Result};
use crate::fs;
use crate::fs::{File, Fs};
use crate::manifest;
use crate::manifest::{Manifest, ManifestState, VersionEdit};
use crate::names;
use crate::state::DbView;

verus! {

broadcast use vstd::std_specs::btree::group_btree_axioms;

/// Whether `after` is `before` with all that was in memory flushed.
pub open spec fn emptied<F: Fs>(before: &Db<F>, after: &Db<F>) -> bool {
    &&& after@.active.len() == 0
    &&& after@.frozen is None
    &&& exists|mid: Db<F>| #[trigger]
        flush::flush_done(before@, &mid, Ok(())) && flush::flush_done(mid@, after, Ok(()))
}

/// Whether `after` is what two flushes make of `before`, and they did nothing to the
/// filesystem but what flushes do.
pub open spec fn emptied_by<F: Fs>(before: &Db<F>, after: &Db<F>) -> bool {
    exists|mid: Db<F>| #[trigger]
        flush::flush_left(before, &mid, Ok(())) && flush::flush_left(&mid, after, Ok(()))
}

/// What is done to give tables with these ids other names in a directory.
pub open spec fn linking(dir: Seq<char>, target: Seq<char>, table_ids: Seq<u64>) -> Seq<Change> {
    table_ids.map_values(
        |id: u64|
            Change::Linked {
                original: names::path_in(dir, names::sst_name(id)),
                link: names::path_in(target, names::sst_name(id)),
                ok: true,
            },
    )
}

/// What is done to copy a database to a directory: its tables get other names there,
/// and a manifest is created there and put down with what records the database.
pub open spec fn copying(dir: Seq<char>, target: Seq<char>, db: DbView) -> Seq<Change> {
    (linking(dir, target, db.ids()) + manifest::creation_changes(target, 0)).push(
        Change::Closed {
            path: names::path_in(target, names::manifest_name(0)),
            bytes: manifest::log_of(db.checkpoint_state().snapshot()),
        },
    )
}

/// The paths that making a checkpoint in a directory is about.
pub open spec fn checkpoint_files(target: Seq<char>) -> Set<Seq<char>> {
    Set::new(|path: Seq<char>| is_checkpoint_file(target, path))
}

/// Whether this is the path of a table or of the manifest of a checkpoint in a
/// directory.
pub open spec fn is_checkpoint_file(target: Seq<char>, path: Seq<char>) -> bool {
    ||| manifest::is_manifest_file(target, path)
    ||| exists|id: u64| path == names::path_in(target, #[trigger] names::sst_name(id))
}

/// Whether the database in `dir` was copied as it is to this directory: its tables
/// were linked there, their names made durable, a manifest that records the
/// database was made durable, and `CURRENT` names it.
pub open spec fn is_checkpoint<F: Fs>(dir: Seq<char>, target: Seq<char>, db: DbView) -> bool {
    &&& all_linked::<F>(dir, target, db.ids())
    &&& F::dir_synced(target)
    &&& F::File::synced(
        names::path_in(target, names::manifest_name(0)),
        manifest::log_of(db.checkpoint_state().snapshot()),
    )
    &&& manifest::is_current::<F>(target, 0)
}

/// Whether the files of tables with these ids were linked into another directory.
pub open spec fn all_linked<F: Fs>(
    dir: Seq<char>,
    target: Seq<char>,
    table_ids: Seq<u64>,
) -> bool {
    forall|i: int|
        0 <= i < table_ids.len() ==> F::linked(
            names::path_in(dir, names::sst_name(#[trigger] table_ids[i])),
            names::path_in(target, names::sst_name(table_ids[i])),
        )
}

/// Whether an error is one that making a checkpoint in this directory can end in:
/// the filesystem's, or that the directory holds a database.
pub open spec fn unlinked<F: Fs>(target: Seq<char>, e: ErrorView) -> bool {
    ||| fs::handed_on::<F::File>(e)
    ||| e == ErrorView::Io(
        IoErrorView {
            kind: IoErrorKind::AlreadyExists,
            message: "the directory of the checkpoint holds a database"@,
        },
    ) && exists|n: u64| #[trigger]
        F::sized(names::path_in(target, names::CURRENT_FILENAME@), Ok(n))
}

impl<F: Fs> Db<F> {
    /// Make a copy of the database as it is now in another directory, which
    /// must not hold one. Its tables are other names for this database's
    /// tables, so that no data is copied, and each copy keeps what it needs
    /// when the other removes it.
    ///
    /// What is in memory is flushed first.
    pub fn checkpoint(&mut self, target: &str) -> (r: Result<()>)
        requires
            old(self).wf(),
        ensures
            final(self).wf(),
            final(self).same_place(old(self)),
            old(self)@.failure is Some ==> flush::refused(old(self)@, final(self)@, r),
            old(self)@.failure is None ==> if final(self)@.failure is Some {
                flush::poisoned(final(self)@, r) && (flush::flush_done(old(self)@, final(self), r)
                    || exists|mid: Db<F>| #[trigger]
                    flush::flush_done(old(self)@, &mid, Ok(())) && flush::flush_done(
                        mid@,
                        final(self),
                        r,
                    ))
            } else {
                &&& emptied(old(self), final(self))
                &&& exists|mid: Db<F>| #[trigger]
                    emptied_by(old(self), &mid) && mid@ == final(self)@ && mid.same_place(
                        old(self),
                    ) && match r {
                        Ok(_) => final(self).changes() == mid.changes() + copying(
                            mid.dir_text(),
                            target@,
                            mid@,
                        ),
                        Err(_) => disk::went_on(
                            mid.changes(),
                            final(self).changes(),
                            checkpoint_files(target@),
                        ),
                    }
                &&& r is Ok ==> is_checkpoint::<F>(
                    final(self).dir_text(),
                    target@,
                    final(self)@,
                )
                &&& r matches Err(e) ==> unlinked::<F>(target@, e@)
            },
    {
        self.flush_only()?;
        let ghost mid = *self;
        self.flush_only()?;
        proof {
            assert(flush::flush_done(old(self)@, &mid, Ok(())) && flush::flush_done(
                mid@,
                self,
                Ok(()),
            ));
            assert(flush::flush_left(old(self), &mid, Ok(())) && flush::flush_left(
                &mid,
                self,
                Ok(()),
            ));
            assert(emptied_by(old(self), self));
        }
        self.link_into(target)
    }

    /// Link the tables into a directory, and write a manifest there that names
    /// them.
    fn link_into(&mut self, target: &str) -> (r: Result<()>)
        requires
            old(self).wf(),
        ensures
            final(self).wf(),
            *final(self) == (Db { disk: final(self).disk, ..*old(self) }),
            final(self)@ == old(self)@,
            r is Ok ==> is_checkpoint::<F>(old(self).dir_text(), target@, old(self)@),
            r is Ok ==> final(self).changes() == old(self).changes() + copying(
                old(self).dir_text(),
                target@,
                old(self)@,
            ),
            disk::went_on(
                old(self).changes(),
                final(self).changes(),
                checkpoint_files(target@),
            ),
            r matches Err(e) ==> unlinked::<F>(target@, e@),
    {
        let ghost was = *self;
        let ghost start = self.changes();
        let ghost files = checkpoint_files(target@);
        proof {
            disk::went_nowhere(start, files);
        }
        match self.disk.create_dir_all(target) {
            Ok(()) => {},
            Err(e) => return Err(Error::Io(e)),
        }
        if Manifest::is_present_on(&self.disk, target) {
            proof {
                let path = names::path_in(target@, names::CURRENT_FILENAME@);
                let answer = choose|answer: core::result::Result<u64, IoErrorView>| #[trigger]
                    F::sized(path, answer) && answer is Ok;
                let n = answer->Ok_0;
                assert(F::sized(path, Ok(n)));
            }
            return Err(
                Error::Io(
                    IoError::new(
                        IoErrorKind::AlreadyExists,
                        "the directory of the checkpoint holds a database",
                    ),
                ),
            );
        }
        // The names before the manifest that depends on them.
        let linked = self.link_tables(target);
        let ghost named = self.changes();
        proof {
            self.still_stands(&was);
        }
        linked?;
        let created = Manifest::create_on(&mut self.disk, target);
        let ghost made = self.changes();
        proof {
            disk::went_softly_further(start, named, made);
            disk::went_on_further(start, named, made, files, manifest::manifest_files(target@));
            self.still_stands(&was);
        }
        let mut manifest = created?;
        let edits = self.checkpoint_edits();
        let written = manifest.append_batch(edits.as_slice());
        proof {
            let none = Seq::<VersionEdit>::empty();
            manifest::manifest_grows(none, edits@);
            assert(none + edits@ =~= edits@);
            let front = manifest::log_of(none);
            assert(front + Seq::<u8>::empty() =~= front);
        }
        let ghost place = manifest.place();
        let ghost left = manifest.contents();
        manifest.close_on(&mut self.disk);
        proof {
            let change = Change::Closed { path: place, bytes: left };
            names::manifest_path_ends(target@, 0);
            assert(manifest::is_manifest_file(target@, place));
            disk::went_softly_once(start, made, change);
            disk::went_on_once(start, made, change, files);
            self.still_stands(&was);
            if written is Ok {
                assert(self.changes() =~= start + copying(was.dir_text(), target@, was@));
            }
        }
        written
    }

    /// What is harmless leaves the database as it is.
    proof fn still_stands(&self, was: &Self)
        requires
            was.wf(),
            *self == (Db { disk: self.disk, ..*was }),
            disk::went_softly(was.changes(), self.changes()),
        ensures
            self.wf(),
            self@ == was@,
    {
        was.wf_facts();
        assert(self@ == was@);
        super::all_kept_softly(was.changes(), self.changes(), was.dir_text(), was@.ids());
    }

    /// Give every table a second name in a directory, and make the names durable.
    /// Nothing is done to a name once it is given.
    fn link_tables(&mut self, target: &str) -> (r: Result<()>)
        ensures
            *final(self) == (Db { disk: final(self).disk, ..*old(self) }),
            r is Ok ==> all_linked::<F>(old(self).dir_text(), target@, old(self)@.ids())
                && F::dir_synced(target@),
            r is Ok ==> final(self).changes() == old(self).changes() + linking(
                old(self).dir_text(),
                target@,
                old(self)@.ids(),
            ),
            disk::went_on(
                old(self).changes(),
                final(self).changes(),
                checkpoint_files(target@),
            ),
            disk::went_softly(old(self).changes(), final(self).changes()),
            r matches Err(e) ==> fs::handed_on::<F::File>(e@),
    {
        let n: usize = self.sstables.len();
        let mut i: usize = 0;
        let ghost was = *self;
        let ghost start = self.changes();
        let ghost ids = self@.ids();
        let ghost dir = self.dir_text();
        let ghost files = checkpoint_files(target@);
        proof {
            disk::went_nowhere(start, files);
            assert(start + linking(dir, target@, ids.take(0)) =~= start);
        }
        while i < n
            invariant
                i <= n == self.sstables@.len(),
                *self == (Db { disk: self.disk, ..was }),
                was == *old(self),
                ids == was@.ids(),
                dir == was.dir_text(),
                start == was.changes(),
                files == checkpoint_files(target@),
                self.changes() == start + linking(dir, target@, ids.take(i as int)),
                disk::went_on(start, self.changes(), files),
                disk::went_softly(start, self.changes()),
                all_linked::<F>(dir, target@, ids.take(i as int)),
            decreases n - i,
        {
            let id: u64 = self.sstables[i].id;
            assert(ids[i as int] == id);
            let from = names::sst_path(self.dir.as_str(), id);
            let to = names::sst_path(target, id);
            let ghost mid = self.changes();
            let linked = self.disk.hard_link(from.as_str(), to.as_str());
            proof {
                let ok = linked is Ok;
                let change = Change::Linked { original: from@, link: to@, ok };
                assert(is_checkpoint_file(target@, to@));
                disk::went_on_once(start, mid, change, files);
                disk::went_softly_once(start, mid, change);
                if ok {
                    assert(ids.take(i + 1) =~= ids.take(i as int).push(id));
                    assert(self.changes() =~= start + linking(dir, target@, ids.take(i + 1)));
                }
            }
            match linked {
                Ok(()) => {},
                Err(e) => return Err(Error::Io(e)),
            }
            i += 1;
        }
        assert(ids.take(n as int) =~= ids);
        match self.disk.sync_dir(target) {
            Ok(()) => Ok(()),
            Err(e) => Err(Error::Io(e)),
        }
    }

    /// The edits that a checkpoint's manifest holds: the counters, and the
    /// tables.
    pub fn checkpoint_edits(&self) -> (r: Vec<VersionEdit>)
        ensures
            r@ == self@.checkpoint_state().snapshot(),
    {
        let n: usize = self.sstables.len();
        let ghost ids = self@.ids();
        let mut live: BTreeSet<u64> = BTreeSet::new();
        let mut i: usize = 0;
        assert(ids.take(0).to_set() =~= Set::<u64>::empty());
        while i < n
            invariant
                i <= n == self.sstables@.len(),
                ids == self@.ids(),
                live@ == ids.take(i as int).to_set(),
            decreases n - i,
        {
            let id: u64 = self.sstables[i].id;
            live.insert(id);
            proof {
                assert(ids[i as int] == id);
                assert(ids.take(i + 1) =~= ids.take(i as int).push(id));
                ids.take(i as int).lemma_push_to_set_commute(id);
            }
            i += 1;
        }
        assert(ids.take(n as int) =~= ids);
        let state = ManifestState {
            live_tables: live,
            next_seq: self.next_seq,
            next_sst_id: self.next_sst_id,
        };
        state.snapshot_edits()
    }
}

} // verus!
