//! The filesystem in the hands of the engine, with what the engine did to it.
//!
//! The traits in [`fs`](crate::fs) say of each call what came of it. They do not
//! say what stands on the disk in the end, because an implementation keeps that to
//! itself: it is asked through shared references. So the engine holds the
//! filesystem in a [`Disk`], which is the only way to it and keeps, for the
//! contracts alone, the changes that were made, in order. A contract can then say
//! that these calls were made and no others.

use vstd::prelude::*;

use crate::error::{ErrorView, IoError, IoErrorKind, IoErrorView};
use crate::fs;
use crate::fs::{File, Fs, OpenMode};

verus! {

/// One change to what stands in the directories.
#[verifier::ext_equal]
pub enum Change {
    /// A file was asked for to be written to. Whether it was given or not, what
    /// stands at the path is not known from then on.
    Opened { path: Seq<char>, mode: OpenMode },
    /// A file that was written was put down, with these bytes in it.
    Closed { path: Seq<char>, bytes: Seq<u8> },
    /// A file was renamed, or the attempt failed.
    Renamed { from: Seq<char>, to: Seq<char>, ok: bool },
    /// A file was given another name, or the attempt failed.
    Linked { original: Seq<char>, link: Seq<char>, ok: bool },
    /// A file was removed, or the attempt failed.
    Removed { path: Seq<char>, ok: bool },
}

impl Change {
    /// Whether the change is to what stands at this path.
    pub open spec fn touches(self, at: Seq<char>) -> bool {
        match self {
            Change::Opened { path, mode } => path == at,
            Change::Closed { path, bytes } => path == at,
            Change::Renamed { from, to, ok } => from == at || to == at,
            Change::Linked { original, link, ok } => link == at,
            Change::Removed { path, ok } => path == at,
        }
    }
}

/// The bytes that stand at a path once these changes were made, as far as they
/// say: those with which a file was put down last, wherever that file was moved or
/// linked from.
pub open spec fn left_at(changes: Seq<Change>, at: Seq<char>) -> Option<Seq<u8>>
    decreases changes.len(),
{
    if changes.len() == 0 {
        None
    } else {
        let before = changes.drop_last();
        match changes.last() {
            Change::Closed { path, bytes } if path == at => Some(bytes),
            Change::Renamed { from, to, ok } if ok && to == at && from != at => left_at(
                before,
                from,
            ),
            Change::Linked { original, link, ok } if link == at => if ok {
                left_at(before, original)
            } else {
                left_at(before, at)
            },
            c => if c.touches(at) {
                None
            } else {
                left_at(before, at)
            },
        }
    }
}

/// The path that a path is another name for once these changes were made, as far
/// as they say: the one that it was linked to, if nothing was done to it since.
pub open spec fn linked_to(changes: Seq<Change>, at: Seq<char>) -> Option<Seq<char>>
    decreases changes.len(),
{
    if changes.len() == 0 {
        None
    } else {
        let before = changes.drop_last();
        match changes.last() {
            Change::Linked { original, link, ok } if link == at && ok => Some(original),
            Change::Linked { original, link, ok } if link == at => linked_to(before, at),
            c => if c.touches(at) {
                None
            } else {
                linked_to(before, at)
            },
        }
    }
}

/// Whether these changes are to what stands at these places alone.
pub open spec fn confined(changes: Seq<Change>, places: Set<Seq<char>>) -> bool {
    forall|i: int, at: Seq<char>|
        0 <= i < changes.len() && (#[trigger] changes[i]).touches(at) ==> #[trigger] places.contains(
            at,
        )
}

/// Whether all that was done since is to what stands at these places.
pub open spec fn went_on(before: Seq<Change>, now: Seq<Change>, places: Set<Seq<char>>) -> bool {
    &&& before.is_prefix_of(now)
    &&& confined(now.skip(before.len() as int), places)
}

/// What is done at some places, and then at some of them, is done at these places.
pub proof fn went_on_further(
    start: Seq<Change>,
    mid: Seq<Change>,
    end: Seq<Change>,
    places: Set<Seq<char>>,
    fewer: Set<Seq<char>>,
)
    requires
        went_on(start, mid, places),
        went_on(mid, end, fewer),
        fewer.subset_of(places),
    ensures
        went_on(start, end, places),
{
    let n = start.len() as int;
    let m = mid.len() as int;
    assert(start =~= end.take(n)) by {
        assert(start =~= mid.take(n));
        assert(mid =~= end.take(m));
    }
    let more = end.skip(n);
    assert forall|i: int, at: Seq<char>|
        0 <= i < more.len() && (#[trigger] more[i]).touches(
            at,
        ) implies #[trigger] places.contains(at) by {
        if i < m - n {
            assert(more[i] == mid.skip(n)[i]);
        } else {
            assert(more[i] == end.skip(m)[i - (m - n)]);
        }
    }
}

/// One more change, at one of these places.
pub proof fn went_on_once(
    start: Seq<Change>,
    mid: Seq<Change>,
    change: Change,
    places: Set<Seq<char>>,
)
    requires
        went_on(start, mid, places),
        forall|at: Seq<char>| #[trigger] change.touches(at) ==> places.contains(at),
    ensures
        went_on(start, mid.push(change), places),
{
    let now = mid.push(change);
    let n = start.len() as int;
    assert(start =~= now.take(n)) by {
        assert(start =~= mid.take(n));
    }
    let more = now.skip(n);
    assert forall|i: int, at: Seq<char>|
        0 <= i < more.len() && (#[trigger] more[i]).touches(
            at,
        ) implies #[trigger] places.contains(at) by {
        if i < mid.len() - n {
            assert(more[i] == mid.skip(n)[i]);
        } else {
            assert(more[i] == change);
        }
    }
}

/// Nothing was done.
pub proof fn went_nowhere(start: Seq<Change>, places: Set<Seq<char>>)
    ensures
        went_on(start, start, places),
{
    assert(start.skip(start.len() as int) =~= Seq::empty());
}

/// Whether a file that stood at a path still does once these changes were made,
/// or another one was moved or linked there whole: it was not removed, moved away
/// or emptied.
pub open spec fn kept(changes: Seq<Change>, at: Seq<char>) -> bool
    decreases changes.len(),
{
    if changes.len() == 0 {
        true
    } else {
        let before = changes.drop_last();
        match changes.last() {
            Change::Opened { path, mode } if path == at => mode != OpenMode::Truncate && kept(
                before,
                at,
            ),
            Change::Closed { path, bytes } if path == at => false,
            Change::Renamed { from, to, ok } if ok && to == at => from != at || kept(before, at),
            Change::Renamed { from, to, ok } if ok && from == at => false,
            Change::Linked { original, link, ok } if ok && link == at => true,
            Change::Removed { path, ok } if path == at => false,
            _ => kept(before, at),
        }
    }
}

/// Whether a path is one that is written to anew at any time: it ends neither like
/// a table's, nor like the log's or that of `CURRENT`.
pub open spec fn is_scratch(path: Seq<char>) -> bool {
    path.len() > 0 && path.last() != 'b' && path.last() != 'g' && path.last() != 'T'
}

/// Whether a change leaves alone what stands at a path that is not written to
/// anew, but for putting another file there whole.
pub open spec fn is_harmless(change: Change) -> bool {
    match change {
        Change::Opened { path, mode } => mode != OpenMode::Truncate || is_scratch(path),
        Change::Closed { path, bytes } => is_scratch(path),
        Change::Renamed { from, to, ok } => is_scratch(from),
        Change::Linked { original, link, ok } => true,
        Change::Removed { path, ok } => is_scratch(path),
    }
}

/// Whether all that was done since was harmless.
pub open spec fn went_softly(before: Seq<Change>, now: Seq<Change>) -> bool {
    &&& before.is_prefix_of(now)
    &&& forall|i: int| before.len() <= i < now.len() ==> is_harmless(#[trigger] now[i])
}

/// One harmless change more.
pub proof fn went_softly_once(start: Seq<Change>, mid: Seq<Change>, change: Change)
    requires
        went_softly(start, mid),
        is_harmless(change),
    ensures
        went_softly(start, mid.push(change)),
{
    assert(start =~= mid.push(change).take(start.len() as int)) by {
        assert(start =~= mid.take(start.len() as int));
    }
}

/// What was harmless before and after was harmless.
pub proof fn went_softly_further(start: Seq<Change>, mid: Seq<Change>, end: Seq<Change>)
    requires
        went_softly(start, mid),
        went_softly(mid, end),
    ensures
        went_softly(start, end),
{
    assert(start =~= end.take(start.len() as int)) by {
        assert(start =~= mid.take(start.len() as int));
        assert(mid =~= end.take(mid.len() as int));
    }
    assert forall|i: int| start.len() <= i < end.len() implies is_harmless(
        #[trigger] end[i],
    ) by {
        if i < mid.len() {
            assert(mid[i] == end[i]);
        }
    }
}

/// What is harmless keeps what stands at a path that is not written to anew.
pub proof fn kept_softly(before: Seq<Change>, now: Seq<Change>, at: Seq<char>)
    requires
        went_softly(before, now),
        kept(before, at),
        !is_scratch(at),
    ensures
        kept(now, at),
    decreases now.len(),
{
    if now.len() == before.len() {
        assert(now =~= before);
    } else {
        let mid = now.drop_last();
        assert(before =~= mid.take(before.len() as int));
        assert forall|i: int| before.len() <= i < mid.len() implies is_harmless(
            #[trigger] mid[i],
        ) by {
            assert(mid[i] == now[i]);
        }
        kept_softly(before, mid, at);
        assert(is_harmless(now[now.len() - 1]));
        kept_once(mid, now.last(), at);
        assert(mid.push(now.last()) =~= now);
    }
}

/// Whether none of these changes is to what stands at this path.
pub open spec fn spares(changes: Seq<Change>, at: Seq<char>) -> bool {
    forall|i: int| 0 <= i < changes.len() ==> !(#[trigger] changes[i]).touches(at)
}

/// Changes that spare a path leave there what stood there.
pub proof fn spared(before: Seq<Change>, more: Seq<Change>, at: Seq<char>)
    requires
        spares(more, at),
    ensures
        left_at(before + more, at) == left_at(before, at),
        linked_to(before + more, at) == linked_to(before, at),
        kept(before + more, at) == kept(before, at),
    decreases more.len(),
{
    if more.len() == 0 {
        assert(before + more =~= before);
    } else {
        let all = before + more;
        assert(all.drop_last() =~= before + more.drop_last());
        assert(all.last() == more.last());
        assert(!more[more.len() - 1].touches(at));
        assert forall|i: int| 0 <= i < more.drop_last().len() implies !(
        #[trigger] more.drop_last()[i]).touches(at) by {
            assert(!more[i].touches(at));
        }
        spared(before, more.drop_last(), at);
    }
}

/// What is done at some places leaves what stands elsewhere.
pub proof fn spared_elsewhere(
    before: Seq<Change>,
    now: Seq<Change>,
    places: Set<Seq<char>>,
    at: Seq<char>,
)
    requires
        went_on(before, now, places),
        !places.contains(at),
    ensures
        left_at(now, at) == left_at(before, at),
        linked_to(now, at) == linked_to(before, at),
        kept(now, at) == kept(before, at),
{
    let more = now.skip(before.len() as int);
    assert(now =~= before + more);
    assert forall|i: int| 0 <= i < more.len() implies !(#[trigger] more[i]).touches(at) by {
        if more[i].touches(at) {
            assert(places.contains(at));
        }
    }
    spared(before, more, at);
}

/// One change more keeps what it does not touch, and what it moves or links whole
/// to a path.
pub proof fn kept_once(before: Seq<Change>, change: Change, at: Seq<char>)
    requires
        kept(before, at),
        match change {
            Change::Opened { path, mode } => path == at ==> mode != OpenMode::Truncate,
            Change::Closed { path, bytes } => path != at,
            Change::Renamed { from, to, ok } => from != at,
            Change::Linked { original, link, ok } => true,
            Change::Removed { path, ok } => path != at,
        },
    ensures
        kept(before.push(change), at),
{
    assert(before.push(change).drop_last() =~= before);
}

/// What is written to a path beside it and then moved there stands there.
pub proof fn written_then_moved(
    before: Seq<Change>,
    tmp: Seq<char>,
    path: Seq<char>,
    bytes: Seq<u8>,
)
    requires
        tmp != path,
    ensures
        left_at(
            before.push(Change::Closed { path: tmp, bytes }).push(
                Change::Renamed { from: tmp, to: path, ok: true },
            ),
            path,
        ) == Some(bytes),
{
    let one = before.push(Change::Closed { path: tmp, bytes });
    let two = one.push(Change::Renamed { from: tmp, to: path, ok: true });
    assert(two.drop_last() =~= one);
    assert(one.drop_last() =~= before);
    assert(left_at(one, tmp) == Some(bytes));
}

/// What holds a filesystem.
pub trait Holder: Sized {
    type F: Fs;

    fn lend(&self) -> &Self::F;
}

/// A filesystem of one's own.
pub struct Own<F: Fs> {
    fs: F,
}

impl<F: Fs> Holder for Own<F> {
    type F = F;

    fn lend(&self) -> &F {
        &self.fs
    }
}

/// A filesystem that someone else holds.
pub struct Lent<'a, F: Fs> {
    fs: &'a F,
}

impl<'a, F: Fs> Holder for Lent<'a, F> {
    type F = F;

    fn lend(&self) -> &F {
        self.fs
    }
}

/// A filesystem that can be taken in hand for one piece of work.
pub trait Volume<F: Fs>: Sized {
    type H: Holder<F = F>;

    fn mount(self) -> (r: Disk<Self::H>)
        ensures
            r.changes() == Seq::<Change>::empty(),
    ;
}

impl<'a, F: Fs> Volume<F> for &'a F {
    type H = Lent<'a, F>;

    fn mount(self) -> (r: Disk<Lent<'a, F>>) {
        Disk { holder: Lent { fs: self }, done: Ghost(Seq::empty()) }
    }
}

/// A filesystem that can be taken over for good.
pub trait Whole<F: Fs>: Sized {
    fn take(self) -> (r: Disk<Own<F>>)
        ensures
            r.changes() == Seq::<Change>::empty(),
    ;
}

impl<F: Fs> Whole<F> for F {
    fn take(self) -> (r: Disk<Own<F>>) {
        Disk { holder: Own { fs: self }, done: Ghost(Seq::empty()) }
    }
}

/// A file that can be read and not be changed.
pub struct Reading<W: File> {
    file: W,
}

impl<W: File> Reading<W> {
    /// The bytes in the file.
    pub closed spec fn contents(&self) -> Seq<u8> {
        self.file.contents()
    }

    /// The path that the file was opened at.
    pub closed spec fn place(&self) -> Seq<char> {
        self.file.place()
    }

    /// The file, from now on only to be read.
    pub(crate) fn of(file: W) -> (r: Reading<W>)
        ensures
            r.contents() == file.contents(),
            r.place() == file.place(),
    {
        Reading { file }
    }

    /// How long the file is.
    pub fn size(&self) -> (r: core::result::Result<u64, IoError>)
        ensures
            r matches Ok(n) ==> n == self.contents().len(),
            r matches Err(e) ==> W::gave(e@),
    {
        self.file.size()
    }

    /// Fill `buf` with the bytes at `off`, or fail.
    pub fn read_exact_at(&self, off: u64, buf: &mut [u8]) -> (r: core::result::Result<
        (),
        IoError,
    >)
        ensures
            final(buf)@.len() == old(buf)@.len(),
            r is Ok && old(buf)@.len() > 0 ==> off + old(buf)@.len() <= self.contents().len()
                && final(buf)@ == self.contents().subrange(off as int, off + old(buf)@.len()),
            off + old(buf)@.len() > self.contents().len() && old(buf)@.len() > 0 ==> r is Err,
            old(buf)@.len() == 0 ==> r is Ok,
            r matches Err(e) ==> {
                ||| W::gave(e@)
                ||| e@ == fs::ended() && (off + old(buf)@.len() > self.contents().len() || off
                    + old(buf)@.len() > u64::MAX)
                ||| e@ == fs::gave_up() && exists|x: IoErrorView| #[trigger]
                    W::gave(x) && x.kind == IoErrorKind::Interrupted
            },
    {
        self.file.read_exact_at(off, buf)
    }

    /// The whole file.
    pub fn read_all(&self) -> (r: core::result::Result<Vec<u8>, IoError>)
        ensures
            r matches Ok(v) ==> v@ == self.contents(),
            r matches Err(e) ==> fs::unread::<W>(self.contents().len(), ErrorView::Io(e@)),
    {
        self.file.read_all()
    }

    /// The first bytes of the file: eight of them, or all if there are fewer.
    pub fn read_front(&self) -> (r: core::result::Result<Vec<u8>, IoError>)
        ensures
            r matches Ok(v) ==> v@ == self.contents().take(
                if self.contents().len() < 8 {
                    self.contents().len() as int
                } else {
                    8
                },
            ),
            r matches Err(e) ==> fs::handed_on::<W>(ErrorView::Io(e@)),
    {
        fs::read_front(&self.file)
    }
}

/// A filesystem in hand, and the changes that were made to it since it was taken.
pub struct Disk<H: Holder> {
    holder: H,
    done: Ghost<Seq<Change>>,
}

/// Whether the filesystem answered a call that makes this change.
pub open spec fn happened<F: Fs>(change: Change) -> bool {
    match change {
        Change::Opened { path, mode } => was_answered::<F>(path, mode),
        Change::Closed { path, bytes } => true,
        Change::Renamed { from, to, ok } => ok ==> F::renamed(from, to),
        Change::Linked { original, link, ok } => ok ==> F::linked(original, link),
        Change::Removed { path, ok } => was_to_go::<F>(path, ok),
    }
}

/// Whether a call to open this path like this was answered.
pub open spec fn was_answered<F: Fs>(path: Seq<char>, mode: OpenMode) -> bool {
    exists|answer: core::result::Result<Seq<u8>, IoErrorView>| #[trigger]
        F::answered(path, mode, answer)
}

/// Whether a call to remove the file at this path was answered like this.
pub open spec fn was_to_go<F: Fs>(path: Seq<char>, ok: bool) -> bool {
    exists|answer: core::result::Result<(), IoErrorView>| #[trigger]
        F::removed(path, answer) && ok == (answer is Ok)
}

proof fn opening_happened<F: Fs>(
    path: Seq<char>,
    mode: OpenMode,
    answer: core::result::Result<Seq<u8>, IoErrorView>,
)
    requires
        F::answered(path, mode, answer),
    ensures
        happened::<F>(Change::Opened { path, mode }),
{
}

proof fn removal_happened<F: Fs>(
    path: Seq<char>,
    answer: core::result::Result<(), IoErrorView>,
)
    requires
        F::removed(path, answer),
    ensures
        happened::<F>(Change::Removed { path, ok: answer is Ok }),
{
}

/// Whether these were once all the changes of one piece of work.
pub closed spec fn ended<F: Fs>(changes: Seq<Change>) -> bool {
    forall|i: int| 0 <= i < changes.len() ==> happened::<F>(#[trigger] changes[i])
}

impl<H: Holder> Disk<H> {
    /// The changes that were made, in order.
    pub closed spec fn changes(&self) -> Seq<Change> {
        self.done@
    }

    #[verifier::type_invariant]
    spec fn all_happened(&self) -> bool {
        ended::<H::F>(self.done@)
    }

    /// End this piece of work.
    pub fn finish(self)
        ensures
            ended::<H::F>(self.changes()),
    {
        proof {
            use_type_invariant(&self);
        }
    }

    /// Open a file to look at it.
    pub fn look(&self, path: &str) -> (r: core::result::Result<
        Reading<<H::F as Fs>::File>,
        IoError,
    >)
        ensures
            r matches Err(e) ==> <H::F as Fs>::File::gave(e@) && H::F::answered(
                path@,
                OpenMode::Read,
                Err(e@),
            ),
            r is Ok ==> H::F::answered(path@, OpenMode::Read, Ok(r->Ok_0.contents())),
            r is Ok ==> r->Ok_0.place() == path@,
    {
        match self.holder.lend().open(path, OpenMode::Read) {
            Ok(file) => Ok(Reading { file }),
            Err(e) => Err(e),
        }
    }

    /// Open a file to write to it.
    pub fn open(&mut self, path: &str, mode: OpenMode) -> (r: core::result::Result<
        <H::F as Fs>::File,
        IoError,
    >)
        ensures
            final(self).changes() == old(self).changes().push(Change::Opened { path: path@, mode }),
            r matches Err(e) ==> <H::F as Fs>::File::gave(e@) && H::F::answered(
                path@,
                mode,
                Err(e@),
            ),
            r is Ok ==> H::F::answered(path@, mode, Ok(r->Ok_0.contents())),
            r is Ok ==> r->Ok_0.place() == path@ && r->Ok_0.mode() == mode
                && r->Ok_0.syncs().len() == 0,
            mode == OpenMode::Truncate && r is Ok ==> r->Ok_0.contents() == Seq::<u8>::empty(),
    {
        proof {
            use_type_invariant(&*self);
        }
        let r = self.holder.lend().open(path, mode);
        proof {
            let answer: core::result::Result<Seq<u8>, IoErrorView> = if r is Ok {
                Ok(r->Ok_0.contents())
            } else {
                Err(r->Err_0@)
            };
            opening_happened::<H::F>(path@, mode, answer);
        }
        self.done = Ghost(self.done@.push(Change::Opened { path: path@, mode }));
        r
    }

    /// Put a file down that was written.
    pub fn close(&mut self, file: <H::F as Fs>::File)
        ensures
            final(self).changes() == old(self).changes().push(
                Change::Closed { path: file.place(), bytes: file.contents() },
            ),
    {
        proof {
            use_type_invariant(&*self);
        }
        self.done = Ghost(
            self.done@.push(Change::Closed { path: file.place(), bytes: file.contents() }),
        );
    }

    /// Rename a file.
    pub fn rename(&mut self, from: &str, to: &str) -> (r: core::result::Result<(), IoError>)
        ensures
            final(self).changes() == old(self).changes().push(
                Change::Renamed { from: from@, to: to@, ok: r is Ok },
            ),
            r is Ok ==> H::F::renamed(from@, to@),
            r matches Err(e) ==> <H::F as Fs>::File::gave(e@),
    {
        proof {
            use_type_invariant(&*self);
        }
        let r = self.holder.lend().rename(from, to);
        self.done = Ghost(
            self.done@.push(Change::Renamed { from: from@, to: to@, ok: r is Ok }),
        );
        r
    }

    /// Make `link` another name for the file at `original`.
    pub fn hard_link(&mut self, original: &str, link: &str) -> (r: core::result::Result<
        (),
        IoError,
    >)
        ensures
            final(self).changes() == old(self).changes().push(
                Change::Linked { original: original@, link: link@, ok: r is Ok },
            ),
            r is Ok ==> H::F::linked(original@, link@),
            r matches Err(e) ==> <H::F as Fs>::File::gave(e@),
    {
        proof {
            use_type_invariant(&*self);
        }
        let r = self.holder.lend().hard_link(original, link);
        self.done = Ghost(
            self.done@.push(
                Change::Linked { original: original@, link: link@, ok: r is Ok },
            ),
        );
        r
    }

    /// Remove a file.
    pub fn remove(&mut self, path: &str) -> (r: core::result::Result<(), IoError>)
        ensures
            final(self).changes() == old(self).changes().push(
                Change::Removed { path: path@, ok: r is Ok },
            ),
            match r {
                Ok(()) => H::F::removed(path@, Ok(())),
                Err(e) => H::F::removed(path@, Err(e@)) && <H::F as Fs>::File::gave(e@),
            },
    {
        proof {
            use_type_invariant(&*self);
        }
        let r = self.holder.lend().remove(path);
        proof {
            let answer: core::result::Result<(), IoErrorView> = if r is Ok {
                Ok(())
            } else {
                Err(r->Err_0@)
            };
            removal_happened::<H::F>(path@, answer);
        }
        self.done = Ghost(self.done@.push(Change::Removed { path: path@, ok: r is Ok }));
        r
    }

    /// Create a directory and those above it.
    pub fn create_dir_all(&self, dir: &str) -> (r: core::result::Result<(), IoError>)
        ensures
            r matches Err(e) ==> <H::F as Fs>::File::gave(e@),
    {
        self.holder.lend().create_dir_all(dir)
    }

    /// Every entry of `dir`, as full paths, in any order.
    pub fn list(&self, dir: &str) -> (r: core::result::Result<Vec<String>, IoError>)
        ensures
            r matches Ok(paths) ==> H::F::listed(dir@, fs::path_views(paths@)),
            r matches Err(e) ==> <H::F as Fs>::File::gave(e@),
    {
        self.holder.lend().list(dir)
    }

    /// The size of a file.
    pub fn size(&self, path: &str) -> (r: core::result::Result<u64, IoError>)
        ensures
            match r {
                Ok(n) => H::F::sized(path@, Ok(n)),
                Err(e) => H::F::sized(path@, Err(e@)) && <H::F as Fs>::File::gave(e@),
            },
    {
        self.holder.lend().size(path)
    }

    /// Make creates and renames in a directory durable.
    pub fn sync_dir(&self, dir: &str) -> (r: core::result::Result<(), IoError>)
        ensures
            r is Ok ==> H::F::dir_synced(dir@),
            r matches Err(e) ==> <H::F as Fs>::File::gave(e@),
    {
        self.holder.lend().sync_dir(dir)
    }

    /// Whether there is a file at `path`.
    pub fn is_present(&self, path: &str) -> (r: bool)
        ensures
            exists|answer: core::result::Result<u64, IoErrorView>| #[trigger]
                H::F::sized(path@, answer) && r == (answer is Ok),
    {
        self.holder.lend().is_present(path)
    }
}

} // verus!
