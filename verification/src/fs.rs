//! The seam between the engine and the filesystem.
//!
//! The engine reads and writes through two traits, so that a real disk, a disk
//! that fails on request and a disk in memory are all the same to it. Paths
//! are text, with `/` between their parts.
//!
//! There is no cursor on a [`File`]: every read says where, and the one writer
//! appends.

use vstd::prelude::*;

use crate::bytes;
use crate::error::{ErrorView, IoError, IoErrorKind, IoErrorView};

verus! {

/// How durable a sync has to be.
#[derive(Debug, Clone, Copy, PartialEq, Eq, Structural)]
pub enum SyncMode {
    /// Survives power loss: the only mode under which a durability claim may
    /// be made.
    Durable,
    /// Ordering, but not survival of power loss.
    Barrier,
    /// No sync at all.
    Unsynced,
}

impl Default for SyncMode {
    fn default() -> (r: SyncMode)
        ensures
            r == SyncMode::Durable,
    {
        SyncMode::Durable
    }
}

impl SyncMode {
    /// Whether a durability claim may be made under this mode.
    pub fn is_durable(self) -> (r: bool)
        ensures
            r == (self == SyncMode::Durable),
    {
        self == SyncMode::Durable
    }
}

/// What a file is opened for.
#[derive(Debug, Clone, Copy, PartialEq, Eq, Structural)]
pub enum OpenMode {
    /// Read only. Fails if there is no file.
    Read,
    /// Append to what is there; create the file if there is none.
    Append,
    /// Write from the start: what was there is gone.
    Truncate,
    /// Take an exclusive lock without waiting, and create the file if there is
    /// none. Fails with [`IoErrorKind::WouldBlock`] if the lock is held
    /// elsewhere.
    Lock,
}

/// The filesystem operations that the engine needs.
///
/// Any of them may fail at any time, so no contract here promises success. The
/// specification functions say what has happened at some time; an implementation
/// that is not verified need not say more of them.
pub trait Fs: Sized {
    type File: File;

    /// Whether a listing of this directory once gave these paths.
    open spec fn listed(dir: Seq<char>, paths: Seq<Seq<char>>) -> bool {
        arbitrary()
    }

    /// Whether a file was once renamed like this.
    open spec fn renamed(from: Seq<char>, to: Seq<char>) -> bool {
        arbitrary()
    }

    /// Whether this was once the answer to a call to open this path like this:
    /// the bytes in the file, or why it was not opened.
    open spec fn answered(
        path: Seq<char>,
        mode: OpenMode,
        answer: core::result::Result<Seq<u8>, IoErrorView>,
    ) -> bool {
        arbitrary()
    }

    /// Whether a file was once linked like this.
    open spec fn linked(original: Seq<char>, link: Seq<char>) -> bool {
        arbitrary()
    }

    /// Whether this was once the answer to a call to remove the file at this
    /// path.
    open spec fn removed(path: Seq<char>, answer: core::result::Result<(), IoErrorView>) -> bool {
        arbitrary()
    }

    /// Whether this was once the answer to what the size of the file at this
    /// path is.
    open spec fn sized(path: Seq<char>, answer: core::result::Result<u64, IoErrorView>) -> bool {
        arbitrary()
    }

    /// Whether the names in this directory were once made durable.
    open spec fn dir_synced(dir: Seq<char>) -> bool {
        arbitrary()
    }

    fn create_dir_all(&self, dir: &str) -> (r: core::result::Result<(), IoError>)
        ensures
            r matches Err(e) ==> Self::File::gave(e@),
    ;

    /// Every entry of `dir`, as full paths, in any order.
    fn list(&self, dir: &str) -> (r: core::result::Result<Vec<String>, IoError>)
        ensures
            r matches Ok(paths) ==> Self::listed(dir@, path_views(paths@)),
            r matches Err(e) ==> Self::File::gave(e@),
    ;

    /// Open a file. One that was opened to be written from the start is empty.
    fn open(&self, path: &str, mode: OpenMode) -> (r: core::result::Result<Self::File, IoError>)
        ensures
            r matches Err(e) ==> Self::File::gave(e@) && Self::answered(path@, mode, Err(e@)),
            r is Ok ==> Self::answered(path@, mode, Ok(r->Ok_0.contents())),
            r is Ok ==> r->Ok_0.place() == path@ && r->Ok_0.mode() == mode
                && r->Ok_0.syncs().len() == 0,
            mode == OpenMode::Truncate && r is Ok ==> r->Ok_0.contents() == Seq::<u8>::empty(),
    ;

    fn rename(&self, from: &str, to: &str) -> (r: core::result::Result<(), IoError>)
        ensures
            r is Ok ==> Self::renamed(from@, to@),
            r matches Err(e) ==> Self::File::gave(e@),
    ;

    /// Make `link` another name for the file at `original`: the bytes live as
    /// long as one of the names does. Fails if `link` exists.
    fn hard_link(&self, original: &str, link: &str) -> (r: core::result::Result<(), IoError>)
        ensures
            r is Ok ==> Self::linked(original@, link@),
            r matches Err(e) ==> Self::File::gave(e@),
    ;

    fn remove(&self, path: &str) -> (r: core::result::Result<(), IoError>)
        ensures
            match r {
                Ok(()) => Self::removed(path@, Ok(())),
                Err(e) => Self::removed(path@, Err(e@)) && Self::File::gave(e@),
            },
    ;

    fn size(&self, path: &str) -> (r: core::result::Result<u64, IoError>)
        ensures
            match r {
                Ok(n) => Self::sized(path@, Ok(n)),
                Err(e) => Self::sized(path@, Err(e@)) && Self::File::gave(e@),
            },
    ;

    /// Make creates and renames in a directory durable.
    fn sync_dir(&self, dir: &str) -> (r: core::result::Result<(), IoError>)
        ensures
            r is Ok ==> Self::dir_synced(dir@),
            r matches Err(e) ==> Self::File::gave(e@),
    ;

    /// Whether there is a file at `path`: whether it has a size.
    fn is_present(&self, path: &str) -> (r: bool)
        ensures
            exists|answer: core::result::Result<u64, IoErrorView>| #[trigger]
                Self::sized(path@, answer) && r == (answer is Ok),
    {
        self.size(path).is_ok()
    }
}

/// Paths as text.
pub open spec fn path_views(paths: Seq<String>) -> Seq<Seq<char>> {
    paths.map_values(|p: String| p@)
}

/// The failure to read from a file that interrupts every read.
pub open spec fn gave_up() -> IoErrorView {
    IoErrorView { kind: IoErrorKind::Other, message: "reads were interrupted without end"@ }
}

/// Whether an error is a failure that the filesystem answered with, handed on as
/// it was, or that it interrupted one read after the other.
pub open spec fn handed_on<W: File>(e: ErrorView) -> bool {
    e matches ErrorView::Io(x) && (W::gave(x) || (x == gave_up() && exists|y: IoErrorView|
     #[trigger]
        W::gave(y) && y.kind == IoErrorKind::Interrupted))
}

/// The failure to read a file that is larger than memory can be.
pub open spec fn too_large() -> IoErrorView {
    IoErrorView { kind: IoErrorKind::OutOfMemory, message: "file does not fit in memory"@ }
}

/// The failure to read bytes behind the end of a file.
pub open spec fn ended() -> IoErrorView {
    IoErrorView {
        kind: IoErrorKind::UnexpectedEof,
        message: "file ended before the requested bytes"@,
    }
}

/// Whether an error is one that reading a file of this length can end in: the
/// filesystem's, or that the file is larger than memory can be.
pub open spec fn unread<W: File>(len: nat, e: ErrorView) -> bool {
    handed_on::<W>(e) || (len > usize::MAX && e == ErrorView::Io(too_large()))
}

/// One open file, addressed by offset. Nobody else writes to it while it is
/// open for writing here, and nobody at all while it is open for reading.
pub trait File: Sized {
    /// The bytes in the file. The contracts below say how the operations go
    /// with them. An implementation that is not verified need not say more.
    open spec fn contents(&self) -> Seq<u8> {
        arbitrary()
    }

    /// The path that the file was opened at.
    open spec fn place(&self) -> Seq<char> {
        arbitrary()
    }

    /// What the file was opened for.
    open spec fn mode(&self) -> OpenMode {
        arbitrary()
    }

    /// The syncs that were asked for since the file was opened, in order, whether
    /// they succeeded or not: each with what the file held then.
    open spec fn syncs(&self) -> Seq<(SyncMode, Seq<u8>)> {
        arbitrary()
    }

    /// Whether a file that was opened at this path was once made durable while
    /// it held these bytes.
    open spec fn synced(place: Seq<char>, bytes: Seq<u8>) -> bool {
        arbitrary()
    }

    /// Whether the filesystem once answered a call with this failure.
    open spec fn gave(e: IoErrorView) -> bool {
        arbitrary()
    }

    /// Read into the front of `buf` what stands at `off`, and return how many
    /// bytes that were. Into a buffer with room, no bytes are read only at the
    /// end of the file.
    fn read_at(&self, off: u64, buf: &mut [u8]) -> (r: core::result::Result<usize, IoError>)
        ensures
            final(buf)@.len() == old(buf)@.len(),
            r matches Err(e) ==> Self::gave(e@),
            r matches Ok(n) ==> {
                &&& n <= old(buf)@.len()
                &&& n > 0 ==> off + n <= self.contents().len() && final(buf)@.take(n as int)
                    == self.contents().subrange(off as int, off + n)
                &&& n == 0 && old(buf)@.len() > 0 ==> off >= self.contents().len()
            },
    ;

    /// Append to the end of the file. A failure leaves what was there, and may
    /// leave something behind it.
    fn append(&mut self, buf: &[u8]) -> (r: core::result::Result<(), IoError>)
        ensures
            final(self).place() == old(self).place(),
            final(self).mode() == old(self).mode(),
            final(self).syncs() == old(self).syncs(),
            r is Ok ==> final(self).contents() == old(self).contents() + buf@,
            r is Err ==> old(self).contents().is_prefix_of(final(self).contents()),
            r matches Err(e) ==> Self::gave(e@),
    ;

    /// Make everything written so far as durable as the platform can.
    fn sync(&mut self) -> (r: core::result::Result<(), IoError>)
        ensures
            final(self).place() == old(self).place(),
            final(self).mode() == old(self).mode(),
            final(self).syncs() == old(self).syncs().push(
                (SyncMode::Durable, old(self).contents()),
            ),
            final(self).contents() == old(self).contents(),
            r is Ok ==> Self::synced(old(self).place(), old(self).contents()),
            r matches Err(e) ==> Self::gave(e@),
    {
        self.sync_as(SyncMode::Durable)
    }

    /// Make everything written so far durable to the degree that `mode` says.
    fn sync_as(&mut self, mode: SyncMode) -> (r: core::result::Result<(), IoError>)
        ensures
            final(self).place() == old(self).place(),
            final(self).mode() == old(self).mode(),
            final(self).syncs() == old(self).syncs().push((mode, old(self).contents())),
            final(self).contents() == old(self).contents(),
            r is Ok && mode == SyncMode::Durable ==> Self::synced(
                old(self).place(),
                old(self).contents(),
            ),
            r matches Err(e) ==> Self::gave(e@),
    ;

    fn size(&self) -> (r: core::result::Result<u64, IoError>)
        ensures
            r matches Ok(n) ==> n == self.contents().len(),
            r matches Err(e) ==> Self::gave(e@),
    ;

    /// Cut the file off at `len`, or fill it up to `len` with zeros. A failure
    /// leaves what stands before `len`.
    fn set_len(&mut self, len: u64) -> (r: core::result::Result<(), IoError>)
        ensures
            final(self).place() == old(self).place(),
            final(self).mode() == old(self).mode(),
            final(self).syncs() == old(self).syncs(),
            r is Ok ==> {
                &&& final(self).contents().len() == len
                &&& forall|i: int|
                    0 <= i < len ==> #[trigger] final(self).contents()[i] == if i
                        < old(self).contents().len() {
                        old(self).contents()[i]
                    } else {
                        0u8
                    }
            },
            r is Err && len <= old(self).contents().len() ==> old(self).contents().take(
                len as int,
            ).is_prefix_of(final(self).contents()),
            r matches Err(e) ==> Self::gave(e@),
    ;

    /// Fill `buf` with the bytes at `off`, or fail.
    ///
    /// A read that comes back short before the end of the file is not an error
    /// and goes on; a read that gives nothing is one. An interrupted read is
    /// tried again: nobody sees that it was interrupted. A file that interrupts
    /// `u64::MAX` reads in a row is given up.
    fn read_exact_at(&self, off: u64, buf: &mut [u8]) -> (r: core::result::Result<(), IoError>)
        ensures
            final(buf)@.len() == old(buf)@.len(),
            r is Ok && old(buf)@.len() > 0 ==> off + old(buf)@.len() <= self.contents().len()
                && final(buf)@ == self.contents().subrange(off as int, off + old(buf)@.len()),
            off + old(buf)@.len() > self.contents().len() && old(buf)@.len() > 0 ==> r is Err,
            old(buf)@.len() == 0 ==> r is Ok,
            r matches Err(e) ==> e@.kind != IoErrorKind::Interrupted,
            r matches Err(e) ==> {
                ||| Self::gave(e@)
                ||| e@ == ended() && (off + old(buf)@.len() > self.contents().len() || off
                    + old(buf)@.len() > u64::MAX)
                ||| e@ == gave_up() && exists|x: IoErrorView| #[trigger]
                    Self::gave(x) && x.kind == IoErrorKind::Interrupted
            },
    {
        let total: usize = buf.len();
        let mut done: usize = 0;
        let mut patience: u64 = u64::MAX;
        while done < total
            invariant
                done <= total == buf@.len(),
                total == old(buf)@.len(),
                done > 0 ==> off + done <= self.contents().len(),
                done > 0 ==> buf@.take(done as int) == self.contents().subrange(
                    off as int,
                    off + done,
                ),
            decreases total - done, patience,
        {
            if off > u64::MAX - done as u64 {
                return Err(
                    IoError::new(
                        IoErrorKind::UnexpectedEof,
                        "file ended before the requested bytes",
                    ),
                );
            }
            let at: u64 = off + done as u64;
            let ghost before = buf@;
            let (head, tail) = buf.split_at_mut(done);
            let outcome = self.read_at(at, tail);
            proof {
                assert(buf@.take(done as int) =~= before.take(done as int));
            }
            match outcome {
                Ok(n) => {
                    if n == 0 {
                        return Err(
                            IoError::new(
                                IoErrorKind::UnexpectedEof,
                                "file ended before the requested bytes",
                            ),
                        );
                    }
                    proof {
                        let c = self.contents();
                        assert(buf@.skip(done as int).take(n as int) =~= c.subrange(
                            at as int,
                            at + n,
                        ));
                        let got = buf@.take(done + n);
                        let want = c.subrange(off as int, off + done + n);
                        assert forall|i: int| 0 <= i < done + n implies got[i] == want[i] by {
                            if i < done {
                                assert(buf@.take(done as int)[i] == c.subrange(
                                    off as int,
                                    off + done,
                                )[i]);
                            } else {
                                assert(buf@.skip(done as int).take(n as int)[i - done]
                                    == c.subrange(at as int, at + n)[i - done]);
                            }
                        }
                        assert(got =~= want);
                    }
                    done = done + n;
                },
                Err(e) => {
                    if e.kind() != IoErrorKind::Interrupted {
                        return Err(e);
                    }
                    if patience == 0 {
                        return Err(
                            IoError::new(IoErrorKind::Other, "reads were interrupted without end"),
                        );
                    }
                    patience = patience - 1;
                },
            }
        }
        proof {
            assert(buf@.take(total as int) =~= buf@);
        }
        Ok(())
    }

    /// The whole file.
    fn read_all(&self) -> (r: core::result::Result<Vec<u8>, IoError>)
        ensures
            r matches Ok(v) ==> v@ == self.contents(),
            r matches Err(e) ==> {
                ||| Self::gave(e@)
                ||| self.contents().len() > usize::MAX && e@ == too_large()
                ||| e@ == gave_up() && exists|x: IoErrorView| #[trigger]
                    Self::gave(x) && x.kind == IoErrorKind::Interrupted
            },
    {
        let len: u64 = self.size()?;
        if len > usize::MAX as u64 {
            return Err(IoError::new(IoErrorKind::OutOfMemory, "file does not fit in memory"));
        }
        let mut buf: Vec<u8> = vec![0u8; len as usize];
        self.read_exact_at(0, buf.as_mut_slice())?;
        assert(buf@ =~= self.contents());
        Ok(buf)
    }
}

/// The first bytes of a file: eight of them, or all if there are fewer.
pub fn read_front<F: File>(file: &F) -> (r: core::result::Result<Vec<u8>, IoError>)
    ensures
        r matches Ok(v) ==> v@ == file.contents().take(
            if file.contents().len() < 8 {
                file.contents().len() as int
            } else {
                8
            },
        ),
        r matches Err(e) ==> handed_on::<F>(ErrorView::Io(e@)),
{
    let size: u64 = file.size()?;
    let n: usize = if size < 8 {
        size as usize
    } else {
        8
    };
    let mut front: Vec<u8> = vec![0u8; n];
    file.read_exact_at(0, front.as_mut_slice())?;
    assert(front@ =~= file.contents().take(n as int));
    Ok(front)
}

/// Sixty-four kilobytes: one call to the filesystem per hundreds of records,
/// and no more memory than that on top of what is being written.
pub const APPEND_BUFFER_BYTES: usize = 65536;

/// Appends to a file through a buffer, and says when the buffer is emptied.
pub struct BufAppend<F: File> {
    file: F,
    buf: Vec<u8>,
    cap: usize,
    write_failed: bool,
}

impl<F: File> BufAppend<F> {
    /// The file behind the buffer.
    pub closed spec fn file(&self) -> F {
        self.file
    }

    /// The bytes that have not been handed to the file.
    pub closed spec fn buffered(&self) -> Seq<u8> {
        self.buf@
    }

    /// How many bytes the buffer takes before it is emptied.
    pub closed spec fn capacity(&self) -> nat {
        self.cap as nat
    }

    /// Whether the filesystem has refused bytes or a sync.
    pub closed spec fn failed(&self) -> bool {
        self.write_failed
    }

    /// What the file holds once the buffer is emptied.
    pub open spec fn written(&self) -> Seq<u8> {
        self.file().contents() + self.buffered()
    }

    /// Append to `file` through a buffer of the usual size.
    pub fn new(file: F) -> (r: Self)
        ensures
            r.file() == file,
            r.buffered() == Seq::<u8>::empty(),
            r.capacity() == APPEND_BUFFER_BYTES,
            !r.failed(),
    {
        Self::with_capacity(file, APPEND_BUFFER_BYTES)
    }

    /// Append to `file` through a buffer of `cap` bytes, and of one at least.
    pub fn with_capacity(file: F, cap: usize) -> (r: Self)
        requires
            cap <= isize::MAX,
        ensures
            r.file() == file,
            r.buffered() == Seq::<u8>::empty(),
            r.capacity() == if cap == 0 {
                1
            } else {
                cap as nat
            },
            !r.failed(),
    {
        BufAppend {
            file,
            buf: Vec::with_capacity(cap),
            cap: if cap == 0 {
                1
            } else {
                cap
            },
            write_failed: false,
        }
    }

    /// Append `bytes`. The buffer is emptied when it holds its capacity.
    pub fn write(&mut self, bytes: &[u8]) -> (r: core::result::Result<(), IoError>)
        ensures
            final(self).capacity() == old(self).capacity(),
            final(self).file().place() == old(self).file().place(),
            r is Ok ==> final(self).written() == old(self).written() + bytes@,
            r is Ok ==> final(self).failed() == old(self).failed(),
            old(self).buffered().len() + bytes@.len() < old(self).capacity() ==> r is Ok
                && final(self).file() == old(self).file() && final(self).buffered() == old(
                self,
            ).buffered() + bytes@,
            old(self).buffered().len() + bytes@.len() >= old(self).capacity() && r is Ok
                && old(self).capacity() > 0 ==> final(self).buffered() == Seq::<u8>::empty(),
            r is Err ==> final(self).failed() && final(self).buffered() == old(self).buffered()
                + bytes@,
            final(self).file().syncs() == old(self).file().syncs(),
            r matches Err(e) ==> F::gave(e@),
            old(self).file().contents().is_prefix_of(final(self).file().contents()),
    {
        let ghost start = self.written();
        bytes::append(&mut self.buf, bytes);
        assert(self.written() =~= start + bytes@);
        if self.buf.len() >= self.cap {
            self.flush()?;
        }
        Ok(())
    }

    /// Hand everything buffered to the file. This makes nothing durable: there is
    /// no sync.
    pub fn flush(&mut self) -> (r: core::result::Result<(), IoError>)
        ensures
            final(self).capacity() == old(self).capacity(),
            final(self).file().place() == old(self).file().place(),
            r is Ok ==> final(self).file().contents() == old(self).written()
                && final(self).buffered() == Seq::<u8>::empty() && final(self).failed() == old(
                self,
            ).failed(),
            old(self).buffered().len() == 0 ==> r is Ok && *final(self) == *old(self),
            r is Err ==> final(self).failed() && final(self).buffered() == old(self).buffered(),
            final(self).file().syncs() == old(self).file().syncs(),
            r matches Err(e) ==> F::gave(e@),
            old(self).file().contents().is_prefix_of(final(self).file().contents()),
    {
        if self.buf.len() != 0 {
            match self.file.append(self.buf.as_slice()) {
                Err(e) => {
                    self.write_failed = true;
                    return Err(e);
                },
                Ok(()) => {},
            }
            self.buf.clear();
        } else {
            assert(self.written() =~= self.file().contents());
        }
        assert(self.buf@ =~= Seq::<u8>::empty());
        Ok(())
    }

    /// Hand everything buffered to the file, and make the file durable, with one
    /// sync. Where the file does not take the bytes, they stay buffered and there
    /// is no sync.
    pub fn sync(&mut self) -> (r: core::result::Result<(), IoError>)
        ensures
            final(self).capacity() == old(self).capacity(),
            final(self).file().place() == old(self).file().place(),
            r is Ok ==> final(self).file().contents() == old(self).written()
                && final(self).buffered() == Seq::<u8>::empty() && final(self).failed() == old(
                self,
            ).failed(),
            r is Ok ==> F::synced(old(self).file().place(), old(self).written()),
            r is Ok ==> final(self).file().syncs() == old(self).file().syncs().push(
                (SyncMode::Durable, old(self).written()),
            ),
            r is Err ==> final(self).failed() && {
                ||| old(self).buffered().len() > 0 && final(self).buffered() == old(
                    self,
                ).buffered() && final(self).file().syncs() == old(self).file().syncs()
                ||| final(self).buffered() == Seq::<u8>::empty() && final(self).file().contents()
                    == old(self).written() && final(self).file().syncs() == old(
                    self,
                ).file().syncs().push((SyncMode::Durable, old(self).written()))
            },
            r matches Err(e) ==> F::gave(e@),
            old(self).file().contents().is_prefix_of(final(self).file().contents()),
    {
        self.flush()?;
        match self.file.sync() {
            Ok(()) => Ok(()),
            Err(e) => {
                self.write_failed = true;
                Err(e)
            },
        }
    }

    /// Forget what is buffered.
    pub fn discard(&mut self)
        ensures
            final(self).file() == old(self).file(),
            final(self).buffered() == Seq::<u8>::empty(),
            final(self).capacity() == old(self).capacity(),
            final(self).failed() == old(self).failed(),
    {
        self.buf.clear();
        assert(self.buf@ =~= Seq::<u8>::empty());
    }

    /// The file behind the buffer, in exchange for the buffer.
    pub fn into_file(self) -> (r: F)
        ensures
            r == self.file(),
    {
        self.file
    }

    /// The file behind the buffer.
    pub fn get_mut(&mut self) -> (r: &mut F)
        ensures
            *r == old(self).file(),
            final(self).file() == *final(r),
            final(self).buffered() == old(self).buffered(),
            final(self).capacity() == old(self).capacity(),
            final(self).failed() == old(self).failed(),
    {
        &mut self.file
    }
}

} // verus!
