//! What can go wrong.

use vstd::prelude::*;

use crate::text;

verus! {

/// The kinds of filesystem failure that the engine tells apart.
#[derive(Debug, Clone, Copy, PartialEq, Eq, Structural)]
pub enum IoErrorKind {
    /// There is nothing at that path.
    NotFound,
    /// There is something at that path already.
    AlreadyExists,
    /// A lock is held elsewhere.
    WouldBlock,
    /// The operation was cut short and may be tried again.
    Interrupted,
    /// The file ended before the bytes that were asked for.
    UnexpectedEof,
    /// The file does not fit in memory.
    OutOfMemory,
    /// Anything else.
    Other,
}

/// A failure that the filesystem reported.
#[derive(Debug)]
pub struct IoError {
    pub kind: IoErrorKind,
    pub message: String,
}

/// The content of an [`IoError`].
pub struct IoErrorView {
    pub kind: IoErrorKind,
    pub message: Seq<char>,
}

impl View for IoError {
    type V = IoErrorView;

    open spec fn view(&self) -> IoErrorView {
        IoErrorView { kind: self.kind, message: self.message@ }
    }
}

impl IoError {
    /// A failure of this kind, with a message.
    pub fn new(kind: IoErrorKind, message: &str) -> (r: IoError)
        ensures
            r@ == (IoErrorView { kind, message: message@ }),
    {
        IoError { kind, message: text::copy_text(message) }
    }

    /// What kind of failure it is.
    pub fn kind(&self) -> (r: IoErrorKind)
        ensures
            r == self@.kind,
    {
        self.kind
    }
}

/// A failure of the engine.
#[derive(Debug)]
pub enum Error {
    /// The filesystem failed.
    Io(IoError),
    /// Stored bytes are not what the engine wrote.
    Corrupt(String),
    /// A file is in a format that this build does not understand.
    BadFormat(String),
    /// The directory, which is named, is open through another handle.
    Locked(String),
    /// A flush or a compaction failed earlier. The engine does not recover
    /// while it runs: a failed flush leaves the frozen MemTable stranded and
    /// the log as it was, so that every later write would build on a state
    /// that does not survive a restart. Opening the directory again recovers.
    Poisoned(String),
}

/// The content of an [`Error`].
pub enum ErrorView {
    Io(IoErrorView),
    Corrupt(Seq<char>),
    BadFormat(Seq<char>),
    Locked(Seq<char>),
    Poisoned(Seq<char>),
}

impl View for Error {
    type V = ErrorView;

    open spec fn view(&self) -> ErrorView {
        match self {
            Error::Io(e) => ErrorView::Io(e@),
            Error::Corrupt(m) => ErrorView::Corrupt(m@),
            Error::BadFormat(m) => ErrorView::BadFormat(m@),
            Error::Locked(m) => ErrorView::Locked(m@),
            Error::Poisoned(m) => ErrorView::Poisoned(m@),
        }
    }
}

impl ErrorView {
    /// The sentence that a failure is reported with.
    pub open spec fn text(self) -> Seq<char> {
        match self {
            ErrorView::Io(e) => "io error: "@ + e.message,
            ErrorView::Corrupt(m) => "corrupt data: "@ + m,
            ErrorView::BadFormat(m) => "unsupported sstable format: "@ + m,
            ErrorView::Locked(m) => "database directory is already open by another handle: "@ + m,
            ErrorView::Poisoned(m) => "engine poisoned by an earlier failure: "@ + m,
        }
    }
}

impl Error {
    /// The sentence to report this failure with.
    pub fn message(&self) -> (r: String)
        ensures
            r@ == self@.text(),
    {
        match self {
            Error::Io(e) => text::joined("io error: ", e.message.as_str()),
            Error::Corrupt(m) => text::joined("corrupt data: ", m.as_str()),
            Error::BadFormat(m) => text::joined("unsupported sstable format: ", m.as_str()),
            Error::Locked(m) => text::joined(
                "database directory is already open by another handle: ",
                m.as_str(),
            ),
            Error::Poisoned(m) => text::joined(
                "engine poisoned by an earlier failure: ",
                m.as_str(),
            ),
        }
    }

    /// Stored bytes are not what the engine wrote, for this reason.
    pub fn corrupt(message: &str) -> (r: Error)
        ensures
            r@ == ErrorView::Corrupt(message@),
    {
        Error::Corrupt(text::copy_text(message))
    }

    /// A file's format is not understood, for this reason.
    pub fn bad_format(message: &str) -> (r: Error)
        ensures
            r@ == ErrorView::BadFormat(message@),
    {
        Error::BadFormat(text::copy_text(message))
    }
}

/// What an operation of the engine gives back.
pub type Result<T> = core::result::Result<T, Error>;

/// What a failure is reported with: what kind of failure it is, and the reason as it was
/// given, whole.
pub proof fn reasons_are_reported(reason: Seq<char>, e: IoErrorView)
    ensures
        ErrorView::Corrupt(reason).text() == "corrupt data: "@ + reason,
        ErrorView::BadFormat(reason).text() == "unsupported sstable format: "@ + reason,
        ErrorView::Locked(reason).text()
            == "database directory is already open by another handle: "@ + reason,
        ErrorView::Poisoned(reason).text() == "engine poisoned by an earlier failure: "@ + reason,
        ErrorView::Io(e).text() == "io error: "@ + e.message,
{
}

} // verus!
