//! What is reported when something fails.

use crate::path;
use crate::path::PathBuf;
use vstd::prelude::*;

verus! {

pub const ENOENT: i32 = 2;

pub const ENOTDIR: i32 = 20;

#[derive(Clone, Debug, PartialEq, Eq)]
pub enum ErrorKind {
    /// In words.
    Generic(String),
    /// A call of the operating system failed with this error number.
    Io(i32),
    PathNotFound,
    WatchNotFound,
    /// The system allows no more watches.
    MaxFilesWatch,
}

/// An error, with its paths as sequences of components.
#[verifier::ext_equal]
pub struct ErrorView {
    pub kind: ErrorKind,
    pub paths: Seq<Seq<Seq<u8>>>,
}

impl ErrorView {
    pub open spec fn new(kind: ErrorKind) -> ErrorView {
        ErrorView { kind, paths: Seq::empty() }
    }

    pub open spec fn at(kind: ErrorKind, path: Seq<Seq<u8>>) -> ErrorView {
        ErrorView { kind, paths: seq![path] }
    }

    pub open spec fn with_path(self, path: Seq<Seq<u8>>) -> ErrorView {
        ErrorView { paths: self.paths.push(path), ..self }
    }
}

#[derive(Debug, PartialEq, Eq)]
pub struct Error {
    pub kind: ErrorKind,
    pub paths: Vec<PathBuf>,
}

impl View for Error {
    type V = ErrorView;

    open spec fn view(&self) -> ErrorView {
        ErrorView { kind: self.kind, paths: path::views(self.paths@) }
    }
}

impl Error {
    pub fn new(kind: ErrorKind) -> (error: Error)
        ensures
            error@ == ErrorView::new(kind),
    {
        let error = Error { kind, paths: Vec::new() };
        assert(error@.paths =~= Seq::empty());
        error
    }

    pub fn add_path(self, path: PathBuf) -> (error: Error)
        ensures
            error@ == self@.with_path(path@),
    {
        proof {
            path::lemma_views_push(self.paths@, path);
        }
        let mut error = self;
        error.paths.push(path);
        error
    }

    /// The error `kind` at `path`.
    pub fn at(kind: ErrorKind, path: PathBuf) -> (error: Error)
        ensures
            error@ == ErrorView::at(kind, path@),
    {
        let mut paths: Vec<PathBuf> = Vec::new();
        paths.push(path);
        let error = Error { kind, paths };
        assert(error@.paths =~= seq![path@]);
        error
    }
}

/// Whether the error number says that nothing is at the path (yet).
pub open spec fn absent(errno: i32) -> bool {
    errno == ENOENT || errno == ENOTDIR
}

/// What is reported when a path cannot be looked at to watch it.
pub open spec fn watch_kind(errno: i32) -> ErrorKind {
    if errno == ENOENT {
        ErrorKind::PathNotFound
    } else {
        ErrorKind::Io(errno)
    }
}

pub fn is_absent(errno: i32) -> (r: bool)
    ensures
        r == absent(errno),
{
    errno == ENOENT || errno == ENOTDIR
}

pub fn watch_error(errno: i32) -> (kind: ErrorKind)
    ensures
        kind == watch_kind(errno),
{
    if errno == ENOENT {
        ErrorKind::PathNotFound
    } else {
        ErrorKind::Io(errno)
    }
}

/// Nothing is there where there is no such entry or no such directory. That a path cannot be looked
/// at to watch it is reported as a path that was not found where there is no such entry, and as the
/// error of the system otherwise.
pub proof fn error_numbers_are_told(errno: i32, p: Seq<Seq<u8>>, q: Seq<Seq<u8>>, kind: ErrorKind)
    ensures
        absent(errno) <==> errno == 2 || errno == 20,
        errno == 2 ==> watch_kind(errno) == ErrorKind::PathNotFound,
        errno != 2 ==> watch_kind(errno) == ErrorKind::Io(errno),
        ErrorView::new(kind) == (ErrorView { kind, paths: seq![] }),
        ErrorView::at(kind, p) == (ErrorView { kind, paths: seq![p] }),
        ErrorView::at(kind, p).with_path(q) == (ErrorView { kind, paths: seq![p, q] }),
{
    assert(Seq::<Seq<Seq<u8>>>::empty() =~= seq![]);
    assert(seq![p].push(q) =~= seq![p, q]);
}

} // verus!
