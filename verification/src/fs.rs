//! What the hosting logic asks of a file system, and the answers it gets.
//!
//! The library performs no I/O. Each operation is a task that names one request
//! at a time; the host carries it out and hands the reply back.

use vstd::prelude::*;

use crate::error::IoFailure;
use crate::error::IoFailureView;

verus! {

/// What a path names, without following a symbolic link at its end.
#[derive(Clone, Copy, Debug, PartialEq, Eq, Structural)]
pub enum FileKind {
    Regular,
    Directory,
    Symlink,
    Other,
}

/// What the file system knows about a path, without following a symbolic link
/// at its end.
#[derive(Clone, Copy, Debug, PartialEq, Eq)]
pub struct FileStat {
    /// What the path names.
    pub kind: FileKind,
    /// Size in bytes.
    pub len: u64,
    /// Last-modified time as Unix milliseconds, when available.
    pub modified_ms: Option<u64>,
}

/// One request to the file system (or, for `Clock`, to the clock).
#[derive(Debug)]
pub enum FsRequest {
    /// What is at the path, a symbolic link at its end not followed?
    Stat(String),
    /// The absolute path with all symbolic links resolved.
    RealPath(String),
    /// Create the directory and its missing ancestors.
    MakeDirs(String),
    /// Nanoseconds since the Unix epoch, 0 if the clock is before it.
    Clock,
    /// Open the file and read at most so many bytes of it.
    Read(String, u64),
    /// Create or overwrite the file with the content.
    Write(String, Vec<u8>),
    /// Rename the first path to the second.
    Rename(String, String),
    /// Remove the file.
    Remove(String),
}

/// The contents of an [`FsRequest`].
pub enum RequestView {
    Stat(Seq<char>),
    RealPath(Seq<char>),
    MakeDirs(Seq<char>),
    Clock,
    Read(Seq<char>, u64),
    Write(Seq<char>, Seq<u8>),
    Rename(Seq<char>, Seq<char>),
    Remove(Seq<char>),
}

impl View for FsRequest {
    type V = RequestView;

    open spec fn view(&self) -> RequestView {
        match *self {
            FsRequest::Stat(p) => RequestView::Stat(p@),
            FsRequest::RealPath(p) => RequestView::RealPath(p@),
            FsRequest::MakeDirs(p) => RequestView::MakeDirs(p@),
            FsRequest::Clock => RequestView::Clock,
            FsRequest::Read(p, limit) => RequestView::Read(p@, limit),
            FsRequest::Write(p, content) => RequestView::Write(p@, content@),
            FsRequest::Rename(from, to) => RequestView::Rename(from@, to@),
            FsRequest::Remove(p) => RequestView::Remove(p@),
        }
    }
}

/// The reply to an [`FsRequest`].
#[derive(Debug)]
pub enum FsReply {
    Stat(FileStat),
    RealPath(String),
    Clock(u128),
    Bytes(Vec<u8>),
    Done,
    Failed(IoFailure),
}

/// The contents of an [`FsReply`].
pub enum ReplyView {
    Stat(FileStat),
    RealPath(Seq<char>),
    Clock(u128),
    Bytes(Seq<u8>),
    Done,
    Failed(IoFailureView),
}

impl View for FsReply {
    type V = ReplyView;

    open spec fn view(&self) -> ReplyView {
        match *self {
            FsReply::Stat(s) => ReplyView::Stat(s),
            FsReply::RealPath(p) => ReplyView::RealPath(p@),
            FsReply::Clock(n) => ReplyView::Clock(n),
            FsReply::Bytes(b) => ReplyView::Bytes(b@),
            FsReply::Done => ReplyView::Done,
            FsReply::Failed(e) => ReplyView::Failed(e@),
        }
    }
}

/// Is the reply of a kind that the request can be answered with?
pub open spec fn answers(reply: ReplyView, request: RequestView) -> bool {
    match request {
        RequestView::Stat(_) => reply is Stat || reply is Failed,
        RequestView::RealPath(_) => reply is RealPath || reply is Failed,
        RequestView::Clock => reply is Clock,
        RequestView::Read(_, _) => reply is Bytes || reply is Failed,
        RequestView::MakeDirs(_) => reply is Done || reply is Failed,
        RequestView::Write(_, _) => reply is Done || reply is Failed,
        RequestView::Rename(_, _) => reply is Done || reply is Failed,
        RequestView::Remove(_) => reply is Done || reply is Failed,
    }
}

/// A file system that stands still: the reply to each request.
pub type Snapshot = spec_fn(RequestView) -> ReplyView;

/// Does the snapshot answer every request with a fitting reply?
pub open spec fn is_snapshot(fs: Snapshot) -> bool {
    forall|request: RequestView| answers(#[trigger] fs(request), request)
}

} // verus!
