//! Error types for Nomad page/file hosting.

use vstd::prelude::*;

use crate::decimal;
use crate::decimal::decimal_text;
use crate::text::join2;

verus! {

/// The kind of an I/O failure. The hosting logic tells `NotFound` from the others;
/// callers may tell them all apart.
#[derive(Clone, Copy, Debug, PartialEq, Eq, Structural)]
pub enum IoKind {
    /// The path does not exist.
    NotFound,
    PermissionDenied,
    AlreadyExists,
    InvalidInput,
    InvalidData,
    TimedOut,
    WriteZero,
    Interrupted,
    Unsupported,
    UnexpectedEof,
    OutOfMemory,
    /// Every other failure.
    Other,
}

/// A failed file-system operation, as reported by whoever performed it.
#[derive(Debug)]
pub struct IoFailure {
    /// What kind of failure it was.
    pub kind: IoKind,
    /// The failure in words.
    pub text: String,
}

/// The contents of an [`IoFailure`].
pub struct IoFailureView {
    pub kind: IoKind,
    pub text: Seq<char>,
}

impl View for IoFailure {
    type V = IoFailureView;

    open spec fn view(&self) -> IoFailureView {
        IoFailureView { kind: self.kind, text: self.text@ }
    }
}

/// Errors from Nomad path validation, content I/O, and node lifecycle.
#[derive(Debug)]
pub enum NomadError {
    /// Generic message (collisions, listing limits, etc.).
    Message(String),
    /// Path string failed validation (empty, too deep, forbidden name, etc.).
    InvalidPath(String),
    /// Path escaped the content root or used a symlink / absolute component.
    PathTraversal,
    /// Requested page or file does not exist under the content root.
    NotFound(String),
    /// Underlying filesystem or I/O failure.
    Io(IoFailure),
    /// Page or file body exceeds the configured size cap.
    TooLarge { size: usize, max: usize },
    /// Reserved for a future start/stop lifecycle API.
    NotRunning,
    /// Reserved for a future start/stop lifecycle API.
    AlreadyRunning,
}

/// The contents of a [`NomadError`].
pub enum ErrorView {
    Message(Seq<char>),
    InvalidPath(Seq<char>),
    PathTraversal,
    NotFound(Seq<char>),
    Io(IoFailureView),
    TooLarge { size: nat, max: nat },
    NotRunning,
    AlreadyRunning,
}

impl View for NomadError {
    type V = ErrorView;

    open spec fn view(&self) -> ErrorView {
        match *self {
            NomadError::Message(m) => ErrorView::Message(m@),
            NomadError::InvalidPath(m) => ErrorView::InvalidPath(m@),
            NomadError::PathTraversal => ErrorView::PathTraversal,
            NomadError::NotFound(p) => ErrorView::NotFound(p@),
            NomadError::Io(e) => ErrorView::Io(e@),
            NomadError::TooLarge { size, max } => ErrorView::TooLarge {
                size: size as nat,
                max: max as nat,
            },
            NomadError::NotRunning => ErrorView::NotRunning,
            NomadError::AlreadyRunning => ErrorView::AlreadyRunning,
        }
    }
}

/// A result whose value and error are taken by their contents.
pub open spec fn result_view<T: View>(r: Result<T, NomadError>) -> Result<T::V, ErrorView> {
    match r {
        Ok(v) => Ok(v@),
        Err(e) => Err(e@),
    }
}

/// An error in words.
pub open spec fn error_text(e: ErrorView) -> Seq<char> {
    match e {
        ErrorView::Message(m) => m,
        ErrorView::InvalidPath(m) => "invalid path: "@ + m,
        ErrorView::PathTraversal => "path traversal rejected"@,
        ErrorView::NotFound(p) => "not found: "@ + p,
        ErrorView::Io(e) => "io error: "@ + e.text,
        ErrorView::TooLarge { size, max } => "response too large ("@ + decimal::decimal(size) + " > "@
            + decimal::decimal(max) + ")"@,
        ErrorView::NotRunning => "serving is not running"@,
        ErrorView::AlreadyRunning => "already running"@,
    }
}

impl NomadError {
    /// Build a [`NomadError::Message`] from a text.
    pub fn message(msg: &str) -> (r: Self)
        ensures
            r@ == ErrorView::Message(msg@),
    {
        NomadError::Message(msg.to_owned())
    }

    /// Build a [`NomadError::InvalidPath`] from a text.
    pub(crate) fn invalid_path(msg: &str) -> (r: Self)
        ensures
            r@ == ErrorView::InvalidPath(msg@),
    {
        NomadError::InvalidPath(msg.to_owned())
    }

    /// The error in words.
    pub fn describe(&self) -> (r: String)
        ensures
            r@ == error_text(self@),
    {
        match self {
            NomadError::Message(m) => m.clone(),
            NomadError::InvalidPath(m) => join2("invalid path: ", m.as_str()),
            NomadError::PathTraversal => "path traversal rejected".to_owned(),
            NomadError::NotFound(p) => join2("not found: ", p.as_str()),
            NomadError::Io(e) => join2("io error: ", e.text.as_str()),
            NomadError::TooLarge { size, max } => {
                let s = decimal_text(*size as u128);
                let m = decimal_text(*max as u128);
                let a = join2("response too large (", s.as_str());
                let b = join2(a.as_str(), " > ");
                let c = join2(b.as_str(), m.as_str());
                join2(c.as_str(), ")")
            },
            NomadError::NotRunning => "serving is not running".to_owned(),
            NomadError::AlreadyRunning => "already running".to_owned(),
        }
    }
}

/// What an error says: its kind, and what it carries.
pub proof fn law_errors_say_what_they_carry(m: Seq<char>, kind: IoKind, size: nat, max: nat)
    ensures
        error_text(ErrorView::Message(m)) == m,
        error_text(ErrorView::InvalidPath(m)) == "invalid path: "@ + m,
        error_text(ErrorView::NotFound(m)) == "not found: "@ + m,
        error_text(ErrorView::Io(IoFailureView { kind, text: m })) == "io error: "@ + m,
        error_text(ErrorView::TooLarge { size, max }) == "response too large ("@
            + decimal::decimal(size) + " > "@ + decimal::decimal(max) + ")"@,
        error_text(ErrorView::PathTraversal) == "path traversal rejected"@,
        error_text(ErrorView::NotRunning) == "serving is not running"@,
        error_text(ErrorView::AlreadyRunning) == "already running"@,
{
}

} // verus!
