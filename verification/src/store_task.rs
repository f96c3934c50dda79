//! Reading, writing and deleting one piece of content: resolve its path, check
//! what is there, then act.

use vstd::prelude::*;
use vstd::slice::slice_to_vec;

use crate::components;
use crate::components::file_name_of;
use crate::components::join_paths;
use crate::components::parent_of;
use crate::decimal;
use crate::error::ErrorView;
use crate::error::IoFailure;
use crate::error::IoFailureView;
use crate::error::IoKind;
use crate::error::NomadError;
use crate::fs;
use crate::fs::FileKind;
use crate::fs::FileStat;
use crate::fs::FsReply;
use crate::fs::FsRequest;
use crate::fs::ReplyView;
use crate::fs::RequestView;
use crate::resolve;
use crate::resolve::ResolveStep;
use crate::resolve::ResolveStepView;
use crate::resolve::ResolveTask;
use crate::resolve::ResolveView;
use crate::text::join2;
use crate::text::join3;

verus! {

/// What is to be done with the resolved path.
#[derive(Debug)]
pub enum StoreOp {
    /// Read the file, up to so many bytes.
    Read(usize),
    /// Write the file.
    Write(Vec<u8>),
    /// Delete the file.
    Delete,
    /// Write the file unless something is there already.
    WriteIfMissing(Vec<u8>),
}

/// The contents of a [`StoreOp`].
pub enum OpView {
    Read(usize),
    Write(Seq<u8>),
    Delete,
    WriteIfMissing(Seq<u8>),
}

impl View for StoreOp {
    type V = OpView;

    open spec fn view(&self) -> OpView {
        match *self {
            StoreOp::Read(max) => OpView::Read(max),
            StoreOp::Write(content) => OpView::Write(content@),
            StoreOp::Delete => OpView::Delete,
            StoreOp::WriteIfMissing(content) => OpView::WriteIfMissing(content@),
        }
    }
}

/// What a task is waiting for.
#[derive(Debug)]
pub enum StorePhase {
    /// The resolution of the path.
    Resolve(ResolveTask),
    /// What is at the resolved path.
    Check(String),
    /// How large the file is.
    Measure(String),
    /// The body of the file.
    Body(String),
    /// The removal of the file.
    Remove(String),
    /// The directory above the file.
    MakeParent(String),
    /// The time, for the name of the temporary file.
    Clock(String),
    /// The temporary file (second) for the file (first).
    WriteTemp(String, String),
    /// The renaming of the temporary file (second) to the file (first).
    Swap(String, String),
    /// The removal of the temporary file after the renaming failed.
    Cleanup(String, IoFailure),
}

/// The contents of a [`StorePhase`].
pub enum PhaseView {
    Resolve(ResolveView),
    Check(Seq<char>),
    Measure(Seq<char>),
    Body(Seq<char>),
    Remove(Seq<char>),
    MakeParent(Seq<char>),
    Clock(Seq<char>),
    WriteTemp(Seq<char>, Seq<char>),
    Swap(Seq<char>, Seq<char>),
    Cleanup(Seq<char>, IoFailureView),
}

impl View for StorePhase {
    type V = PhaseView;

    open spec fn view(&self) -> PhaseView {
        match *self {
            StorePhase::Resolve(t) => PhaseView::Resolve(t@),
            StorePhase::Check(p) => PhaseView::Check(p@),
            StorePhase::Measure(p) => PhaseView::Measure(p@),
            StorePhase::Body(p) => PhaseView::Body(p@),
            StorePhase::Remove(p) => PhaseView::Remove(p@),
            StorePhase::MakeParent(p) => PhaseView::MakeParent(p@),
            StorePhase::Clock(p) => PhaseView::Clock(p@),
            StorePhase::WriteTemp(p, tmp) => PhaseView::WriteTemp(p@, tmp@),
            StorePhase::Swap(p, tmp) => PhaseView::Swap(p@, tmp@),
            StorePhase::Cleanup(tmp, e) => PhaseView::Cleanup(tmp@, e@),
        }
    }
}

/// An operation on one piece of content, in progress.
#[derive(Debug)]
pub struct StoreTask {
    op: StoreOp,
    rel: String,
    phase: StorePhase,
}

/// The contents of a [`StoreTask`].
pub struct StoreView {
    /// What is to be done.
    pub op: OpView,
    /// The content-relative path, as given.
    pub rel: Seq<char>,
    /// What the task is waiting for.
    pub phase: PhaseView,
}

impl View for StoreTask {
    type V = StoreView;

    closed spec fn view(&self) -> StoreView {
        StoreView { op: self.op@, rel: self.rel@, phase: self.phase@ }
    }
}

/// What a finished task hands out.
#[derive(Debug)]
pub enum StoreOutput {
    /// The body of the file that was read.
    Body(Vec<u8>),
    /// Nothing: the content was written or deleted.
    Unit,
}

/// The contents of a [`StoreOutput`].
pub enum OutputView {
    Body(Seq<u8>),
    Unit,
}

impl View for StoreOutput {
    type V = OutputView;

    open spec fn view(&self) -> OutputView {
        match *self {
            StoreOutput::Body(b) => OutputView::Body(b@),
            StoreOutput::Unit => OutputView::Unit,
        }
    }
}

/// Where a task stands after a reply.
#[derive(Debug)]
pub enum StoreStep {
    /// One more request is to be answered.
    Ask(StoreTask),
    /// The task has ended.
    Done(Result<StoreOutput, NomadError>),
}

/// The contents of a [`StoreStep`].
pub enum StoreStepView {
    Ask(StoreView),
    Done(Result<OutputView, ErrorView>),
}

impl View for StoreStep {
    type V = StoreStepView;

    open spec fn view(&self) -> StoreStepView {
        match *self {
            StoreStep::Ask(task) => StoreStepView::Ask(task@),
            StoreStep::Done(r) => StoreStepView::Done(crate::error::result_view(r)),
        }
    }
}

/// A task that starts to resolve `rel` under `root`.
pub open spec fn started(op: OpView, root: Seq<char>, rel: Seq<char>) -> StoreView {
    StoreView { op, rel, phase: PhaseView::Resolve(resolve::started(root, rel)) }
}

/// The directory above a path; empty where there is none.
pub open spec fn above(path: Seq<char>) -> Seq<char> {
    match components::parent(path) {
        Some(p) => p,
        None => Seq::empty(),
    }
}

/// The temporary file that `path` is first written to: a hidden sibling, named
/// after the file and the time.
pub open spec fn temp_path(path: Seq<char>, name: Seq<char>, nanos: nat) -> Seq<char> {
    components::join(above(path), "."@ + name + "."@ + decimal::decimal(nanos) + ".tmp"@)
}

/// The content that a task writes.
pub open spec fn content_of(op: OpView) -> Seq<u8> {
    match op {
        OpView::Write(content) => content,
        OpView::WriteIfMissing(content) => content,
        _ => Seq::empty(),
    }
}

/// The size cap that a task reads under.
pub open spec fn max_of(op: OpView) -> usize {
    match op {
        OpView::Read(max) => max,
        _ => 0,
    }
}

/// One byte more than the cap, as far as `u64` reaches.
pub open spec fn read_limit(max: usize) -> u64 {
    if max as int + 1 > u64::MAX {
        u64::MAX
    } else {
        (max as int + 1) as u64
    }
}

/// The request a task is waiting for.
pub open spec fn request_of(s: StoreView) -> RequestView {
    match s.phase {
        PhaseView::Resolve(t) => resolve::request_of(t),
        PhaseView::Check(p) => RequestView::Stat(p),
        PhaseView::Measure(p) => RequestView::Stat(p),
        PhaseView::Body(p) => RequestView::Read(p, read_limit(max_of(s.op))),
        PhaseView::Remove(p) => RequestView::Remove(p),
        PhaseView::MakeParent(p) => RequestView::MakeDirs(above(p)),
        PhaseView::Clock(_) => RequestView::Clock,
        PhaseView::WriteTemp(_, tmp) => RequestView::Write(tmp, content_of(s.op)),
        PhaseView::Swap(p, tmp) => RequestView::Rename(tmp, p),
        PhaseView::Cleanup(tmp, _) => RequestView::Remove(tmp),
    }
}

/// The same task, waiting for something else.
pub open spec fn waiting(s: StoreView, phase: PhaseView) -> StoreStepView {
    StoreStepView::Ask(StoreView { phase, ..s })
}

/// A task that has failed.
pub open spec fn failed(e: ErrorView) -> StoreStepView {
    StoreStepView::Done(Err(e))
}

/// The writing of `path` begins with the directory above it.
pub open spec fn writing(s: StoreView, path: Seq<char>) -> StoreStepView {
    match components::parent(path) {
        Some(_) => waiting(s, PhaseView::MakeParent(path)),
        None => failed(ErrorView::Message("missing parent directory"@)),
    }
}

/// Where a task stands once its path is resolved.
pub open spec fn after_resolution(s: StoreView, path: Seq<char>) -> StoreStepView {
    match s.op {
        OpView::Write(_) => writing(s, path),
        _ => waiting(s, PhaseView::Check(path)),
    }
}

/// Where a task stands once it is known what is at its path.
pub open spec fn after_check(s: StoreView, path: Seq<char>, reply: ReplyView) -> StoreStepView {
    match reply {
        ReplyView::Failed(e) => if e.kind == IoKind::NotFound {
            match s.op {
                OpView::WriteIfMissing(_) => writing(s, path),
                _ => failed(ErrorView::NotFound(s.rel)),
            }
        } else {
            failed(ErrorView::Io(e))
        },
        ReplyView::Stat(stat) => if stat.kind == FileKind::Symlink {
            failed(ErrorView::PathTraversal)
        } else {
            match s.op {
                OpView::WriteIfMissing(_) => StoreStepView::Done(Ok(OutputView::Unit)),
                _ => if stat.kind != FileKind::Regular {
                    failed(ErrorView::NotFound(s.rel))
                } else {
                    match s.op {
                        OpView::Delete => waiting(s, PhaseView::Remove(path)),
                        _ => waiting(s, PhaseView::Measure(path)),
                    }
                },
            }
        },
        _ => failed(ErrorView::PathTraversal),
    }
}

/// A size that is over the cap, as far as `usize` reaches.
pub open spec fn oversize(len: u64, max: usize) -> ErrorView {
    ErrorView::TooLarge {
        size: if len <= usize::MAX {
            len as nat
        } else {
            usize::MAX as nat
        },
        max: max as nat,
    }
}

/// Goes on with `next` after `Done`, fails with the I/O error otherwise.
pub open spec fn if_done(reply: ReplyView, next: StoreStepView) -> StoreStepView {
    match reply {
        ReplyView::Failed(e) => failed(ErrorView::Io(e)),
        _ => next,
    }
}

/// Where a task stands after the reply to its request.
pub open spec fn next(s: StoreView, reply: ReplyView) -> StoreStepView {
    match s.phase {
        PhaseView::Resolve(t) => match resolve::next(t, reply) {
            ResolveStepView::Ask(t) => waiting(s, PhaseView::Resolve(t)),
            ResolveStepView::Done(Err(e)) => failed(e),
            ResolveStepView::Done(Ok(path)) => after_resolution(s, path),
        },
        PhaseView::Check(path) => after_check(s, path, reply),
        PhaseView::Measure(path) => match reply {
            ReplyView::Stat(stat) => if stat.kind == FileKind::Symlink {
                failed(ErrorView::PathTraversal)
            } else if stat.len > max_of(s.op) {
                failed(oversize(stat.len, max_of(s.op)))
            } else {
                waiting(s, PhaseView::Body(path))
            },
            ReplyView::Failed(e) => failed(ErrorView::Io(e)),
            _ => failed(ErrorView::PathTraversal),
        },
        PhaseView::Body(_) => match reply {
            ReplyView::Bytes(b) => if b.len() > max_of(s.op) {
                failed(ErrorView::TooLarge { size: b.len(), max: max_of(s.op) as nat })
            } else {
                StoreStepView::Done(Ok(OutputView::Body(b)))
            },
            ReplyView::Failed(e) => failed(ErrorView::Io(e)),
            _ => failed(ErrorView::PathTraversal),
        },
        PhaseView::Remove(_) => if_done(reply, StoreStepView::Done(Ok(OutputView::Unit))),
        PhaseView::MakeParent(path) => if_done(
            reply,
            match components::file_name(path) {
                Some(_) => waiting(s, PhaseView::Clock(path)),
                None => failed(ErrorView::Message("missing file name"@)),
            },
        ),
        PhaseView::Clock(path) => match (components::file_name(path), reply) {
            (Some(name), ReplyView::Clock(nanos)) => waiting(
                s,
                PhaseView::WriteTemp(path, temp_path(path, name, nanos as nat)),
            ),
            _ => failed(ErrorView::Message("missing file name"@)),
        },
        PhaseView::WriteTemp(path, tmp) => if_done(
            reply,
            waiting(s, PhaseView::Swap(path, tmp)),
        ),
        PhaseView::Swap(_, tmp) => match reply {
            ReplyView::Failed(e) => waiting(s, PhaseView::Cleanup(tmp, e)),
            _ => StoreStepView::Done(Ok(OutputView::Unit)),
        },
        PhaseView::Cleanup(_, e) => failed(ErrorView::Io(e)),
    }
}

/// A task's resolution, if it is still going on, is well formed.
pub open spec fn is_well_formed(s: StoreView) -> bool {
    match s.phase {
        PhaseView::Resolve(t) => resolve::is_well_formed(t) && t.names.len() <= usize::MAX,
        _ => true,
    }
}

/// How many replies a task can still take.
pub open spec fn remaining(s: StoreView) -> int {
    match s.phase {
        PhaseView::Resolve(t) => 10 + resolve::remaining(t),
        PhaseView::Check(_) => 9,
        PhaseView::Measure(_) => 8,
        PhaseView::Body(_) => 7,
        PhaseView::Remove(_) => 7,
        PhaseView::MakeParent(_) => 6,
        PhaseView::Clock(_) => 5,
        PhaseView::WriteTemp(_, _) => 4,
        PhaseView::Swap(_, _) => 3,
        PhaseView::Cleanup(_, _) => 2,
    }
}

/// Each reply brings a task closer to its end.
pub proof fn lemma_task_ends(s: StoreView, reply: ReplyView)
    requires
        is_well_formed(s),
    ensures
        next(s, reply) matches StoreStepView::Ask(t) ==> is_well_formed(t) && t.op == s.op && t.rel
            == s.rel && 0 <= remaining(t) < remaining(s),
{
    match s.phase {
        PhaseView::Resolve(t) => {
            resolve::lemma_resolution_ends(t, reply);
        },
        _ => {},
    }
}

/// The size of a body that is over the cap, as far as `usize` reaches.
fn clamp_size(len: u64) -> (r: usize)
    ensures
        r == if len <= usize::MAX {
            len as int
        } else {
            usize::MAX as int
        },
{
    if len <= usize::MAX as u64 {
        len as usize
    } else {
        usize::MAX
    }
}

impl StoreTask {
    /// A task that resolves its path first.
    pub(crate) fn new(op: StoreOp, rel: &str, resolution: ResolveTask) -> (r: StoreTask)
        ensures
            r@ == (StoreView { op: op@, rel: rel@, phase: PhaseView::Resolve(resolution@) }),
    {
        StoreTask { op, rel: rel.to_owned(), phase: StorePhase::Resolve(resolution) }
    }

    /// The request to answer next.
    pub fn request(&self) -> (r: FsRequest)
        ensures
            r@ == request_of(self@),
    {
        match &self.phase {
            StorePhase::Resolve(t) => t.request(),
            StorePhase::Check(p) => FsRequest::Stat(p.clone()),
            StorePhase::Measure(p) => FsRequest::Stat(p.clone()),
            StorePhase::Body(p) => {
                let limit: u64 = (self.max_bytes() as u64).saturating_add(1);
                FsRequest::Read(p.clone(), limit)
            },
            StorePhase::Remove(p) => FsRequest::Remove(p.clone()),
            StorePhase::MakeParent(p) => FsRequest::MakeDirs(directory_above(p.as_str())),
            StorePhase::Clock(_) => FsRequest::Clock,
            StorePhase::WriteTemp(_, tmp) => FsRequest::Write(tmp.clone(), self.content()),
            StorePhase::Swap(p, tmp) => FsRequest::Rename(tmp.clone(), p.clone()),
            StorePhase::Cleanup(tmp, _) => FsRequest::Remove(tmp.clone()),
        }
    }

    fn max_bytes(&self) -> (r: usize)
        ensures
            r == max_of(self@.op),
    {
        match &self.op {
            StoreOp::Read(max) => *max,
            _ => 0,
        }
    }

    fn content(&self) -> (r: Vec<u8>)
        ensures
            r@ == content_of(self@.op),
    {
        match &self.op {
            StoreOp::Write(content) => slice_to_vec(content.as_slice()),
            StoreOp::WriteIfMissing(content) => slice_to_vec(content.as_slice()),
            _ => Vec::new(),
        }
    }

    fn start_writing(op: StoreOp, rel: String, path: String) -> (r: StoreStep)
        ensures
            forall|phase: PhaseView|
                r@ == #[trigger] writing(StoreView { op: op@, rel: rel@, phase }, path@),
    {
        match parent_of(path.as_str()) {
            Some(_) => StoreStep::Ask(StoreTask { op, rel, phase: StorePhase::MakeParent(path) }),
            None => StoreStep::Done(Err(NomadError::message("missing parent directory"))),
        }
    }

    fn checked(op: StoreOp, rel: String, path: String, stat: FileStat) -> (r: StoreStep)
        ensures
            forall|phase: PhaseView|
                r@ == #[trigger] after_check(
                    StoreView { op: op@, rel: rel@, phase },
                    path@,
                    ReplyView::Stat(stat),
                ),
    {
        if stat.kind == FileKind::Symlink {
            return StoreStep::Done(Err(NomadError::PathTraversal));
        }
        match &op {
            StoreOp::WriteIfMissing(_) => return StoreStep::Done(Ok(StoreOutput::Unit)),
            _ => {},
        }
        if stat.kind != FileKind::Regular {
            return StoreStep::Done(Err(NomadError::NotFound(rel)));
        }
        let phase = match &op {
            StoreOp::Delete => StorePhase::Remove(path),
            _ => StorePhase::Measure(path),
        };
        StoreStep::Ask(StoreTask { op, rel, phase })
    }

    fn check_failed(op: StoreOp, rel: String, path: String, e: IoFailure) -> (r: StoreStep)
        ensures
            forall|phase: PhaseView|
                r@ == #[trigger] after_check(
                    StoreView { op: op@, rel: rel@, phase },
                    path@,
                    ReplyView::Failed(e@),
                ),
    {
        if e.kind != IoKind::NotFound {
            return StoreStep::Done(Err(NomadError::Io(e)));
        }
        let write = match &op {
            StoreOp::WriteIfMissing(_) => true,
            _ => false,
        };
        if write {
            Self::start_writing(op, rel, path)
        } else {
            StoreStep::Done(Err(NomadError::NotFound(rel)))
        }
    }

    /// Go on with the reply to the request.
    pub fn resume(self, reply: FsReply) -> (r: StoreStep)
        requires
            is_well_formed(self@),
            fs::answers(reply@, request_of(self@)),
        ensures
            r@ == next(self@, reply@),
            r matches StoreStep::Ask(task) ==> is_well_formed(task@) && 0 <= remaining(task@)
                < remaining(self@),
    {
        proof {
            lemma_task_ends(self@, reply@);
        }
        let max: usize = self.max_bytes();
        let ghost before = self@;
        let StoreTask { op, rel, phase } = self;
        match phase {
            StorePhase::Resolve(t) => match t.resume(reply) {
                ResolveStep::Ask(t) => StoreStep::Ask(
                    StoreTask { op, rel, phase: StorePhase::Resolve(t) },
                ),
                ResolveStep::Done(Err(e)) => StoreStep::Done(Err(e)),
                ResolveStep::Done(Ok(path)) => {
                    let write = match &op {
                        StoreOp::Write(_) => true,
                        _ => false,
                    };
                    if write {
                        assert(writing(before, path@) == writing(
                            StoreView { op: op@, rel: rel@, phase: before.phase },
                            path@,
                        ));
                        Self::start_writing(op, rel, path)
                    } else {
                        StoreStep::Ask(StoreTask { op, rel, phase: StorePhase::Check(path) })
                    }
                },
            },
            StorePhase::Check(path) => match reply {
                FsReply::Stat(stat) => {
                    assert(before == StoreView { op: op@, rel: rel@, phase: before.phase });
                    Self::checked(op, rel, path, stat)
                },
                FsReply::Failed(e) => {
                    assert(before == StoreView { op: op@, rel: rel@, phase: before.phase });
                    Self::check_failed(op, rel, path, e)
                },
                _ => StoreStep::Done(Err(NomadError::PathTraversal)),
            },
            StorePhase::Measure(path) => match reply {
                FsReply::Stat(stat) => if stat.kind == FileKind::Symlink {
                    StoreStep::Done(Err(NomadError::PathTraversal))
                } else if stat.len > max as u64 {
                    StoreStep::Done(
                        Err(NomadError::TooLarge { size: clamp_size(stat.len), max }),
                    )
                } else {
                    StoreStep::Ask(StoreTask { op, rel, phase: StorePhase::Body(path) })
                },
                FsReply::Failed(e) => StoreStep::Done(Err(NomadError::Io(e))),
                _ => StoreStep::Done(Err(NomadError::PathTraversal)),
            },
            StorePhase::Body(_) => match reply {
                FsReply::Bytes(b) => if b.len() > max {
                    StoreStep::Done(Err(NomadError::TooLarge { size: b.len(), max }))
                } else {
                    StoreStep::Done(Ok(StoreOutput::Body(b)))
                },
                FsReply::Failed(e) => StoreStep::Done(Err(NomadError::Io(e))),
                _ => StoreStep::Done(Err(NomadError::PathTraversal)),
            },
            StorePhase::Remove(_) => match reply {
                FsReply::Failed(e) => StoreStep::Done(Err(NomadError::Io(e))),
                _ => StoreStep::Done(Ok(StoreOutput::Unit)),
            },
            StorePhase::MakeParent(path) => match reply {
                FsReply::Failed(e) => StoreStep::Done(Err(NomadError::Io(e))),
                _ => match file_name_of(path.as_str()) {
                    Some(_) => StoreStep::Ask(
                        StoreTask { op, rel, phase: StorePhase::Clock(path) },
                    ),
                    None => StoreStep::Done(Err(NomadError::message("missing file name"))),
                },
            },
            StorePhase::Clock(path) => match (file_name_of(path.as_str()), reply) {
                (Some(name), FsReply::Clock(nanos)) => {
                    let tmp = temp_path_for(path.as_str(), name.as_str(), nanos);
                    StoreStep::Ask(
                        StoreTask { op, rel, phase: StorePhase::WriteTemp(path, tmp) },
                    )
                },
                _ => StoreStep::Done(Err(NomadError::message("missing file name"))),
            },
            StorePhase::WriteTemp(path, tmp) => match reply {
                FsReply::Failed(e) => StoreStep::Done(Err(NomadError::Io(e))),
                _ => StoreStep::Ask(StoreTask { op, rel, phase: StorePhase::Swap(path, tmp) }),
            },
            StorePhase::Swap(_, tmp) => match reply {
                FsReply::Failed(e) => StoreStep::Ask(
                    StoreTask { op, rel, phase: StorePhase::Cleanup(tmp, e) },
                ),
                _ => StoreStep::Done(Ok(StoreOutput::Unit)),
            },
            StorePhase::Cleanup(_, e) => StoreStep::Done(Err(NomadError::Io(e))),
        }
    }
}

fn directory_above(path: &str) -> (r: String)
    ensures
        r@ == above(path@),
{
    match parent_of(path) {
        Some(p) => p,
        None => String::new(),
    }
}

fn temp_path_for(path: &str, name: &str, nanos: u128) -> (r: String)
    ensures
        r@ == temp_path(path@, name@, nanos as nat),
{
    let digits = decimal::decimal_text(nanos);
    let start = join3(".", name, ".");
    let stem = join2(start.as_str(), digits.as_str());
    let temp = join2(stem.as_str(), ".tmp");
    let dir = directory_above(path);
    join_paths(dir.as_str(), temp.as_str())
}

} // verus!
