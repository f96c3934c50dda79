//! Safe resolution of a content-relative path under a content root: the walk
//! goes down one name at a time and rejects escapes and symbolic links.

use vstd::prelude::*;

use crate::components;
use crate::components::components_of;
use crate::components::join_paths;
use crate::components::parent_of;
use crate::components::path_lies_under;
use crate::components::ComponentView;
use crate::components::PathComponent;
use crate::error::ErrorView;
use crate::error::NomadError;
use crate::fs;
use crate::fs::FileKind;
use crate::fs::FsReply;
use crate::fs::FsRequest;
use crate::fs::ReplyView;
use crate::fs::RequestView;
use crate::paths;
use crate::paths::validate_content_relative_path;
use crate::text;

verus! {

/// What the walk is waiting for.
#[derive(Clone, Copy, Debug, PartialEq, Eq, Structural)]
pub enum ResolvePhase {
    /// What the root is.
    RootStat,
    /// The real path of the root.
    RootReal,
    /// What the path down to this name is.
    NameStat(usize),
    /// What the whole path is.
    EndStat,
    /// The real path of the whole path.
    EndReal,
    /// What the directory above the missing path is.
    ParentStat,
    /// The real path of that directory.
    ParentReal,
}

/// A resolution in progress.
#[derive(Debug)]
pub struct ResolveTask {
    root: String,
    names: Vec<PathComponent>,
    real_root: String,
    cur: String,
    above: String,
    phase: ResolvePhase,
}

/// The contents of a [`ResolveTask`].
pub struct ResolveView {
    /// The content root, as configured.
    pub root: Seq<char>,
    /// The components to walk down by.
    pub names: Seq<ComponentView>,
    /// The real path of the root, once it is known.
    pub real_root: Seq<char>,
    /// The path walked so far.
    pub cur: Seq<char>,
    /// The directory above the missing path, once it matters.
    pub above: Seq<char>,
    /// What the walk is waiting for.
    pub phase: ResolvePhase,
}

impl View for ResolveTask {
    type V = ResolveView;

    closed spec fn view(&self) -> ResolveView {
        ResolveView {
            root: self.root@,
            names: components::views(self.names@),
            real_root: self.real_root@,
            cur: self.cur@,
            above: self.above@,
            phase: self.phase,
        }
    }
}

/// Where a resolution stands after a reply.
#[derive(Debug)]
pub enum ResolveStep {
    /// One more request is to be answered.
    Ask(ResolveTask),
    /// The resolution has ended.
    Done(Result<String, NomadError>),
}

/// The contents of a [`ResolveStep`].
pub enum ResolveStepView {
    Ask(ResolveView),
    Done(Result<Seq<char>, ErrorView>),
}

impl View for ResolveStep {
    type V = ResolveStepView;

    open spec fn view(&self) -> ResolveStepView {
        match *self {
            ResolveStep::Ask(task) => ResolveStepView::Ask(task@),
            ResolveStep::Done(r) => ResolveStepView::Done(crate::error::result_view(r)),
        }
    }
}

/// The start of a resolution of `rel` under `root`.
pub open spec fn started(root: Seq<char>, rel: Seq<char>) -> ResolveView {
    ResolveView {
        root,
        names: components::components(text::without_leading_slashes(rel)),
        real_root: Seq::empty(),
        cur: Seq::empty(),
        above: Seq::empty(),
        phase: ResolvePhase::RootStat,
    }
}

/// The request a resolution is waiting for.
pub open spec fn request_of(s: ResolveView) -> RequestView {
    match s.phase {
        ResolvePhase::RootStat => RequestView::Stat(s.root),
        ResolvePhase::RootReal => RequestView::RealPath(s.root),
        ResolvePhase::NameStat(_) => RequestView::Stat(s.cur),
        ResolvePhase::EndStat => RequestView::Stat(s.cur),
        ResolvePhase::EndReal => RequestView::RealPath(s.cur),
        ResolvePhase::ParentStat => RequestView::Stat(s.above),
        ResolvePhase::ParentReal => RequestView::RealPath(s.above),
    }
}

/// The same resolution, waiting for something else.
pub open spec fn waiting(s: ResolveView, phase: ResolvePhase) -> ResolveStepView {
    ResolveStepView::Ask(ResolveView { phase, ..s })
}

/// A resolution that has failed.
pub open spec fn failed(e: ErrorView) -> ResolveStepView {
    ResolveStepView::Done(Err(e))
}

/// The walk goes on with the name at position `k`, or has reached the end.
pub open spec fn walked_to(s: ResolveView, k: int) -> ResolveStepView {
    if k >= s.names.len() {
        waiting(s, ResolvePhase::EndStat)
    } else {
        match s.names[k] {
            ComponentView::Normal(name) => ResolveStepView::Ask(
                ResolveView {
                    cur: components::join(s.cur, name),
                    phase: ResolvePhase::NameStat(k as usize),
                    ..s
                },
            ),
            _ => failed(ErrorView::PathTraversal),
        }
    }
}

/// What the reply to a `Stat` request tells of a path: whether something is
/// there, or why it cannot be walked through. A symbolic link is refused whether
/// or not it leads anywhere; a path that cannot be looked at counts as missing.
pub open spec fn presence(reply: ReplyView) -> Result<bool, ErrorView> {
    match reply {
        ReplyView::Stat(stat) => if stat.kind == FileKind::Symlink {
            Err(ErrorView::PathTraversal)
        } else {
            Ok(true)
        },
        ReplyView::Failed(_) => Ok(false),
        _ => Err(ErrorView::PathTraversal),
    }
}

/// The walk from `base` down.
pub open spec fn walked_from(s: ResolveView, base: Seq<char>) -> ResolveStepView {
    walked_to(ResolveView { real_root: base, cur: base, ..s }, 0)
}

/// The resolution that is missing its path looks at the directory above it.
pub open spec fn looking_above(s: ResolveView) -> ResolveStepView {
    match components::parent(s.cur) {
        Some(above) => ResolveStepView::Ask(
            ResolveView { above, phase: ResolvePhase::ParentStat, ..s },
        ),
        None => ResolveStepView::Done(Ok(s.cur)),
    }
}

/// `path` is handed out if `target` lies under the root.
pub open spec fn handed_out(s: ResolveView, path: Seq<char>, target: Seq<char>) -> ResolveStepView {
    if components::lies_under(target, s.real_root) {
        ResolveStepView::Done(Ok(path))
    } else {
        failed(ErrorView::PathTraversal)
    }
}

/// Where a resolution stands after the reply to its request.
pub open spec fn next(s: ResolveView, reply: ReplyView) -> ResolveStepView {
    match s.phase {
        ResolvePhase::RootStat => match presence(reply) {
            Err(e) => failed(e),
            Ok(true) => waiting(s, ResolvePhase::RootReal),
            Ok(false) => walked_from(s, s.root),
        },
        ResolvePhase::RootReal => match reply {
            ReplyView::RealPath(p) => walked_from(s, p),
            ReplyView::Failed(e) => failed(ErrorView::Io(e)),
            _ => failed(ErrorView::PathTraversal),
        },
        ResolvePhase::NameStat(k) => match presence(reply) {
            Err(e) => failed(e),
            Ok(_) => walked_to(s, k + 1),
        },
        ResolvePhase::EndStat => match presence(reply) {
            Err(e) => failed(e),
            Ok(true) => waiting(s, ResolvePhase::EndReal),
            Ok(false) => looking_above(s),
        },
        ResolvePhase::EndReal => match reply {
            ReplyView::RealPath(p) => handed_out(s, p, p),
            ReplyView::Failed(e) => failed(ErrorView::Io(e)),
            _ => failed(ErrorView::PathTraversal),
        },
        ResolvePhase::ParentStat => match presence(reply) {
            Err(e) => failed(e),
            Ok(true) => waiting(s, ResolvePhase::ParentReal),
            Ok(false) => ResolveStepView::Done(Ok(s.cur)),
        },
        ResolvePhase::ParentReal => match reply {
            ReplyView::RealPath(p) => handed_out(s, s.cur, p),
            ReplyView::Failed(e) => failed(ErrorView::Io(e)),
            _ => failed(ErrorView::PathTraversal),
        },
    }
}

/// A position in the walk names one of the components.
pub open spec fn is_well_formed(s: ResolveView) -> bool {
    match s.phase {
        ResolvePhase::NameStat(k) => k < s.names.len(),
        _ => true,
    }
}

/// How many replies a resolution can still take.
pub open spec fn remaining(s: ResolveView) -> int {
    let n = s.names.len() as int;
    match s.phase {
        ResolvePhase::RootStat => n + 7,
        ResolvePhase::RootReal => n + 6,
        ResolvePhase::NameStat(k) => n - k + 5,
        ResolvePhase::EndStat => 5,
        ResolvePhase::EndReal => 4,
        ResolvePhase::ParentStat => 4,
        ResolvePhase::ParentReal => 3,
    }
}

/// Each reply brings a resolution closer to its end.
pub proof fn lemma_resolution_ends(s: ResolveView, reply: ReplyView)
    requires
        is_well_formed(s),
        s.names.len() <= usize::MAX,
    ensures
        next(s, reply) matches ResolveStepView::Ask(t) ==> is_well_formed(t) && t.names == s.names
            && t.root == s.root && 0 <= remaining(t) < remaining(s),
{
}

/// Start to resolve `rel` under `root`, rejecting escapes and symlink components.
pub fn resolve_under_root(root: &str, rel: &str) -> (r: Result<ResolveTask, NomadError>)
    ensures
        r is Err <==> paths::content_path_error(rel@) is Some,
        r matches Err(e) ==> paths::content_path_error(rel@) == Some(e@),
        r matches Ok(task) ==> task@ == started(root@, rel@) && is_well_formed(task@)
            && task@.names.len() <= usize::MAX,
{
    match validate_content_relative_path(rel) {
        Err(e) => return Err(e),
        Ok(_) => {},
    }
    let names = components_of(text::trim_slashes(rel));
    assert(names.len() == names@.len());
    Ok(
        ResolveTask {
            root: root.to_owned(),
            names,
            real_root: String::new(),
            cur: String::new(),
            above: String::new(),
            phase: ResolvePhase::RootStat,
        },
    )
}

impl ResolveTask {
    /// The request to answer next.
    pub fn request(&self) -> (r: FsRequest)
        ensures
            r@ == request_of(self@),
    {
        match self.phase {
            ResolvePhase::RootStat => FsRequest::Stat(self.root.clone()),
            ResolvePhase::RootReal => FsRequest::RealPath(self.root.clone()),
            ResolvePhase::NameStat(_) => FsRequest::Stat(self.cur.clone()),
            ResolvePhase::EndStat => FsRequest::Stat(self.cur.clone()),
            ResolvePhase::EndReal => FsRequest::RealPath(self.cur.clone()),
            ResolvePhase::ParentStat => FsRequest::Stat(self.above.clone()),
            ResolvePhase::ParentReal => FsRequest::RealPath(self.above.clone()),
        }
    }

    fn walk_to(self, k: usize) -> (r: ResolveStep)
        requires
            k <= self@.names.len(),
        ensures
            r@ == walked_to(self@, k as int),
            r matches ResolveStep::Ask(task) ==> is_well_formed(task@) && task@.names
                == self@.names,
    {
        let mut task = self;
        if k >= task.names.len() {
            task.phase = ResolvePhase::EndStat;
            return ResolveStep::Ask(task);
        }
        assert(self@.names[k as int] == self.names@[k as int]@);
        match &task.names[k] {
            PathComponent::Normal(name) => {
                let cur = join_paths(task.cur.as_str(), name.as_str());
                task.cur = cur;
                task.phase = ResolvePhase::NameStat(k);
                ResolveStep::Ask(task)
            },
            _ => ResolveStep::Done(Err(NomadError::PathTraversal)),
        }
    }

    fn wait_for(self, phase: ResolvePhase) -> (r: ResolveStep)
        ensures
            r@ == waiting(self@, phase),
    {
        let mut task = self;
        task.phase = phase;
        ResolveStep::Ask(task)
    }

    /// Go on with the reply to the request.
    pub fn resume(self, reply: FsReply) -> (r: ResolveStep)
        requires
            is_well_formed(self@),
            fs::answers(reply@, request_of(self@)),
        ensures
            r@ == next(self@, reply@),
            r matches ResolveStep::Ask(task) ==> is_well_formed(task@) && 0 <= remaining(task@)
                < remaining(self@),
    {
        proof {
            assert(self.names.len() == self.names@.len());
            lemma_resolution_ends(self@, reply@);
        }
        match self.phase {
            ResolvePhase::RootStat => match presence_of(reply) {
                Err(e) => ResolveStep::Done(Err(e)),
                Ok(true) => self.wait_for(ResolvePhase::RootReal),
                Ok(false) => {
                    let base = self.root.clone();
                    self.walk_from(base)
                },
            },
            ResolvePhase::RootReal => match reply {
                FsReply::RealPath(p) => self.walk_from(p),
                FsReply::Failed(e) => ResolveStep::Done(Err(NomadError::Io(e))),
                _ => ResolveStep::Done(Err(NomadError::PathTraversal)),
            },
            ResolvePhase::NameStat(k) => match presence_of(reply) {
                Err(e) => ResolveStep::Done(Err(e)),
                Ok(_) => self.next_name(k),
            },
            ResolvePhase::EndStat => match presence_of(reply) {
                Err(e) => ResolveStep::Done(Err(e)),
                Ok(true) => self.wait_for(ResolvePhase::EndReal),
                Ok(false) => match parent_of(self.cur.as_str()) {
                    Some(above) => {
                        let mut task = self;
                        task.above = above;
                        task.phase = ResolvePhase::ParentStat;
                        ResolveStep::Ask(task)
                    },
                    None => ResolveStep::Done(Ok(self.cur)),
                },
            },
            ResolvePhase::EndReal => match reply {
                FsReply::RealPath(p) => if path_lies_under(p.as_str(), self.real_root.as_str()) {
                    ResolveStep::Done(Ok(p))
                } else {
                    ResolveStep::Done(Err(NomadError::PathTraversal))
                },
                FsReply::Failed(e) => ResolveStep::Done(Err(NomadError::Io(e))),
                _ => ResolveStep::Done(Err(NomadError::PathTraversal)),
            },
            ResolvePhase::ParentStat => match presence_of(reply) {
                Err(e) => ResolveStep::Done(Err(e)),
                Ok(true) => self.wait_for(ResolvePhase::ParentReal),
                Ok(false) => ResolveStep::Done(Ok(self.cur)),
            },
            ResolvePhase::ParentReal => match reply {
                FsReply::RealPath(p) => if path_lies_under(p.as_str(), self.real_root.as_str()) {
                    ResolveStep::Done(Ok(self.cur))
                } else {
                    ResolveStep::Done(Err(NomadError::PathTraversal))
                },
                FsReply::Failed(e) => ResolveStep::Done(Err(NomadError::Io(e))),
                _ => ResolveStep::Done(Err(NomadError::PathTraversal)),
            },
        }
    }

    fn walk_from(self, base: String) -> (r: ResolveStep)
        ensures
            r@ == walked_from(self@, base@),
            r matches ResolveStep::Ask(task) ==> is_well_formed(task@) && task@.names
                == self@.names,
    {
        let mut task = self;
        task.real_root = base.clone();
        task.cur = base;
        task.walk_to(0)
    }

    fn next_name(self, k: usize) -> (r: ResolveStep)
        requires
            k < self@.names.len(),
        ensures
            r@ == walked_to(self@, k + 1),
            r matches ResolveStep::Ask(task) ==> is_well_formed(task@) && task@.names
                == self@.names,
    {
        assert(self.names.len() == self.names@.len());
        self.walk_to(k + 1)
    }
}

/// What the reply to a `Stat` request tells of a path.
fn presence_of(reply: FsReply) -> (r: Result<bool, NomadError>)
    requires
        reply@ is Stat || reply@ is Failed,
    ensures
        presence(reply@) == match r {
            Ok(found) => Ok(found),
            Err(e) => Err(e@),
        },
{
    match reply {
        FsReply::Stat(stat) => if stat.kind == FileKind::Symlink {
            Err(NomadError::PathTraversal)
        } else {
            Ok(true)
        },
        FsReply::Failed(_) => Ok(false),
        _ => Err(NomadError::PathTraversal),
    }
}

} // verus!
