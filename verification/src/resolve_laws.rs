//! What holds of every resolution, whatever the file system holds.

use vstd::prelude::*;

use crate::components;
use crate::components::ComponentView;
use crate::error::ErrorView;
use crate::error::IoFailureView;
use crate::fs;
use crate::fs::FileKind;
use crate::fs::ReplyView;
use crate::fs::RequestView;
use crate::fs::Snapshot;
use crate::paths;
use crate::resolve;
use crate::resolve::ResolvePhase;
use crate::resolve::ResolveStepView;
use crate::resolve::ResolveView;
use crate::route_laws;
use crate::text;

verus! {

/// The end of a resolution whose requests are all answered from a snapshot.
pub open spec fn run(fs: Snapshot, s: ResolveView) -> Result<Seq<char>, ErrorView>
    decreases resolve::remaining(s),
    when resolve::is_well_formed(s) && s.names.len() <= usize::MAX
    via run_ends
{
    match resolve::next(s, fs(resolve::request_of(s))) {
        ResolveStepView::Done(r) => r,
        ResolveStepView::Ask(t) => run(fs, t),
    }
}

#[via_fn]
proof fn run_ends(fs: Snapshot, s: ResolveView) {
    resolve::lemma_resolution_ends(s, fs(resolve::request_of(s)));
}

/// What the file system tells of a path: whether something is there, or why it
/// cannot be walked through.
pub open spec fn presence(fs: Snapshot, path: Seq<char>) -> Result<bool, ErrorView> {
    resolve::presence(fs(RequestView::Stat(path)))
}

/// The real path of a path.
pub open spec fn real_path(fs: Snapshot, path: Seq<char>) -> Result<Seq<char>, ErrorView> {
    match fs(RequestView::RealPath(path)) {
        ReplyView::RealPath(p) => Ok(p),
        ReplyView::Failed(e) => Err(ErrorView::Io(e)),
        _ => Err(ErrorView::PathTraversal),
    }
}

/// The root that the walk starts from: the real path of a root that is there and
/// is no symbolic link, the root itself if nothing is seen there.
pub open spec fn real_root(fs: Snapshot, root: Seq<char>) -> Result<Seq<char>, ErrorView> {
    match presence(fs, root) {
        Err(e) => Err(e),
        Ok(false) => Ok(root),
        Ok(true) => real_path(fs, root),
    }
}

/// The name a component stands for.
pub open spec fn name_of(c: ComponentView) -> Seq<char> {
    match c {
        ComponentView::Normal(name) => name,
        _ => Seq::empty(),
    }
}

/// The path reached from `base` by the first `k` names.
pub open spec fn descended(base: Seq<char>, names: Seq<ComponentView>, k: nat) -> Seq<char>
    decreases k,
{
    if k == 0 {
        base
    } else {
        components::join(descended(base, names, (k - 1) as nat), name_of(names[k - 1]))
    }
}

/// What stops the walk from the name at position `k` on, if anything does.
pub open spec fn obstacle(
    fs: Snapshot,
    base: Seq<char>,
    names: Seq<ComponentView>,
    k: nat,
) -> Option<ErrorView>
    decreases names.len() - k,
{
    if k >= names.len() {
        None
    } else if !(names[k as int] is Normal) {
        Some(ErrorView::PathTraversal)
    } else {
        match presence(fs, descended(base, names, k + 1)) {
            Err(e) => Some(e),
            Ok(_) => obstacle(fs, base, names, k + 1),
        }
    }
}

/// `path`, if `target` lies under `base`.
pub open spec fn unless_outside(base: Seq<char>, path: Seq<char>, target: Seq<char>) -> Result<
    Seq<char>,
    ErrorView,
> {
    if components::lies_under(target, base) {
        Ok(path)
    } else {
        Err(ErrorView::PathTraversal)
    }
}

/// The path that is handed out for the missing path `path`: the path itself, if
/// the directory above it, where there is one, does not lead out of `base`.
pub open spec fn concluded_missing(fs: Snapshot, base: Seq<char>, path: Seq<char>) -> Result<
    Seq<char>,
    ErrorView,
> {
    match components::parent(path) {
        None => Ok(path),
        Some(above) => match presence(fs, above) {
            Err(e) => Err(e),
            Ok(false) => Ok(path),
            Ok(true) => match real_path(fs, above) {
                Err(e) => Err(e),
                Ok(target) => unless_outside(base, path, target),
            },
        },
    }
}

/// The path that is handed out for the walked path `path`: its real path if
/// something is there, the path itself if not; in both cases only if nothing
/// leads out of `base`.
pub open spec fn concluded(fs: Snapshot, base: Seq<char>, path: Seq<char>) -> Result<
    Seq<char>,
    ErrorView,
> {
    match presence(fs, path) {
        Err(e) => Err(e),
        Ok(true) => match real_path(fs, path) {
            Err(e) => Err(e),
            Ok(target) => unless_outside(base, target, target),
        },
        Ok(false) => concluded_missing(fs, base, path),
    }
}

/// What `rel` resolves to under `root`.
pub open spec fn resolved(fs: Snapshot, root: Seq<char>, rel: Seq<char>) -> Result<
    Seq<char>,
    ErrorView,
> {
    let names = components::components(text::without_leading_slashes(rel));
    match real_root(fs, root) {
        Err(e) => Err(e),
        Ok(base) => match obstacle(fs, base, names, 0) {
            Some(e) => Err(e),
            None => concluded(fs, base, descended(base, names, names.len())),
        },
    }
}

proof fn lemma_run_unfolds(fs: Snapshot, s: ResolveView)
    requires
        resolve::is_well_formed(s),
        s.names.len() <= usize::MAX,
    ensures
        run(fs, s) == match resolve::next(s, fs(resolve::request_of(s))) {
            ResolveStepView::Done(r) => r,
            ResolveStepView::Ask(t) => run(fs, t),
        },
        resolve::next(s, fs(resolve::request_of(s))) matches ResolveStepView::Ask(t)
            ==> resolve::is_well_formed(t) && t.names == s.names && t.root == s.root,
{
    resolve::lemma_resolution_ends(s, fs(resolve::request_of(s)));
}

proof fn lemma_run_end(fs: Snapshot, s: ResolveView)
    requires
        fs::is_snapshot(fs),
        s.names.len() <= usize::MAX,
        s.phase == ResolvePhase::EndStat,
    ensures
        run(fs, s) == concluded(fs, s.real_root, s.cur),
{
    lemma_run_unfolds(fs, s);
    assert(fs::answers(fs(RequestView::Stat(s.cur)), RequestView::Stat(s.cur)));
    match presence(fs, s.cur) {
        Err(_) => {},
        Ok(true) => {
            let t = ResolveView { phase: ResolvePhase::EndReal, ..s };
            lemma_run_unfolds(fs, t);
            assert(fs::answers(fs(RequestView::RealPath(s.cur)), RequestView::RealPath(s.cur)));
        },
        Ok(false) => if components::parent(s.cur) is Some {
            let above = components::parent(s.cur)->Some_0;
            let t = ResolveView { above, phase: ResolvePhase::ParentStat, ..s };
            lemma_run_unfolds(fs, t);
            assert(fs::answers(fs(RequestView::Stat(above)), RequestView::Stat(above)));
            assert(fs::answers(fs(RequestView::RealPath(above)), RequestView::RealPath(above)));
            let u = ResolveView { phase: ResolvePhase::ParentReal, ..t };
            lemma_run_unfolds(fs, u);
        },
    }
}

/// The walk from position `k` on; `s` is the state before the step to it.
proof fn lemma_run_walk(fs: Snapshot, s: ResolveView, k: nat)
    requires
        fs::is_snapshot(fs),
        s.names.len() <= usize::MAX,
        k <= s.names.len(),
        s.cur == descended(s.real_root, s.names, k),
    ensures
        ({
            let step = resolve::walked_to(s, k as int);
            let r = match step {
                ResolveStepView::Done(r) => r,
                ResolveStepView::Ask(t) => run(fs, t),
            };
            r == match obstacle(fs, s.real_root, s.names, k) {
                Some(e) => Err(e),
                None => concluded(
                    fs,
                    s.real_root,
                    descended(s.real_root, s.names, s.names.len()),
                ),
            }
        }),
    decreases s.names.len() - k,
{
    if k >= s.names.len() {
        lemma_run_end(fs, ResolveView { phase: ResolvePhase::EndStat, ..s });
    } else if s.names[k as int] is Normal {
        let path = descended(s.real_root, s.names, k + 1);
        let t = ResolveView { cur: path, phase: ResolvePhase::NameStat(k as usize), ..s };
        assert(path == components::join(s.cur, name_of(s.names[k as int])));
        lemma_run_unfolds(fs, t);
        assert(fs::answers(fs(RequestView::Stat(path)), RequestView::Stat(path)));
        lemma_run_walk(fs, t, k + 1);
    }
}

/// Run against a file system that stands still, a resolution ends with exactly
/// what the path resolves to there.
pub proof fn law_resolution_is_exact(fs: Snapshot, root: Seq<char>, rel: Seq<char>)
    requires
        fs::is_snapshot(fs),
        resolve::started(root, rel).names.len() <= usize::MAX,
    ensures
        run(fs, resolve::started(root, rel)) == resolved(fs, root, rel),
{
    let s = resolve::started(root, rel);
    lemma_run_unfolds(fs, s);
    assert(fs::answers(fs(RequestView::Stat(root)), RequestView::Stat(root)));
    assert(fs::answers(fs(RequestView::RealPath(root)), RequestView::RealPath(root)));
    let c = ResolveView { phase: ResolvePhase::RootReal, ..s };
    lemma_run_unfolds(fs, c);
    if real_root(fs, root) is Ok {
        let base = real_root(fs, root)->Ok_0;
        if presence(fs, root) == Ok::<bool, ErrorView>(true) {
            lemma_run_walk(fs, ResolveView { real_root: base, cur: base, ..c }, 0);
        } else {
            lemma_run_walk(fs, ResolveView { real_root: base, cur: base, ..s }, 0);
        }
    }
}

/// Walking down by plain names stays under the start.
pub proof fn lemma_descended_stays_under(base: Seq<char>, names: Seq<ComponentView>, k: nat)
    requires
        k <= names.len(),
        forall|i: int| 0 <= i < names.len() ==> route_laws::is_plain(#[trigger] names[i]),
    ensures
        components::lies_under(descended(base, names, k), base),
    decreases k,
{
    let path = descended(base, names, k);
    if k == 0 {
        assert(components::components(base).subrange(
            0,
            components::components(base).len() as int,
        ) =~= components::components(base));
    } else {
        let before = descended(base, names, (k - 1) as nat);
        lemma_descended_stays_under(base, names, (k - 1) as nat);
        assert(route_laws::is_plain(names[k - 1]));
        components::lemma_components_of_join(before, name_of(names[k - 1]));
        let n = components::components(base).len() as int;
        assert(components::components(path).subrange(0, n) =~= components::components(
            before,
        ).subrange(0, n));
    }
}

/// No escape: whatever an accepted path resolves to lies under the root that
/// the walk started from.
pub proof fn law_resolved_paths_stay_under_the_root(
    fs: Snapshot,
    root: Seq<char>,
    rel: Seq<char>,
    path: Seq<char>,
)
    requires
        paths::content_path_error(rel) is None,
        resolved(fs, root, rel) == Ok::<Seq<char>, ErrorView>(path),
    ensures
        real_root(fs, root) is Ok,
        components::lies_under(path, real_root(fs, root)->Ok_0),
{
    let names = components::components(text::without_leading_slashes(rel));
    let base = real_root(fs, root)->Ok_0;
    route_laws::law_accepted_paths_are_walked_by_plain_names(rel);
    lemma_descended_stays_under(base, names, names.len());
}

pub proof fn lemma_no_obstacle(
    fs: Snapshot,
    base: Seq<char>,
    names: Seq<ComponentView>,
    k: nat,
    j: nat,
)
    requires
        k < j <= names.len(),
        obstacle(fs, base, names, k) is None,
    ensures
        presence(fs, descended(base, names, j)) is Ok,
    decreases names.len() - k,
{
    if k + 1 < j {
        lemma_no_obstacle(fs, base, names, k + 1, j);
    }
}

/// Is the path a symbolic link, whether or not it leads anywhere?
pub open spec fn is_link(fs: Snapshot, path: Seq<char>) -> bool {
    fs(RequestView::Stat(path)) matches ReplyView::Stat(stat) && stat.kind == FileKind::Symlink
}

proof fn lemma_link_is_an_obstacle(
    fs: Snapshot,
    base: Seq<char>,
    names: Seq<ComponentView>,
    k: nat,
    j: nat,
)
    requires
        fs::is_snapshot(fs),
        k < j <= names.len(),
        is_link(fs, descended(base, names, j)),
    ensures
        obstacle(fs, base, names, k) == Some(ErrorView::PathTraversal),
    decreases names.len() - k,
{
    let path = descended(base, names, k + 1);
    assert(fs::answers(fs(RequestView::Stat(path)), RequestView::Stat(path)));
    if k + 1 < j {
        lemma_link_is_an_obstacle(fs, base, names, k + 1, j);
    }
}

/// No symbolic links: if any path on the way down is a symbolic link, be it
/// dangling, nothing is resolved.
pub proof fn law_symbolic_links_are_rejected(
    fs: Snapshot,
    root: Seq<char>,
    rel: Seq<char>,
    base: Seq<char>,
    j: nat,
)
    requires
        fs::is_snapshot(fs),
        real_root(fs, root) == Ok::<Seq<char>, ErrorView>(base),
        0 < j <= components::components(text::without_leading_slashes(rel)).len(),
        is_link(
            fs,
            descended(base, components::components(text::without_leading_slashes(rel)), j),
        ),
    ensures
        resolved(fs, root, rel) == Err::<Seq<char>, ErrorView>(ErrorView::PathTraversal),
{
    let names = components::components(text::without_leading_slashes(rel));
    lemma_link_is_an_obstacle(fs, base, names, 0, j);
}

/// A path that cannot be looked at, for whatever reason, resolves as a missing one
/// does: where neither it nor the directory above it can be, to itself.
pub proof fn law_unseen_paths_count_as_missing(fs: Snapshot, base: Seq<char>, path: Seq<char>)
    requires
        fs(RequestView::Stat(path)) is Failed,
        components::parent(path) matches Some(above) ==> fs(RequestView::Stat(above)) is Failed,
    ensures
        presence(fs, path) == Ok::<bool, ErrorView>(false),
        concluded(fs, base, path) == Ok::<Seq<char>, ErrorView>(path),
{
}

/// A root that is a symbolic link resolves nothing, be it dangling.
pub proof fn law_symbolic_link_roots_are_rejected(fs: Snapshot, root: Seq<char>, rel: Seq<char>)
    requires
        is_link(fs, root),
    ensures
        resolved(fs, root, rel) == Err::<Seq<char>, ErrorView>(ErrorView::PathTraversal),
{
}

/// Where the real path of something that is there cannot be had, that is told.
pub proof fn law_failures_to_resolve_are_told(s: ResolveView, e: IoFailureView)
    ensures
        ({
            let told = ResolveStepView::Done(Err::<Seq<char>, ErrorView>(ErrorView::Io(e)));
            let failed = ReplyView::Failed(e);
            &&& resolve::next(ResolveView { phase: ResolvePhase::RootReal, ..s }, failed) == told
            &&& resolve::next(ResolveView { phase: ResolvePhase::EndReal, ..s }, failed) == told
            &&& resolve::next(ResolveView { phase: ResolvePhase::ParentReal, ..s }, failed) == told
        }),
{
}

/// Whatever leads out of the root is refused, and nothing else is: what is found under
/// it is handed out by its real path, what is missing by the path that was walked.
pub proof fn law_paths_are_handed_out_under_the_root(
    s: ResolveView,
    target: Seq<char>,
)
    ensures
        ({
            let reply = ReplyView::RealPath(target);
            let is_under = components::components(s.real_root).is_prefix_of(
                components::components(target),
            );
            &&& resolve::next(ResolveView { phase: ResolvePhase::EndReal, ..s }, reply)
                == ResolveStepView::Done(
                if is_under {
                    Ok(target)
                } else {
                    Err(ErrorView::PathTraversal)
                },
            )
            &&& resolve::next(ResolveView { phase: ResolvePhase::ParentReal, ..s }, reply)
                == ResolveStepView::Done(
                if is_under {
                    Ok(s.cur)
                } else {
                    Err(ErrorView::PathTraversal)
                },
            )
        }),
{
}

} // verus!
