//! A model of a file system that tasks run against: what each request is
//! answered, and what it changes. It serves to state what whole runs do.

use vstd::prelude::*;

use crate::components;
use crate::error::ErrorView;
use crate::error::IoFailureView;
use crate::error::IoKind;
use crate::fs;
use crate::fs::FileKind;
use crate::fs::FileStat;
use crate::fs::ReplyView;
use crate::fs::RequestView;
use crate::fs::Snapshot;
use crate::store_task;
use crate::store_task::OutputView;
use crate::store_task::StoreStepView;
use crate::store_task::StoreView;

verus! {

/// What stands at a path.
pub enum Node {
    Directory,
    /// A regular file and its content.
    File(Seq<u8>),
    /// A symbolic link, with the canonical path it leads to, where something may or
    /// may not stand; none if it leads nowhere.
    Link(Option<Seq<char>>),
    Other,
}

/// A file system at one moment.
pub struct Disk {
    /// The one spelling of each path by which things are found.
    pub canon: spec_fn(Seq<char>) -> Seq<char>,
    /// What stands where, by canonical path.
    pub nodes: Map<Seq<char>, Node>,
    /// Nanoseconds since the Unix epoch.
    pub clock: u128,
}

/// The requests that the file system fails to carry out.
pub type Faults = spec_fn(RequestView) -> bool;

/// Is there a symbolic link at the canonical path?
pub open spec fn is_link(nodes: Map<Seq<char>, Node>, p: Seq<char>) -> bool {
    nodes.dom().contains(p) && nodes[p] is Link
}

/// Does the function give each path one spelling, free of what counts for nothing
/// at its end, and the same to what is below it?
pub open spec fn is_spelling(canon: spec_fn(Seq<char>) -> Seq<char>) -> bool {
    &&& forall|p: Seq<char>| #[trigger] canon(canon(p)) == canon(p)
    &&& forall|p: Seq<char>| components::without_trailing(#[trigger] canon(p)) == canon(p)
    &&& forall|p: Seq<char>, name: Seq<char>|
        components::is_plain_name(name) ==> canon(
            components::join(components::without_trailing(p), name),
        ) == #[trigger] canon(components::join(p, name))
}

/// Is a path below another spelled below that path's spelling, and is a path
/// spelled the same whatever counts for nothing at its end, as long as no symbolic
/// link stands there? What is reached through a symbolic link is spelled as
/// wherever the link leads has it.
pub open spec fn is_descent(
    canon: spec_fn(Seq<char>) -> Seq<char>,
    nodes: Map<Seq<char>, Node>,
) -> bool {
    &&& forall|p: Seq<char>|
        !is_link(nodes, canon(components::without_trailing(p))) ==> #[trigger] canon(
            components::without_trailing(p),
        ) == canon(p)
    &&& forall|p: Seq<char>, name: Seq<char>|
        components::is_plain_name(name) && !is_link(nodes, canon(p)) ==> #[trigger] canon(
            components::join(p, name),
        ) == components::join(canon(p), name)
}

/// Is everything in a directory that is there?
pub open spec fn is_tree(nodes: Map<Seq<char>, Node>) -> bool {
    forall|p: Seq<char>, q: Seq<char>|
        nodes.dom().contains(p) && #[trigger] components::parent(p) == Some(q)
            ==> #[trigger] is_directory(nodes, q)
}

/// Is there a directory at the path?
pub open spec fn is_directory(nodes: Map<Seq<char>, Node>, p: Seq<char>) -> bool {
    nodes.dom().contains(p) && nodes[p] == Node::Directory
}

/// A file system whose paths have one spelling and whose nodes form a tree. A
/// directory above the content may be reached through symbolic links.
pub open spec fn is_disk(d: Disk) -> bool {
    is_spelling(d.canon) && is_descent(d.canon, d.nodes) && is_tree(d.nodes)
}

/// What stands at the path, if anything does.
pub open spec fn node_at(d: Disk, p: Seq<char>) -> Option<Node> {
    let c = (d.canon)(p);
    if d.nodes.dom().contains(c) {
        Some(d.nodes[c])
    } else {
        None
    }
}

/// The canonical path that the path leads to, be it through a symbolic link.
pub open spec fn reached(d: Disk, p: Seq<char>) -> Seq<char> {
    match node_at(d, p) {
        Some(Node::Link(Some(target))) => target,
        _ => (d.canon)(p),
    }
}

/// What stands at the end of the path, be it reached through a symbolic link.
pub open spec fn node_reached(d: Disk, p: Seq<char>) -> Option<Node> {
    let c = reached(d, p);
    if d.nodes.dom().contains(c) {
        Some(d.nodes[c])
    } else {
        None
    }
}

/// Nothing stands at the path.
pub open spec fn missing() -> ReplyView {
    ReplyView::Failed(IoFailureView { kind: IoKind::NotFound, text: "not found"@ })
}

/// The request could not be carried out.
pub open spec fn refused() -> ReplyView {
    ReplyView::Failed(IoFailureView { kind: IoKind::Other, text: "refused"@ })
}

/// What the file system tells about a node.
pub open spec fn stat_of(node: Node) -> FileStat {
    match node {
        Node::Directory => FileStat { kind: FileKind::Directory, len: 0, modified_ms: None },
        Node::File(b) => FileStat {
            kind: FileKind::Regular,
            len: b.len() as u64,
            modified_ms: None,
        },
        Node::Link(_) => FileStat { kind: FileKind::Symlink, len: 0, modified_ms: None },
        Node::Other => FileStat { kind: FileKind::Other, len: 0, modified_ms: None },
    }
}

/// The nodes with the directory `p` and its missing ancestors.
pub open spec fn made(nodes: Map<Seq<char>, Node>, p: Seq<char>) -> Map<Seq<char>, Node>
    decreases p.len(),
    via made_decreases
{
    if nodes.dom().contains(p) {
        nodes
    } else {
        match components::parent(p) {
            Some(q) => made(nodes, q).insert(p, Node::Directory),
            None => nodes.insert(p, Node::Directory),
        }
    }
}

#[via_fn]
proof fn made_decreases(nodes: Map<Seq<char>, Node>, p: Seq<char>) {
    components::lemma_parent_is_shorter(p);
}

/// Does something that is no directory stand in the way of the directory `p`?
pub open spec fn blocked(nodes: Map<Seq<char>, Node>, p: Seq<char>) -> bool
    decreases p.len(),
    via blocked_decreases
{
    if nodes.dom().contains(p) {
        nodes[p] != Node::Directory
    } else {
        match components::parent(p) {
            Some(q) => blocked(nodes, q),
            None => false,
        }
    }
}

#[via_fn]
proof fn blocked_decreases(nodes: Map<Seq<char>, Node>, p: Seq<char>) {
    components::lemma_parent_is_shorter(p);
}

/// Can a file be put at the canonical path `p`?
pub open spec fn has_room(nodes: Map<Seq<char>, Node>, p: Seq<char>) -> bool {
    &&& components::parent(p) matches Some(q) && is_directory(nodes, q)
    &&& !is_directory(nodes, p)
}

/// Does something other than a directory stand at the canonical path `p`?
pub open spec fn is_removable(nodes: Map<Seq<char>, Node>, p: Seq<char>) -> bool {
    nodes.dom().contains(p) && nodes[p] != Node::Directory
}

/// `Done` if the condition holds.
pub open spec fn done_if(b: bool) -> ReplyView {
    if b {
        ReplyView::Done
    } else {
        refused()
    }
}

/// What a file system without faults answers.
pub open spec fn sound_answer(d: Disk, request: RequestView) -> ReplyView {
    match request {
        RequestView::Stat(p) => match node_at(d, p) {
            None => missing(),
            Some(node) => ReplyView::Stat(stat_of(node)),
        },
        RequestView::RealPath(p) => match node_reached(d, p) {
            None | Some(Node::Link(_)) => missing(),
            Some(_) => ReplyView::RealPath(reached(d, p)),
        },
        RequestView::MakeDirs(p) => done_if(
            if is_link(d.nodes, (d.canon)(p)) {
                is_directory(d.nodes, reached(d, p))
            } else {
                !blocked(d.nodes, (d.canon)(p))
            },
        ),
        RequestView::Clock => ReplyView::Clock(d.clock),
        RequestView::Read(p, limit) => match node_reached(d, p) {
            None => missing(),
            Some(Node::File(b)) => ReplyView::Bytes(
                if b.len() <= limit {
                    b
                } else {
                    b.take(limit as int)
                },
            ),
            Some(_) => refused(),
        },
        RequestView::Write(p, _) => done_if(
            has_room(d.nodes, reached(d, p)) && !is_link(d.nodes, reached(d, p)),
        ),
        RequestView::Rename(from, to) => done_if(
            is_removable(d.nodes, (d.canon)(from)) && has_room(d.nodes, (d.canon)(to)),
        ),
        RequestView::Remove(p) => done_if(is_removable(d.nodes, (d.canon)(p))),
    }
}

/// What the file system answers; of what can fail, the faults do.
pub open spec fn answer(d: Disk, faults: Faults, request: RequestView) -> ReplyView {
    if faults(request) && !(request is Clock) {
        refused()
    } else {
        sound_answer(d, request)
    }
}

/// The file system after the request.
pub open spec fn changed(d: Disk, faults: Faults, request: RequestView) -> Disk {
    if answer(d, faults, request) != ReplyView::Done {
        d
    } else {
        let nodes = match request {
            RequestView::MakeDirs(p) => made(d.nodes, (d.canon)(p)),
            RequestView::Write(p, content) => d.nodes.insert(reached(d, p), Node::File(content)),
            RequestView::Rename(from, to) => d.nodes.remove((d.canon)(from)).insert(
                (d.canon)(to),
                d.nodes[(d.canon)(from)],
            ),
            RequestView::Remove(p) => d.nodes.remove((d.canon)(p)),
            _ => d.nodes,
        };
        Disk { nodes, ..d }
    }
}

/// The file system as it stands, request by request.
pub open spec fn snapshot(d: Disk, faults: Faults) -> Snapshot {
    |request: RequestView| answer(d, faults, request)
}

/// No request fails without cause.
pub open spec fn no_faults() -> Faults {
    |request: RequestView| false
}

/// Each request gets a fitting answer.
pub proof fn lemma_answers_fit(d: Disk, faults: Faults)
    ensures
        fs::is_snapshot(snapshot(d, faults)),
{
    assert forall|request: RequestView| fs::answers(
        #[trigger] snapshot(d, faults)(request),
        request,
    ) by {}
}

/// A task carried out to its end: the file system it leaves and its result.
pub open spec fn run(d: Disk, faults: Faults, s: StoreView) -> (
    Disk,
    Result<OutputView, ErrorView>,
)
    decreases store_task::remaining(s),
    when store_task::is_well_formed(s)
    via run_ends
{
    let request = store_task::request_of(s);
    let after = changed(d, faults, request);
    match store_task::next(s, answer(d, faults, request)) {
        StoreStepView::Done(r) => (after, r),
        StoreStepView::Ask(t) => run(after, faults, t),
    }
}

#[via_fn]
proof fn run_ends(d: Disk, faults: Faults, s: StoreView) {
    store_task::lemma_task_ends(s, answer(d, faults, store_task::request_of(s)));
}

/// The end of a run that has come to `step`.
pub open spec fn run_from(d: Disk, faults: Faults, step: StoreStepView) -> (
    Disk,
    Result<OutputView, ErrorView>,
) {
    match step {
        StoreStepView::Done(r) => (d, r),
        StoreStepView::Ask(t) => run(d, faults, t),
    }
}

/// One step of a run.
pub proof fn lemma_run_step(d: Disk, faults: Faults, s: StoreView)
    requires
        store_task::is_well_formed(s),
    ensures
        ({
            let request = store_task::request_of(s);
            run(d, faults, s) == run_from(
                changed(d, faults, request),
                faults,
                store_task::next(s, answer(d, faults, request)),
            )
        }),
        store_task::next(s, answer(d, faults, store_task::request_of(s))) matches StoreStepView::Ask(
            t,
        ) ==> store_task::is_well_formed(t) && t.op == s.op && t.rel == s.rel,
{
    store_task::lemma_task_ends(s, answer(d, faults, store_task::request_of(s)));
}

/// Creating a directory keeps the tree, and adds nothing but directories.
pub proof fn lemma_made(nodes: Map<Seq<char>, Node>, p: Seq<char>)
    requires
        is_tree(nodes),
        !blocked(nodes, p),
    ensures
        is_tree(made(nodes, p)),
        is_directory(made(nodes, p), p),
        forall|x: Seq<char>| #[trigger]
            nodes.dom().contains(x) ==> made(nodes, p).dom().contains(x) && made(nodes, p)[x]
                == nodes[x],
        forall|x: Seq<char>| #[trigger]
            made(nodes, p).dom().contains(x) ==> nodes.dom().contains(x) || (x.len() <= p.len()
                && made(nodes, p)[x] == Node::Directory),
    decreases p.len(),
{
    if !nodes.dom().contains(p) {
        let m = made(nodes, p);
        match components::parent(p) {
            Some(q) => {
                components::lemma_parent_is_shorter(p);
                lemma_made(nodes, q);
                let below = made(nodes, q);
                assert forall|x: Seq<char>, y: Seq<char>|
                    m.dom().contains(x) && #[trigger] components::parent(x) == Some(
                        y,
                    ) implies #[trigger] is_directory(m, y) by {
                    if x == p {
                        assert(is_directory(below, q));
                    } else {
                        assert(is_directory(below, y));
                    }
                }
            },
            None => {
                assert forall|x: Seq<char>, y: Seq<char>|
                    m.dom().contains(x) && #[trigger] components::parent(x) == Some(
                        y,
                    ) implies #[trigger] is_directory(m, y) by {
                    assert(is_directory(nodes, y));
                }
            },
        }
    }
}

/// No request breaks the tree.
pub proof fn lemma_tree_is_kept(d: Disk, faults: Faults, request: RequestView)
    requires
        is_tree(d.nodes),
    ensures
        is_tree(changed(d, faults, request).nodes),
{
    let after = changed(d, faults, request);
    if answer(d, faults, request) == ReplyView::Done {
        match request {
            RequestView::MakeDirs(p) => if !is_link(d.nodes, (d.canon)(p)) {
                lemma_made(d.nodes, (d.canon)(p));
            },
            RequestView::Write(_, _) | RequestView::Rename(_, _) | RequestView::Remove(_) => {
                assert forall|x: Seq<char>, y: Seq<char>|
                    after.nodes.dom().contains(x) && #[trigger] components::parent(x) == Some(
                        y,
                    ) implies #[trigger] is_directory(after.nodes, y) by {
                    components::lemma_parent_is_shorter(x);
                    assert(is_directory(d.nodes, y));
                }
            },
            _ => {},
        }
    }
}

/// Do the same paths have symbolic links?
pub open spec fn has_same_links(
    before: Map<Seq<char>, Node>,
    after: Map<Seq<char>, Node>,
) -> bool {
    forall|p: Seq<char>| #[trigger] is_link(after, p) <==> is_link(before, p)
}

/// A file system stays one as long as its links do.
pub proof fn lemma_disk_is_kept(d: Disk, after: Disk)
    requires
        is_disk(d),
        after.canon == d.canon,
        is_tree(after.nodes),
        has_same_links(d.nodes, after.nodes),
    ensures
        is_disk(after),
{
}

/// Does the request leave symbolic links alone?
pub open spec fn spares_links(d: Disk, request: RequestView) -> bool {
    match request {
        RequestView::Rename(from, to) => !is_link(d.nodes, (d.canon)(from)) && !is_link(
            d.nodes,
            (d.canon)(to),
        ),
        RequestView::Remove(p) => !is_link(d.nodes, (d.canon)(p)),
        _ => true,
    }
}

/// A request that leaves symbolic links alone adds none.
pub proof fn lemma_links_stay(d: Disk, faults: Faults, request: RequestView)
    requires
        is_tree(d.nodes),
        spares_links(d, request),
    ensures
        has_same_links(d.nodes, changed(d, faults, request).nodes),
{
    let after = changed(d, faults, request);
    if answer(d, faults, request) == ReplyView::Done {
        match request {
            RequestView::MakeDirs(p) => if !is_link(d.nodes, (d.canon)(p)) {
                lemma_made(d.nodes, (d.canon)(p));
                assert forall|x: Seq<char>| #[trigger] is_link(after.nodes, x) <==> is_link(
                    d.nodes,
                    x,
                ) by {
                    assert(d.nodes.dom().contains(x) || !d.nodes.dom().contains(x));
                }
            },
            _ => {},
        }
    }
}

} // verus!
