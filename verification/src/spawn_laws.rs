//! What the start of a node comes to.

use vstd::prelude::*;
use vstd::utf8::*;

use crate::budget;
use crate::disk;
use crate::disk::Disk;
use crate::disk::Faults;
use crate::error::ErrorView;
use crate::listing;
use crate::listing::ListStepView;
use crate::listing_laws;
use crate::listing_laws::Cursor;
use crate::listing_laws::Tree;
use crate::micron;
use crate::names;
use crate::node;
use crate::node::NodeView;
use crate::rebuild;
use crate::rebuild::RebuildStepView;
use crate::rebuild::RebuildView;
use crate::rebuild::Reload;
use crate::route_laws;
use crate::routes;
use crate::spawn;
use crate::spawn::SpawnPhaseView;
use crate::spawn::SpawnReplyView;
use crate::spawn::SpawnStepView;
use crate::spawn::SpawnView;
use crate::storage::RootsView;
use crate::store_task;
use crate::store_task::OpView;
use crate::store_task::OutputView;
use crate::store_task::StoreStepView;
use crate::store_task::StoreView;

verus! {

/// What a node starts in: a file system and its faults, the directory trees that
/// are listed, whether its identity can sign, and the time.
pub struct World {
    pub faults: Faults,
    pub pages: Option<Tree>,
    pub files: Option<Tree>,
    pub signs: bool,
    pub now: u128,
}

/// The start of a node in its world.
pub struct Start {
    pub disk: Disk,
    pub at: Cursor,
    pub step: SpawnStepView,
}

/// The place of a listing that has not begun.
pub open spec fn outside(tree: Option<Tree>) -> Cursor {
    Cursor { open: Seq::empty(), node: tree }
}

/// The start after one more reply.
pub open spec fn start_next(w: World, s: Start) -> Start {
    match s.step {
        SpawnStepView::Done(_) => s,
        SpawnStepView::Ask(v) => match v.phase {
            SpawnPhaseView::Index(t) => {
                let request = store_task::request_of(t);
                let reply = disk::answer(s.disk, w.faults, request);
                Start {
                    disk: disk::changed(s.disk, w.faults, request),
                    step: spawn::spawn_next(v, SpawnReplyView::Fs(reply)),
                    ..s
                }
            },
            SpawnPhaseView::Register => Start {
                at: outside(w.pages),
                step: spawn::spawn_next(v, SpawnReplyView::Registered(w.now)),
                ..s
            },
            SpawnPhaseView::Routes(t) => {
                let reply = listing_laws::reply_at(s.at, t.listing.request);
                let at = match listing::next(t.listing, reply) {
                    ListStepView::Ask(_) => listing_laws::moved(s.at, t.listing.request),
                    ListStepView::Done(_) => outside(w.files),
                };
                Start { at, step: spawn::spawn_next(v, SpawnReplyView::List(reply)), ..s }
            },
            SpawnPhaseView::SigningKey => Start {
                step: spawn::spawn_next(v, SpawnReplyView::SigningKey(w.signs)),
                ..s
            },
        },
    }
}

/// The start after `n` more replies.
pub open spec fn start_after(w: World, s: Start, n: nat) -> Start
    decreases n,
{
    if n == 0 {
        s
    } else {
        start_after(w, start_next(w, s), (n - 1) as nat)
    }
}

proof fn lemma_start_sum(w: World, s: Start, a: nat, b: nat)
    ensures
        start_after(w, s, a + b) == start_after(w, start_after(w, s, a), b),
    decreases a,
{
    if a > 0 {
        lemma_start_sum(w, start_next(w, s), (a - 1) as nat, b);
    }
}

/// The part of the start that ensures the index page.
proof fn lemma_index(w: World, s: Start, v: SpawnView, t: StoreView) -> (m: nat)
    requires
        s.step == SpawnStepView::Ask(v),
        v.phase == SpawnPhaseView::Index(t),
        store_task::is_well_formed(t),
    ensures
        ({
            let (after, r) = disk::run(s.disk, w.faults, t);
            start_after(w, s, m) == (Start {
                disk: after,
                step: match r {
                    Err(e) => SpawnStepView::Done(Err(e)),
                    Ok(_) => SpawnStepView::Ask(
                        SpawnView { phase: SpawnPhaseView::Register, ..v },
                    ),
                },
                ..s
            })
        }),
    decreases store_task::remaining(t),
{
    let request = store_task::request_of(t);
    let reply = disk::answer(s.disk, w.faults, request);
    disk::lemma_run_step(s.disk, w.faults, t);
    store_task::lemma_task_ends(t, reply);
    let next = start_next(w, s);
    match store_task::next(t, reply) {
        StoreStepView::Ask(u) => {
            let m = lemma_index(w, next, SpawnView { phase: SpawnPhaseView::Index(u), ..v }, u);
            m + 1
        },
        StoreStepView::Done(_) => {
            assert(start_after(w, next, 0) == next);
            1
        },
    }
}

/// The part of the start that finds the routes.
proof fn lemma_routes(
    w: World,
    s: Start,
    v: SpawnView,
    t: RebuildView,
    r: Reload,
    n: nat,
    result: Result<(), ErrorView>,
) -> (m: nat)
    requires
        s.step == SpawnStepView::Ask(v),
        v.phase == SpawnPhaseView::Routes(t),
        r.step == RebuildStepView::Ask(t),
        r.at == s.at,
        r.files == w.files,
        r.table == v.node.routes,
        rebuild::reload_after(r, n).step == RebuildStepView::Done(result),
    ensures
        start_after(w, s, m).step == match result {
            Err(e) => SpawnStepView::Done(Err(e)),
            Ok(_) => SpawnStepView::Ask(
                SpawnView {
                    node: NodeView {
                        routes: rebuild::reload_after(r, n).table,
                        ..v.node
                    },
                    phase: SpawnPhaseView::SigningKey,
                },
            ),
        },
    decreases n,
{
    let after = rebuild::reload_next(r);
    let next = start_next(w, s);
    reveal_with_fuel(rebuild::reload_after, 2);
    match after.step {
        RebuildStepView::Done(_) => {
            lemma_reload_done(after, (n - 1) as nat);
            assert(start_after(w, next, 0) == next);
            1
        },
        RebuildStepView::Ask(u) => {
            let node = NodeView { routes: after.table, ..v.node };
            let m = lemma_routes(
                w,
                next,
                SpawnView { node, phase: SpawnPhaseView::Routes(u) },
                u,
                after,
                (n - 1) as nat,
                result,
            );
            m + 1
        },
    }
}

proof fn lemma_reload_done(r: Reload, n: nat)
    requires
        r.step is Done,
    ensures
        rebuild::reload_after(r, n) == r,
    decreases n,
{
    if n > 0 {
        lemma_reload_done(r, (n - 1) as nat);
    }
}

/// What the start of a node comes to: the first failure, or the node, with the
/// routes that the listings make and a budget that begins now.
pub open spec fn started_node(
    w: World,
    fresh: NodeView,
    index: Result<OutputView, ErrorView>,
) -> Result<NodeView, ErrorView> {
    match index {
        Err(e) => Err(e),
        Ok(_) => match rebuild::rebuilt(
            listing_laws::listed(w.pages),
            listing_laws::listed(w.files),
        ) {
            (_, Some(e)) => Err(e),
            (table, None) => if w.signs {
                Ok(NodeView { routes: table, budget: budget::fresh(w.now), ..fresh })
            } else {
                Err(ErrorView::Message("identity has no signing key"@))
            },
        },
    }
}

/// Does the start come to the result?
pub open spec fn comes_to(w: World, s: Start, r: Result<NodeView, ErrorView>) -> bool {
    exists|n: nat| (#[trigger] start_after(w, s, n)).step == SpawnStepView::Done(r)
}

/// Every start of a node ends. It comes to a node exactly if the index page
/// could be ensured, the listed content could be registered, and the identity
/// can sign; the node then serves what is listed, under its clamped name.
pub proof fn law_start_is_exact(
    w: World,
    d: Disk,
    at: Cursor,
    destination_hash: Seq<u8>,
    identity_hash: Seq<u8>,
    display_name: Seq<char>,
    roots: RootsView,
)
    ensures
        ({
            let name = names::kept_name(display_name);
            let task = store_task::started(
                OpView::WriteIfMissing(encode_utf8(micron::index_page(name))),
                roots.pages_dir,
                "index.mu"@,
            );
            &&& spawn::spawned(destination_hash, identity_hash, display_name, roots) matches Ok(v)
                && comes_to(
                w,
                Start { disk: d, at, step: SpawnStepView::Ask(v) },
                started_node(
                    w,
                    node::unrouted(destination_hash, identity_hash, name, roots),
                    disk::run(d, w.faults, task).1,
                ),
            )
        }),
{
    let name = names::kept_name(display_name);
    let fresh = node::unrouted(destination_hash, identity_hash, name, roots);
    let task = store_task::started(
        OpView::WriteIfMissing(encode_utf8(micron::index_page(name))),
        roots.pages_dir,
        "index.mu"@,
    );
    route_laws::law_index_path_is_accepted();
    let v = spawn::spawned(destination_hash, identity_hash, display_name, roots)->Ok_0;
    let s = Start { disk: d, at, step: SpawnStepView::Ask(v) };
    let (after, index) = disk::run(d, w.faults, task);
    let end = started_node(w, fresh, index);
    let a = lemma_index(w, s, v, task);
    let s1 = start_after(w, s, a);
    if index is Ok {
        // Register the destination.
        let s2 = start_next(w, s1);
        assert(start_after(w, s2, 0) == s2);
        assert(start_after(w, s1, 1) == s2);
        lemma_start_sum(w, s, a, 1);
        // Find the routes.
        let pages = listing_laws::listed(w.pages);
        let files = listing_laws::listed(w.files);
        let filled = rebuild::rebuilt(pages, files);
        rebuild::law_rebuild_is_exact(roots, w.pages, w.files);
        let r = rebuild::reload_started(roots, w.pages, w.files);
        let n = choose|n: nat|
            {
                let done = #[trigger] rebuild::reload_after(r, n);
                done.table == filled.0 && done.step == RebuildStepView::Done(
                    routes::outcome(filled.1),
                )
            };
        let node2 = NodeView {
            routes: Map::empty(),
            budget: budget::fresh(w.now),
            ..fresh
        };
        let v2 = SpawnView {
            node: node2,
            phase: SpawnPhaseView::Routes(rebuild::started(roots)),
        };
        let b = lemma_routes(
            w,
            s2,
            v2,
            rebuild::started(roots),
            r,
            n,
            routes::outcome(filled.1),
        );
        lemma_start_sum(w, s, a + 1, b);
        let s3 = start_after(w, s, a + 1 + b);
        if filled.1 is None {
            // Ask for the signing key.
            let s4 = start_next(w, s3);
            assert(start_after(w, s4, 0) == s4);
            assert(start_after(w, s3, 1) == s4);
            lemma_start_sum(w, s, a + 1 + b, 1);
            assert(start_after(w, s, a + 1 + b + 1).step == SpawnStepView::Done(end));
        } else {
            assert(s3.step == SpawnStepView::Done(end));
        }
    } else {
        assert(s1.step == SpawnStepView::Done(end));
    }
}

/// A node that has started has the hashes, the content directories and the caps it was
/// given, its name without what a name may not hold, and the routes of the listed
/// content; nothing is counted, nothing is in flight, and its first window begins at
/// its start, empty.
pub proof fn law_started_nodes_are_fresh(
    w: World,
    destination_hash: Seq<u8>,
    identity_hash: Seq<u8>,
    display_name: Seq<char>,
    roots: RootsView,
    index: Result<OutputView, ErrorView>,
    n: NodeView,
)
    requires
        started_node(
            w,
            node::unrouted(destination_hash, identity_hash, names::kept_name(display_name), roots),
            index,
        ) == Ok::<NodeView, ErrorView>(n),
    ensures
        n.destination_hash == destination_hash,
        n.identity_hash == identity_hash,
        n.display_name == names::kept_name(display_name),
        n.roots == roots,
        n.stats.request_count == 0,
        n.stats.page_hits == 0,
        n.stats.file_hits == 0,
        n.stats.not_found_count == 0,
        n.stats.last_request_ms == 0,
        n.budget.in_flight == 0,
        n.budget.window_start == w.now,
        n.budget.window_count == 0,
        rebuild::rebuilt(listing_laws::listed(w.pages), listing_laws::listed(w.files)) == (
            n.routes,
            None::<ErrorView>,
        ),
        index is Ok,
        w.signs,
{
}

} // verus!
