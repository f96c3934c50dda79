//! What holds of every request, carried out to its answer.

use vstd::prelude::*;
use vstd::utf8::*;

use crate::budget;
use crate::disk;
use crate::disk::Disk;
use crate::disk::Faults;
use crate::disk::Node;
use crate::error::ErrorView;
use crate::micron;
use crate::node;
use crate::node::ContentKind;
use crate::node::DropView;
use crate::node::NodeView;
use crate::node::OutcomeView;
use crate::node::ServeStepView;
use crate::node::ServeView;
use crate::paths;
use crate::paths::FILE_PREFIX;
use crate::paths::PAGE_PREFIX;
use crate::rebuild;
use crate::route_laws;
use crate::stats::CountersView;
use crate::store_laws;
use crate::store_task;
use crate::store_task::OpView;
use crate::store_task::OutputView;
use crate::store_task::StoreStepView;
use crate::text;

verus! {

/// A request carried out to its end: the node and the file system it leaves, and
/// its answer.
pub open spec fn serve(n: NodeView, d: Disk, faults: Faults, step: ServeStepView) -> (
    NodeView,
    Disk,
    OutcomeView,
)
    decreases
            match step {
                ServeStepView::Read(s) => 1 + store_task::remaining(s.read),
                ServeStepView::Answer(_) => 0,
            },
    when step matches ServeStepView::Read(s) ==> store_task::is_well_formed(s.read)
    via serve_ends
{
    match step {
        ServeStepView::Answer(outcome) => (n, d, outcome),
        ServeStepView::Read(s) => {
            let request = store_task::request_of(s.read);
            let (after, next) = node::resumed(n, s, disk::answer(d, faults, request));
            serve(after, disk::changed(d, faults, request), faults, next)
        },
    }
}

#[via_fn]
proof fn serve_ends(n: NodeView, d: Disk, faults: Faults, step: ServeStepView) {
    match step {
        ServeStepView::Read(s) => {
            let request = store_task::request_of(s.read);
            store_task::lemma_task_ends(s.read, disk::answer(d, faults, request));
        },
        ServeStepView::Answer(_) => {},
    }
}

/// A request for a hash, from its arrival to its answer.
pub open spec fn answered(
    n: NodeView,
    d: Disk,
    faults: Faults,
    hash: Seq<u8>,
    now: u128,
    now_ms: u64,
) -> (NodeView, Disk, OutcomeView) {
    let (after, step) = node::received(n, hash, now, now_ms);
    serve(after, d, faults, step)
}

/// A request that reads ends as its read does.
proof fn lemma_serve_reads(n: NodeView, d: Disk, faults: Faults, s: ServeView)
    requires
        store_task::is_well_formed(s.read),
    ensures
        ({
            let (after, result) = disk::run(d, faults, s.read);
            let (m, outcome) = node::concluded(n, s.kind, s.route, result);
            serve(n, d, faults, ServeStepView::Read(s)) == (m, after, outcome)
        }),
    decreases store_task::remaining(s.read),
{
    let request = store_task::request_of(s.read);
    let reply = disk::answer(d, faults, request);
    disk::lemma_run_step(d, faults, s.read);
    store_task::lemma_task_ends(s.read, reply);
    match store_task::next(s.read, reply) {
        StoreStepView::Ask(read) => {
            lemma_serve_reads(n, disk::changed(d, faults, request), faults, ServeView { read, ..s });
        },
        StoreStepView::Done(result) => {
            let (m, outcome) = node::concluded(n, s.kind, s.route, result);
            let after = disk::changed(d, faults, request);
            assert(serve(m, after, faults, ServeStepView::Answer(outcome)) == (m, after, outcome));
        },
    }
}

/// The answer to a request for the page `rel`, by what its read gives.
proof fn lemma_page_answer(
    n: NodeView,
    d: Disk,
    faults: Faults,
    route: Seq<char>,
    rel: Seq<char>,
    now: u128,
    now_ms: u64,
)
    requires
        budget::admits(n.budget, now),
        rebuild::serves(n.routes, route),
        PAGE_PREFIX@.is_prefix_of(route),
        paths::page_relative(route) == Ok::<Seq<char>, ErrorView>(rel),
        store_laws::is_request(rel),
    ensures
        ({
            let read = store_task::started(
                OpView::Read(n.roots.max_page_bytes),
                n.roots.pages_dir,
                rel,
            );
            let (after, result) = disk::run(d, faults, read);
            let (m, outcome) = node::concluded(
                node::admitted(n, now, now_ms),
                ContentKind::Page,
                route,
                result,
            );
            answered(n, d, faults, paths::route_hash(route), now, now_ms) == (m, after, outcome)
        }),
{
    let read = store_task::started(OpView::Read(n.roots.max_page_bytes), n.roots.pages_dir, rel);
    lemma_serve_reads(
        node::admitted(n, now, now_ms),
        d,
        faults,
        ServeView { kind: ContentKind::Page, route, read },
    );
}

/// The answer to a request for the file `rel`, by what its read gives.
proof fn lemma_file_answer(
    n: NodeView,
    d: Disk,
    faults: Faults,
    route: Seq<char>,
    rel: Seq<char>,
    now: u128,
    now_ms: u64,
)
    requires
        budget::admits(n.budget, now),
        rebuild::serves(n.routes, route),
        FILE_PREFIX@.is_prefix_of(route),
        paths::file_relative(route) == Ok::<Seq<char>, ErrorView>(rel),
        store_laws::is_request(rel),
    ensures
        ({
            let read = store_task::started(
                OpView::Read(n.roots.max_file_bytes),
                n.roots.files_dir,
                rel,
            );
            let (after, result) = disk::run(d, faults, read);
            let (m, outcome) = node::concluded(
                node::admitted(n, now, now_ms),
                ContentKind::File,
                route,
                result,
            );
            answered(n, d, faults, paths::route_hash(route), now, now_ms) == (m, after, outcome)
        }),
{
    let read = store_task::started(OpView::Read(n.roots.max_file_bytes), n.roots.files_dir, rel);
    reveal_strlit("/page/");
    reveal_strlit("/file/");
    assert(!PAGE_PREFIX@.is_prefix_of(route)) by {
        if PAGE_PREFIX@.is_prefix_of(route) {
            assert(route.subrange(0, 6)[1] == 'p');
            assert(route.subrange(0, 6)[1] == 'f');
        }
    }
    lemma_serve_reads(
        node::admitted(n, now, now_ms),
        d,
        faults,
        ServeView { kind: ContentKind::File, route, read },
    );
}

/// A page that is registered and there, at the end of a straight way, is served as it
/// is, and counted.
pub proof fn lemma_laid_out_page_is_served(
    n: NodeView,
    d: Disk,
    path: Seq<char>,
    content: Seq<u8>,
    now: u128,
    now_ms: u64,
)
    requires
        budget::admits(n.budget, now),
        paths::page_route(path) is Ok,
        rebuild::serves(n.routes, paths::page_route(path)->Ok_0),
        ({
            let rel = paths::page_route(path)->Ok_0.skip(PAGE_PREFIX@.len() as int);
            let place = store_laws::place(d, n.roots.pages_dir, rel);
            &&& store_laws::is_laid_out(d, n.roots.pages_dir, rel)
            &&& store_laws::names_of(rel).len() <= usize::MAX
            &&& d.nodes.dom().contains(place)
            &&& d.nodes[place] == Node::File(content)
        }),
        content.len() <= n.roots.max_page_bytes,
    ensures
        ({
            let route = paths::page_route(path)->Ok_0;
            answered(n, d, disk::no_faults(), paths::route_hash(route), now, now_ms) == (
                node::released(node::page_served(node::admitted(n, now, now_ms))),
                d,
                OutcomeView::Reply(content),
            )
        }),
{
    let route = paths::page_route(path)->Ok_0;
    let rel = route.skip(PAGE_PREFIX@.len() as int);
    route_laws::law_page_route_strips_to_its_path(path);
    assert(PAGE_PREFIX@.is_prefix_of(route)) by {
        assert(route.subrange(0, PAGE_PREFIX@.len() as int) =~= PAGE_PREFIX@);
    }
    lemma_page_answer(n, d, disk::no_faults(), route, rel, now, now_ms);
    store_laws::lemma_laid_out_content_is_read(
        d,
        n.roots.pages_dir,
        rel,
        content,
        n.roots.max_page_bytes,
    );
}

/// A page that is registered and there is served as it is, and counted.
pub proof fn law_registered_page_is_served(
    n: NodeView,
    d: Disk,
    path: Seq<char>,
    content: Seq<u8>,
    now: u128,
    now_ms: u64,
)
    requires
        disk::is_disk(d),
        budget::admits(n.budget, now),
        paths::page_route(path) is Ok,
        rebuild::serves(n.routes, paths::page_route(path)->Ok_0),
        ({
            let rel = paths::page_route(path)->Ok_0.skip(PAGE_PREFIX@.len() as int);
            let place = store_laws::place(d, n.roots.pages_dir, rel);
            &&& store_laws::names_of(rel).len() <= usize::MAX
            &&& d.nodes.dom().contains(place)
            &&& d.nodes[place] == Node::File(content)
        }),
        content.len() <= n.roots.max_page_bytes,
    ensures
        ({
            let route = paths::page_route(path)->Ok_0;
            answered(n, d, disk::no_faults(), paths::route_hash(route), now, now_ms) == (
                node::released(node::page_served(node::admitted(n, now, now_ms))),
                d,
                OutcomeView::Reply(content),
            )
        }),
{
    let rel = paths::page_route(path)->Ok_0.skip(PAGE_PREFIX@.len() as int);
    route_laws::law_page_route_strips_to_its_path(path);
    store_laws::lemma_content_is_laid_out(d, n.roots.pages_dir, rel);
    lemma_laid_out_page_is_served(n, d, path, content, now, now_ms);
}

/// A file that is registered and there, at the end of a straight way, is served as it
/// is, and counted.
pub proof fn lemma_laid_out_file_is_served(
    n: NodeView,
    d: Disk,
    path: Seq<char>,
    content: Seq<u8>,
    now: u128,
    now_ms: u64,
)
    requires
        budget::admits(n.budget, now),
        paths::file_route(path) is Ok,
        rebuild::serves(n.routes, paths::file_route(path)->Ok_0),
        ({
            let rel = paths::file_route(path)->Ok_0.skip(FILE_PREFIX@.len() as int);
            let place = store_laws::place(d, n.roots.files_dir, rel);
            &&& store_laws::is_laid_out(d, n.roots.files_dir, rel)
            &&& store_laws::names_of(rel).len() <= usize::MAX
            &&& d.nodes.dom().contains(place)
            &&& d.nodes[place] == Node::File(content)
        }),
        content.len() <= n.roots.max_file_bytes,
    ensures
        ({
            let route = paths::file_route(path)->Ok_0;
            answered(n, d, disk::no_faults(), paths::route_hash(route), now, now_ms) == (
                node::released(node::file_served(node::admitted(n, now, now_ms))),
                d,
                OutcomeView::Reply(content),
            )
        }),
{
    let route = paths::file_route(path)->Ok_0;
    let rel = route.skip(FILE_PREFIX@.len() as int);
    route_laws::law_file_route_strips_to_its_path(path);
    assert(FILE_PREFIX@.is_prefix_of(route)) by {
        assert(route.subrange(0, FILE_PREFIX@.len() as int) =~= FILE_PREFIX@);
    }
    lemma_file_answer(n, d, disk::no_faults(), route, rel, now, now_ms);
    store_laws::lemma_laid_out_content_is_read(
        d,
        n.roots.files_dir,
        rel,
        content,
        n.roots.max_file_bytes,
    );
}

/// A file that is registered and there is served as it is, and counted.
pub proof fn law_registered_file_is_served(
    n: NodeView,
    d: Disk,
    path: Seq<char>,
    content: Seq<u8>,
    now: u128,
    now_ms: u64,
)
    requires
        disk::is_disk(d),
        budget::admits(n.budget, now),
        paths::file_route(path) is Ok,
        rebuild::serves(n.routes, paths::file_route(path)->Ok_0),
        ({
            let rel = paths::file_route(path)->Ok_0.skip(FILE_PREFIX@.len() as int);
            let place = store_laws::place(d, n.roots.files_dir, rel);
            &&& store_laws::names_of(rel).len() <= usize::MAX
            &&& d.nodes.dom().contains(place)
            &&& d.nodes[place] == Node::File(content)
        }),
        content.len() <= n.roots.max_file_bytes,
    ensures
        ({
            let route = paths::file_route(path)->Ok_0;
            answered(n, d, disk::no_faults(), paths::route_hash(route), now, now_ms) == (
                node::released(node::file_served(node::admitted(n, now, now_ms))),
                d,
                OutcomeView::Reply(content),
            )
        }),
{
    let rel = paths::file_route(path)->Ok_0.skip(FILE_PREFIX@.len() as int);
    route_laws::law_file_route_strips_to_its_path(path);
    store_laws::lemma_content_is_laid_out(d, n.roots.files_dir, rel);
    lemma_laid_out_file_is_served(n, d, path, content, now, now_ms);
}

/// What was written as a page is what a request for its route gets, once the
/// route is registered.
pub proof fn law_written_page_is_served(
    n: NodeView,
    d: Disk,
    faults: Faults,
    rel: Seq<char>,
    content: Seq<u8>,
    now: u128,
    now_ms: u64,
)
    requires
        disk::is_disk(d),
        store_laws::is_request(rel),
        store_laws::links_above_are_told(d, faults, n.roots.pages_dir, rel),
        !disk::is_link(d.nodes, store_laws::temp_place(d, n.roots.pages_dir, rel)),
        text::trimmed(rel) == rel,
        rel[0] != '/',
        content.len() <= n.roots.max_page_bytes,
        disk::run(
            d,
            faults,
            store_task::started(OpView::Write(content), n.roots.pages_dir, rel),
        ).1 is Ok,
        rebuild::serves(n.routes, PAGE_PREFIX@ + rel),
        budget::admits(n.budget, now),
    ensures
        ({
            let after = disk::run(
                d,
                faults,
                store_task::started(OpView::Write(content), n.roots.pages_dir, rel),
            ).0;
            answered(
                n,
                after,
                disk::no_faults(),
                paths::route_hash(PAGE_PREFIX@ + rel),
                now,
                now_ms,
            ).2 == OutcomeView::Reply(content)
        }),
{
    let route = PAGE_PREFIX@ + rel;
    let after = disk::run(
        d,
        faults,
        store_task::started(OpView::Write(content), n.roots.pages_dir, rel),
    ).0;
    route_laws::law_stored_page_has_its_route(rel);
    route_laws::law_page_route_strips_to_its_path(rel);
    assert(route.skip(PAGE_PREFIX@.len() as int) =~= rel);
    assert(PAGE_PREFIX@.is_prefix_of(route)) by {
        assert(route.subrange(0, PAGE_PREFIX@.len() as int) =~= PAGE_PREFIX@);
    }
    lemma_page_answer(n, after, disk::no_faults(), route, rel, now, now_ms);
    store_laws::law_read_gives_back_what_was_written(
        d,
        faults,
        n.roots.pages_dir,
        rel,
        content,
        n.roots.max_page_bytes,
    );
}

/// What was written as a file is what a request for its route gets, once the
/// route is registered.
pub proof fn law_written_file_is_served(
    n: NodeView,
    d: Disk,
    faults: Faults,
    rel: Seq<char>,
    content: Seq<u8>,
    now: u128,
    now_ms: u64,
)
    requires
        disk::is_disk(d),
        store_laws::is_request(rel),
        store_laws::links_above_are_told(d, faults, n.roots.files_dir, rel),
        !disk::is_link(d.nodes, store_laws::temp_place(d, n.roots.files_dir, rel)),
        text::trimmed(rel) == rel,
        rel[0] != '/',
        content.len() <= n.roots.max_file_bytes,
        disk::run(
            d,
            faults,
            store_task::started(OpView::Write(content), n.roots.files_dir, rel),
        ).1 is Ok,
        rebuild::serves(n.routes, FILE_PREFIX@ + rel),
        budget::admits(n.budget, now),
    ensures
        ({
            let after = disk::run(
                d,
                faults,
                store_task::started(OpView::Write(content), n.roots.files_dir, rel),
            ).0;
            answered(
                n,
                after,
                disk::no_faults(),
                paths::route_hash(FILE_PREFIX@ + rel),
                now,
                now_ms,
            ).2 == OutcomeView::Reply(content)
        }),
{
    let route = FILE_PREFIX@ + rel;
    let after = disk::run(
        d,
        faults,
        store_task::started(OpView::Write(content), n.roots.files_dir, rel),
    ).0;
    route_laws::law_stored_file_has_its_route(rel);
    route_laws::law_file_route_strips_to_its_path(rel);
    assert(route.skip(FILE_PREFIX@.len() as int) =~= rel);
    assert(FILE_PREFIX@.is_prefix_of(route)) by {
        assert(route.subrange(0, FILE_PREFIX@.len() as int) =~= FILE_PREFIX@);
    }
    lemma_file_answer(n, after, disk::no_faults(), route, rel, now, now_ms);
    store_laws::law_read_gives_back_what_was_written(
        d,
        faults,
        n.roots.files_dir,
        rel,
        content,
        n.roots.max_file_bytes,
    );
}

/// A registered page that is gone is answered with a page that names its route;
/// a registered file that is gone is not answered. Both are counted as missing.
pub proof fn law_missing_content_is_answered(
    n: NodeView,
    d: Disk,
    path: Seq<char>,
    now: u128,
    now_ms: u64,
)
    requires
        disk::is_disk(d),
        budget::admits(n.budget, now),
    ensures
        ({
            let route = paths::page_route(path)->Ok_0;
            let rel = route.skip(PAGE_PREFIX@.len() as int);
            &&& paths::page_route(path) is Ok
            &&& rebuild::serves(n.routes, route)
            &&& store_laws::names_of(rel).len() <= usize::MAX
            &&& is_absent(d, n.roots.pages_dir, rel)
        }) ==> {
            let route = paths::page_route(path)->Ok_0;
            answered(n, d, disk::no_faults(), paths::route_hash(route), now, now_ms) == (
                node::released(node::missed(node::admitted(n, now, now_ms))),
                d,
                OutcomeView::Reply(encode_utf8(micron::missing_page(route))),
            )
        },
        ({
            let route = paths::file_route(path)->Ok_0;
            let rel = route.skip(FILE_PREFIX@.len() as int);
            &&& paths::file_route(path) is Ok
            &&& rebuild::serves(n.routes, route)
            &&& store_laws::names_of(rel).len() <= usize::MAX
            &&& is_absent(d, n.roots.files_dir, rel)
        }) ==> {
            let route = paths::file_route(path)->Ok_0;
            answered(n, d, disk::no_faults(), paths::route_hash(route), now, now_ms) == (
                node::released(node::missed(node::admitted(n, now, now_ms))),
                d,
                OutcomeView::Drop(DropView::NotThere),
            )
        },
{
    if paths::page_route(path) is Ok {
        let route = paths::page_route(path)->Ok_0;
        let rel = route.skip(PAGE_PREFIX@.len() as int);
        route_laws::law_page_route_strips_to_its_path(path);
        assert(PAGE_PREFIX@.is_prefix_of(route)) by {
            assert(route.subrange(0, PAGE_PREFIX@.len() as int) =~= PAGE_PREFIX@);
        }
        if rebuild::serves(n.routes, route) && store_laws::names_of(rel).len() <= usize::MAX
            && is_absent(d, n.roots.pages_dir, rel) {
            lemma_page_answer(n, d, disk::no_faults(), route, rel, now, now_ms);
            store_laws::law_missing_content_is_not_found(
                d,
                n.roots.pages_dir,
                rel,
                OpView::Read(n.roots.max_page_bytes),
            );
        }
    }
    if paths::file_route(path) is Ok {
        let route = paths::file_route(path)->Ok_0;
        let rel = route.skip(FILE_PREFIX@.len() as int);
        route_laws::law_file_route_strips_to_its_path(path);
        assert(FILE_PREFIX@.is_prefix_of(route)) by {
            assert(route.subrange(0, FILE_PREFIX@.len() as int) =~= FILE_PREFIX@);
        }
        if rebuild::serves(n.routes, route) && store_laws::names_of(rel).len() <= usize::MAX
            && is_absent(d, n.roots.files_dir, rel) {
            lemma_file_answer(n, d, disk::no_faults(), route, rel, now, now_ms);
            store_laws::law_missing_content_is_not_found(
                d,
                n.roots.files_dir,
                rel,
                OpView::Read(n.roots.max_file_bytes),
            );
        }
    }
}

/// Is the directory of the content there, and the content not?
pub open spec fn is_absent(d: Disk, root: Seq<char>, rel: Seq<char>) -> bool {
    &&& disk::is_directory(d.nodes, store_laws::folder(d, root, rel))
    &&& !d.nodes.dom().contains(store_laws::place(d, root, rel))
}

/// A hash that no route has is answered with the page for unknown routes; the
/// file system is not asked anything, whatever it holds.
pub proof fn law_unknown_hash_asks_nothing(
    n: NodeView,
    d: Disk,
    faults: Faults,
    hash: Seq<u8>,
    now: u128,
    now_ms: u64,
)
    requires
        budget::admits(n.budget, now),
        !n.routes.dom().contains(hash),
    ensures
        node::received(n, hash, now, now_ms).1 is Answer,
        answered(n, d, faults, hash, now, now_ms) == (
            node::released(node::missed(node::admitted(n, now, now_ms))),
            d,
            OutcomeView::Reply(encode_utf8(micron::missing_page("/page/unknown"@))),
        ),
{
}

/// A request over the budget is dropped: it is not counted, and the file system
/// is not asked anything.
pub proof fn law_requests_over_the_budget_are_dropped(
    n: NodeView,
    d: Disk,
    faults: Faults,
    hash: Seq<u8>,
    now: u128,
    now_ms: u64,
)
    requires
        !budget::admits(n.budget, now),
    ensures
        ({
            let (after, left, outcome) = answered(n, d, faults, hash, now, now_ms);
            &&& outcome == OutcomeView::Drop(DropView::OverBudget)
            &&& left == d
            &&& after.stats == n.stats
            &&& after.budget.in_flight == n.budget.in_flight
        }),
{
}

proof fn lemma_serving_keeps(n: NodeView, d: Disk, faults: Faults, step: ServeStepView)
    requires
        step matches ServeStepView::Read(s) ==> store_task::is_well_formed(s.read),
    ensures
        ({
            let after = serve(n, d, faults, step).0;
            &&& after.routes == n.routes
            &&& after.roots == n.roots
            &&& after.display_name == n.display_name
            &&& after.destination_hash == n.destination_hash
            &&& after.identity_hash == n.identity_hash
            &&& step is Answer ==> after == n
            &&& step is Read ==> after.budget == budget::after_release(n.budget)
        }),
{
    match step {
        ServeStepView::Read(s) => lemma_serve_reads(n, d, faults, s),
        ServeStepView::Answer(_) => {},
    }
}

/// No request, whatever its hash and whatever becomes of it, changes the routes,
/// the content directories or the name; and none keeps its place in the budget
/// once it is answered.
pub proof fn law_requests_leave_the_node_as_it_was(
    n: NodeView,
    d: Disk,
    faults: Faults,
    hash: Seq<u8>,
    now: u128,
    now_ms: u64,
)
    requires
        node::received(n, hash, now, now_ms).1 matches ServeStepView::Read(s)
            ==> store_task::is_well_formed(s.read),
    ensures
        ({
            let after = answered(n, d, faults, hash, now, now_ms).0;
            &&& after.routes == n.routes
            &&& after.roots == n.roots
            &&& after.display_name == n.display_name
            &&& after.destination_hash == n.destination_hash
            &&& after.identity_hash == n.identity_hash
            &&& after.budget.in_flight == n.budget.in_flight
        }),
{
    let (after, step) = node::received(n, hash, now, now_ms);
    lemma_serving_keeps(after, d, faults, step);
}

/// Is there room on every counter?
pub open spec fn has_room_to_count(c: CountersView) -> bool {
    &&& c.request_count < u64::MAX
    &&& c.page_hits < u64::MAX
    &&& c.file_hits < u64::MAX
    &&& c.not_found_count < u64::MAX
}

/// Has one request been counted, at the time, and so many pages, files and misses?
pub open spec fn has_counted(
    before: CountersView,
    after: CountersView,
    now_ms: u64,
    pages: int,
    files: int,
    misses: int,
) -> bool {
    &&& after.request_count == before.request_count + 1
    &&& after.last_request_ms == now_ms
    &&& after.page_hits == before.page_hits + pages
    &&& after.file_hits == before.file_hits + files
    &&& after.not_found_count == before.not_found_count + misses
}

/// How a request for a page is answered, by what reading the page gives: with what was
/// read, with the page for missing pages where nothing is there, and else not at all,
/// for the reason that the read gives. It counts as one request, and as one page or
/// one miss accordingly.
pub proof fn law_pages_are_answered_by_their_content(
    n: NodeView,
    d: Disk,
    faults: Faults,
    route: Seq<char>,
    rel: Seq<char>,
    now: u128,
    now_ms: u64,
)
    requires
        budget::admits(n.budget, now),
        has_room_to_count(n.stats),
        rebuild::serves(n.routes, route),
        "/page/"@.is_prefix_of(route),
        paths::page_relative(route) == Ok::<Seq<char>, ErrorView>(rel),
        store_laws::is_request(rel),
    ensures
        ({
            let read = store_task::started(
                OpView::Read(n.roots.max_page_bytes),
                n.roots.pages_dir,
                rel,
            );
            let hash = paths::route_hash(route);
            let (after, left, outcome) = answered(n, d, faults, hash, now, now_ms);
            &&& left == disk::run(d, faults, read).0
            &&& match disk::run(d, faults, read).1 {
                Ok(OutputView::Body(b)) => outcome == OutcomeView::Reply(b) && has_counted(
                    n.stats,
                    after.stats,
                    now_ms,
                    1,
                    0,
                    0,
                ),
                Ok(OutputView::Unit) => has_counted(n.stats, after.stats, now_ms, 0, 0, 0),
                Err(ErrorView::NotFound(_)) => outcome == OutcomeView::Reply(
                    encode_utf8(micron::missing_page(route)),
                ) && has_counted(n.stats, after.stats, now_ms, 0, 0, 1),
                Err(e) => outcome == OutcomeView::Drop(
                    DropView::Failed(ContentKind::Page, route, e),
                ) && has_counted(n.stats, after.stats, now_ms, 0, 0, 0),
            }
        }),
{
    lemma_page_answer(n, d, faults, route, rel, now, now_ms);
}

/// How a request for a file is answered, by what reading the file gives: with what was
/// read, and else not at all. A file that is not there is counted as missing.
pub proof fn law_files_are_answered_by_their_content(
    n: NodeView,
    d: Disk,
    faults: Faults,
    route: Seq<char>,
    rel: Seq<char>,
    now: u128,
    now_ms: u64,
)
    requires
        budget::admits(n.budget, now),
        has_room_to_count(n.stats),
        rebuild::serves(n.routes, route),
        "/file/"@.is_prefix_of(route),
        paths::file_relative(route) == Ok::<Seq<char>, ErrorView>(rel),
        store_laws::is_request(rel),
    ensures
        ({
            let read = store_task::started(
                OpView::Read(n.roots.max_file_bytes),
                n.roots.files_dir,
                rel,
            );
            let hash = paths::route_hash(route);
            let (after, left, outcome) = answered(n, d, faults, hash, now, now_ms);
            &&& left == disk::run(d, faults, read).0
            &&& match disk::run(d, faults, read).1 {
                Ok(OutputView::Body(b)) => outcome == OutcomeView::Reply(b) && has_counted(
                    n.stats,
                    after.stats,
                    now_ms,
                    0,
                    1,
                    0,
                ),
                Ok(OutputView::Unit) => has_counted(n.stats, after.stats, now_ms, 0, 0, 0),
                Err(ErrorView::NotFound(_)) => outcome == OutcomeView::Drop(DropView::NotThere)
                    && has_counted(n.stats, after.stats, now_ms, 0, 0, 1),
                Err(e) => outcome == OutcomeView::Drop(
                    DropView::Failed(ContentKind::File, route, e),
                ) && has_counted(n.stats, after.stats, now_ms, 0, 0, 0),
            }
        }),
{
    reveal_strlit("/page/");
    reveal_strlit("/file/");
    if "/page/"@.is_prefix_of(route) {
        assert("/page/"@[1] == route.subrange(0, 6)[1]);
        assert("/file/"@[1] == route.subrange(0, 6)[1]);
    }
    lemma_file_answer(n, d, faults, route, rel, now, now_ms);
}

/// A registered page or file whose content is over the cap is not answered, for that
/// reason, and counts as a request and nothing else.
pub proof fn law_oversize_content_is_not_served(
    n: NodeView,
    d: Disk,
    rel: Seq<char>,
    content: Seq<u8>,
    now: u128,
    now_ms: u64,
)
    requires
        disk::is_disk(d),
        budget::admits(n.budget, now),
        has_room_to_count(n.stats),
        store_laws::is_request(rel),
        text::trimmed(rel) == rel,
        rel[0] != '/',
        content.len() <= u64::MAX,
    ensures
        rebuild::serves(n.routes, "/page/"@ + rel) && content.len() > n.roots.max_page_bytes
            && is_stored_at(d, n.roots.pages_dir, rel, content) ==> ({
            let hash = paths::route_hash("/page/"@ + rel);
            let (after, left, outcome) = answered(n, d, disk::no_faults(), hash, now, now_ms);
            &&& outcome matches OutcomeView::Drop(DropView::Failed(kind, route, e))
                && e is TooLarge
            &&& has_counted(n.stats, after.stats, now_ms, 0, 0, 0)
        }),
        rebuild::serves(n.routes, "/file/"@ + rel) && content.len() > n.roots.max_file_bytes
            && is_stored_at(d, n.roots.files_dir, rel, content) ==> ({
            let hash = paths::route_hash("/file/"@ + rel);
            let (after, left, outcome) = answered(n, d, disk::no_faults(), hash, now, now_ms);
            &&& outcome matches OutcomeView::Drop(DropView::Failed(kind, route, e))
                && e is TooLarge
            &&& has_counted(n.stats, after.stats, now_ms, 0, 0, 0)
        }),
{
    route_laws::law_stored_page_has_its_route(rel);
    route_laws::law_stored_file_has_its_route(rel);
    route_laws::law_page_route_strips_to_its_path(rel);
    route_laws::law_file_route_strips_to_its_path(rel);
    let p = "/page/"@ + rel;
    let f = "/file/"@ + rel;
    assert(p.skip("/page/"@.len() as int) =~= rel);
    assert(f.skip("/file/"@.len() as int) =~= rel);
    assert(p.subrange(0, "/page/"@.len() as int) =~= "/page/"@);
    assert(f.subrange(0, "/file/"@.len() as int) =~= "/file/"@);
    if rebuild::serves(n.routes, p) && content.len() > n.roots.max_page_bytes && is_stored_at(
        d,
        n.roots.pages_dir,
        rel,
        content,
    ) {
        law_pages_are_answered_by_their_content(n, d, disk::no_faults(), p, rel, now, now_ms);
        store_laws::law_oversize_content_is_refused(
            d,
            n.roots.pages_dir,
            rel,
            content,
            n.roots.max_page_bytes,
        );
    }
    if rebuild::serves(n.routes, f) && content.len() > n.roots.max_file_bytes && is_stored_at(
        d,
        n.roots.files_dir,
        rel,
        content,
    ) {
        law_files_are_answered_by_their_content(n, d, disk::no_faults(), f, rel, now, now_ms);
        store_laws::law_oversize_content_is_refused(
            d,
            n.roots.files_dir,
            rel,
            content,
            n.roots.max_file_bytes,
        );
    }
}

/// Is the content in its place?
pub open spec fn is_stored_at(d: Disk, root: Seq<char>, rel: Seq<char>, content: Seq<u8>) -> bool {
    &&& d.nodes.dom().contains(store_laws::place(d, root, rel))
    &&& d.nodes[store_laws::place(d, root, rel)] == Node::File(content)
}

/// A request for a route that is neither a page's nor a file's is not answered, and
/// one for a route whose path is refused is not, for that reason. No request that needs
/// no content asks the file system anything; an unknown hash counts as missing.
pub proof fn law_requests_without_content(
    n: NodeView,
    d: Disk,
    faults: Faults,
    hash: Seq<u8>,
    now: u128,
    now_ms: u64,
)
    requires
        budget::admits(n.budget, now),
        has_room_to_count(n.stats),
    ensures
        ({
            let (after, left, outcome) = answered(n, d, faults, hash, now, now_ms);
            &&& !n.routes.dom().contains(hash) ==> left == d && outcome == OutcomeView::Reply(
                encode_utf8(micron::missing_page("/page/unknown"@)),
            ) && has_counted(n.stats, after.stats, now_ms, 0, 0, 1)
            &&& n.routes.dom().contains(hash) && !"/page/"@.is_prefix_of(n.routes[hash])
                && !"/file/"@.is_prefix_of(n.routes[hash]) ==> left == d && outcome
                == OutcomeView::Drop(DropView::NotThere) && has_counted(
                n.stats,
                after.stats,
                now_ms,
                0,
                0,
                0,
            )
            &&& n.routes.dom().contains(hash) && "/page/"@.is_prefix_of(n.routes[hash]) ==> (
            paths::page_relative(n.routes[hash]) matches Err(e) ==> !(e is NotFound) ==> left == d
                && outcome == OutcomeView::Drop(
                DropView::Failed(ContentKind::Page, n.routes[hash], e),
            ) && has_counted(n.stats, after.stats, now_ms, 0, 0, 0))
        }),
{
}

/// A request takes a place in the budget and gives it back: once it is answered, as
/// many are in flight as before, and it is counted in the window it came in.
pub proof fn law_answered_requests_are_no_longer_in_flight(
    n: NodeView,
    d: Disk,
    faults: Faults,
    hash: Seq<u8>,
    now: u128,
    now_ms: u64,
)
    requires
        budget::admits(n.budget, now),
        node::received(n, hash, now, now_ms).1 matches ServeStepView::Read(s)
            ==> store_task::is_well_formed(s.read),
    ensures
        ({
            let after = answered(n, d, faults, hash, now, now_ms).0.budget;
            let is_new = now >= n.budget.window_start && now - n.budget.window_start
                >= 10_000_000_000;
            &&& after.in_flight == n.budget.in_flight
            &&& is_new ==> after.window_start == now && after.window_count == 1
            &&& !is_new ==> after.window_start == n.budget.window_start && after.window_count
                == n.budget.window_count + 1
        }),
{
    let (after, step) = node::received(n, hash, now, now_ms);
    lemma_serving_keeps(after, d, faults, step);
}

} // verus!
