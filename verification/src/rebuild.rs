//! Rebuilding the route table: list the pages, register them, list the files,
//! register them and the default index.

use vstd::prelude::*;

use crate::error::ErrorView;
use crate::error::NomadError;
use crate::listing;
use crate::listing::list_under;
use crate::listing::EntryView;
use crate::listing::ListReply;
use crate::listing::ListReplyView;
use crate::listing::ListRequest;
use crate::listing::ListStep;
use crate::listing::ListStepView;
use crate::listing::ListTask;
use crate::listing::ListView;
use crate::listing_laws;
use crate::listing_laws::Cursor;
use crate::listing_laws::Tree;
use crate::paths;
use crate::paths::DEFAULT_INDEX_ROUTE;
use crate::routes;
use crate::routes::Filled;
use crate::routes::RouteTable;
use crate::routes::TableView;
use crate::storage::NomadContentStore;
use crate::storage::RootsView;

verus! {

/// A rebuild of the route table, in progress.
#[derive(Debug)]
pub struct RebuildTask {
    listing: ListTask,
    files_dir: Option<String>,
}

/// The contents of a [`RebuildTask`].
pub struct RebuildView {
    /// The listing that is going on.
    pub listing: ListView,
    /// The directory to list next; none once the files are being listed.
    pub files_dir: Option<Seq<char>>,
}

impl View for RebuildTask {
    type V = RebuildView;

    closed spec fn view(&self) -> RebuildView {
        RebuildView {
            listing: self.listing@,
            files_dir: match self.files_dir {
                Some(dir) => Some(dir@),
                None => None,
            },
        }
    }
}

/// Where a rebuild stands after a reply.
#[derive(Debug)]
pub enum RebuildStep {
    /// One more request is to be answered.
    Ask(RebuildTask),
    /// The rebuild has ended.
    Done(Result<(), NomadError>),
}

/// The contents of a [`RebuildStep`].
pub enum RebuildStepView {
    Ask(RebuildView),
    Done(Result<(), ErrorView>),
}

impl View for RebuildStep {
    type V = RebuildStepView;

    open spec fn view(&self) -> RebuildStepView {
        match *self {
            RebuildStep::Ask(task) => RebuildStepView::Ask(task@),
            RebuildStep::Done(r) => RebuildStepView::Done(routes::unit_view(r)),
        }
    }
}

/// The start of a rebuild.
pub open spec fn started(roots: RootsView) -> RebuildView {
    RebuildView {
        listing: listing::started(roots.pages_dir),
        files_dir: Some(roots.files_dir),
    }
}

/// Where a rebuild stands, and what the table holds, once a listing has ended.
pub open spec fn listed(
    files_dir: Option<Seq<char>>,
    table: TableView,
    entries: Result<Seq<EntryView>, ErrorView>,
) -> (RebuildStepView, TableView) {
    match (entries, files_dir) {
        (Err(e), _) => (RebuildStepView::Done(Err(e)), table),
        (Ok(pages), Some(dir)) => {
            let (table, e) = routes::filled(table, routes::page_routes(pages));
            match e {
                Some(e) => (RebuildStepView::Done(Err(e)), table),
                None => (
                    RebuildStepView::Ask(
                        RebuildView { listing: listing::started(dir), files_dir: None },
                    ),
                    table,
                ),
            }
        },
        (Ok(files), None) => {
            let (table, e) = routes::filled(table, routes::file_routes(files));
            (RebuildStepView::Done(routes::outcome(e)), table)
        },
    }
}

/// Where a rebuild stands, and what the table holds, after a reply.
pub open spec fn next(s: RebuildView, table: TableView, reply: ListReplyView) -> (
    RebuildStepView,
    TableView,
) {
    match listing::next(s.listing, reply) {
        ListStepView::Ask(l) => (
            RebuildStepView::Ask(RebuildView { listing: l, ..s }),
            table,
        ),
        ListStepView::Done(entries) => listed(s.files_dir, table, entries),
    }
}

/// Empty the table and start to rebuild it from the store.
pub fn rebuild_routes(table: &mut RouteTable, store: &NomadContentStore) -> (r: RebuildTask)
    ensures
        final(table)@ == Map::<Seq<u8>, Seq<char>>::empty(),
        r@ == started(store@),
        listing::is_well_formed(r@.listing),
{
    table.clear();
    let files_dir = store.roots().files_dir.clone();
    RebuildTask { listing: store.list_pages(), files_dir: Some(files_dir) }
}

impl RebuildTask {
    /// The directory that is being listed.
    pub fn root(&self) -> (r: &str)
        ensures
            r@ == self@.listing.root,
    {
        self.listing.root()
    }

    /// The request to answer next.
    pub fn request(&self) -> (r: ListRequest)
        ensures
            r == self@.listing.request,
    {
        self.listing.request()
    }

    /// Go on with the reply to the request.
    pub fn resume(self, table: &mut RouteTable, reply: ListReply) -> (r: RebuildStep)
        requires
            listing::is_well_formed(self@.listing),
            listing::answers(reply@, self@.listing.request),
        ensures
            (r@, final(table)@) == next(self@, old(table)@, reply@),
            r matches RebuildStep::Ask(task) ==> listing::is_well_formed(task@.listing),
    {
        let RebuildTask { listing, files_dir } = self;
        match listing.resume(reply) {
            ListStep::Ask(listing) => RebuildStep::Ask(RebuildTask { listing, files_dir }),
            ListStep::Done(Err(e)) => RebuildStep::Done(Err(e)),
            ListStep::Done(Ok(entries)) => match files_dir {
                Some(dir) => match table.register_pages(&entries) {
                    Err(e) => RebuildStep::Done(Err(e)),
                    Ok(_) => RebuildStep::Ask(
                        RebuildTask { listing: list_under(dir.as_str()), files_dir: None },
                    ),
                },
                None => RebuildStep::Done(table.register_files(&entries)),
            },
        }
    }
}

/// The table that the two listings make, and the error that ended its filling,
/// if one did.
pub open spec fn rebuilt(
    pages: Result<Seq<EntryView>, ErrorView>,
    files: Result<Seq<EntryView>, ErrorView>,
) -> Filled {
    match pages {
        Err(e) => (Map::empty(), Some(e)),
        Ok(pages) => match routes::filled(Map::empty(), routes::page_routes(pages)) {
            (table, Some(e)) => (table, Some(e)),
            (table, None) => match files {
                Err(e) => (table, Some(e)),
                Ok(files) => routes::filled(table, routes::file_routes(files)),
            },
        },
    }
}

/// A rebuild among two directory trees: where its listing stands, the tree to
/// list next, what it is waiting for and what the table holds.
pub struct Reload {
    pub at: Cursor,
    pub files: Option<Tree>,
    pub step: RebuildStepView,
    pub table: TableView,
}

/// The rebuild after one more reply.
pub open spec fn reload_next(r: Reload) -> Reload {
    match r.step {
        RebuildStepView::Done(_) => r,
        RebuildStepView::Ask(s) => {
            let reply = listing_laws::reply_at(r.at, s.listing.request);
            let (step, table) = next(s, r.table, reply);
            let at = match listing::next(s.listing, reply) {
                ListStepView::Ask(_) => listing_laws::moved(r.at, s.listing.request),
                ListStepView::Done(_) => Cursor { open: Seq::empty(), node: r.files },
            };
            Reload { at, step, table, ..r }
        },
    }
}

/// The rebuild after `n` more replies.
pub open spec fn reload_after(r: Reload, n: nat) -> Reload
    decreases n,
{
    if n == 0 {
        r
    } else {
        reload_after(reload_next(r), (n - 1) as nat)
    }
}

proof fn lemma_reload_sum(r: Reload, a: nat, b: nat)
    ensures
        reload_after(r, a + b) == reload_after(reload_after(r, a), b),
    decreases a,
{
    if a > 0 {
        lemma_reload_sum(reload_next(r), (a - 1) as nat, b);
    }
}

/// A rebuild goes on once its listing has ended.
proof fn lemma_reload_listing(
    r: Reload,
    s: RebuildView,
    n: nat,
    entries: Result<Seq<EntryView>, ErrorView>,
) -> (m: nat)
    requires
        r.step == RebuildStepView::Ask(s),
        listing_laws::after(r.at, ListStepView::Ask(s.listing), n).1 == ListStepView::Done(entries),
    ensures
        ({
            let done = reload_after(r, m);
            let (step, table) = listed(s.files_dir, r.table, entries);
            &&& done.step == step
            &&& done.table == table
            &&& done.files == r.files
            &&& done.at == Cursor { open: Seq::empty(), node: r.files }
        }),
    decreases n,
{
    let reply = listing_laws::reply_at(r.at, s.listing.request);
    let after = reload_next(r);
    reveal_with_fuel(listing_laws::after, 2);
    match listing::next(s.listing, reply) {
        ListStepView::Done(found) => {
            assert(found == entries);
            assert(reload_after(after, 0) == after);
            1
        },
        ListStepView::Ask(l) => {
            let m = lemma_reload_listing(
                after,
                RebuildView { listing: l, ..s },
                (n - 1) as nat,
                entries,
            );
            m + 1
        },
    }
}

/// A rebuild from the start, with the given trees as the content directories.
pub open spec fn reload_started(
    roots: RootsView,
    pages: Option<Tree>,
    files: Option<Tree>,
) -> Reload {
    Reload {
        at: Cursor { open: Seq::empty(), node: pages },
        files,
        step: RebuildStepView::Ask(started(roots)),
        table: Map::empty(),
    }
}

/// Does a rebuild end with the table and the error, if any?
pub open spec fn reloads(
    roots: RootsView,
    pages: Option<Tree>,
    files: Option<Tree>,
    end: Filled,
) -> bool {
    exists|n: nat|
        {
            let done = #[trigger] reload_after(reload_started(roots, pages, files), n);
            done.table == end.0 && done.step == RebuildStepView::Done(routes::outcome(end.1))
        }
}

/// Every rebuild ends, and with exactly the table that the listings of the two
/// directories make.
pub proof fn law_rebuild_is_exact(roots: RootsView, pages: Option<Tree>, files: Option<Tree>)
    ensures
        reloads(
            roots,
            pages,
            files,
            rebuilt(listing_laws::listed(pages), listing_laws::listed(files)),
        ),
{
    let found = listing_laws::listed(pages);
    let end = rebuilt(found, listing_laws::listed(files));
    let r = reload_started(roots, pages, files);
    let s = started(roots);
    listing_laws::law_listing_is_exact(roots.pages_dir, pages);
    let n = choose|n: nat|
        (#[trigger] listing_laws::after(r.at, ListStepView::Ask(s.listing), n)).1
            == ListStepView::Done(found);
    let a = lemma_reload_listing(r, s, n, found);
    let mid = reload_after(r, a);
    match mid.step {
        RebuildStepView::Done(_) => {
            assert(mid.table == end.0 && mid.step == RebuildStepView::Done(
                routes::outcome(end.1),
            ));
        },
        RebuildStepView::Ask(t) => {
            let more = listing_laws::listed(files);
            listing_laws::law_listing_is_exact(roots.files_dir, files);
            let k = choose|k: nat|
                (#[trigger] listing_laws::after(mid.at, ListStepView::Ask(t.listing), k)).1
                    == ListStepView::Done(more);
            let b = lemma_reload_listing(mid, t, k, more);
            lemma_reload_sum(r, a, b);
            let done = reload_after(r, a + b);
            assert(done.table == end.0 && done.step == RebuildStepView::Done(
                routes::outcome(end.1),
            ));
        },
    }
}

proof fn lemma_reload_stays_done(r: Reload, n: nat)
    requires
        r.step is Done,
    ensures
        reload_after(r, n) == r,
    decreases n,
{
    if n > 0 {
        lemma_reload_stays_done(r, (n - 1) as nat);
    }
}

/// However a rebuild has ended, it has ended with the table that the listings of
/// the two directories make.
pub proof fn law_rebuild_ends_are_listings(
    roots: RootsView,
    pages: Option<Tree>,
    files: Option<Tree>,
    end: Filled,
)
    requires
        reloads(roots, pages, files, end),
    ensures
        end == rebuilt(listing_laws::listed(pages), listing_laws::listed(files)),
{
    let r = reload_started(roots, pages, files);
    let other = rebuilt(listing_laws::listed(pages), listing_laws::listed(files));
    law_rebuild_is_exact(roots, pages, files);
    let n = choose|n: nat|
        {
            let done = #[trigger] reload_after(r, n);
            done.table == end.0 && done.step == RebuildStepView::Done(routes::outcome(end.1))
        };
    let m = choose|m: nat|
        {
            let done = #[trigger] reload_after(r, m);
            done.table == other.0 && done.step == RebuildStepView::Done(routes::outcome(other.1))
        };
    lemma_reload_sum(r, n, m);
    lemma_reload_sum(r, m, n);
    lemma_reload_stays_done(reload_after(r, n), m);
    lemma_reload_stays_done(reload_after(r, m), n);
}

/// Is every route in the table under its own hash?
pub open spec fn is_keyed(table: TableView) -> bool {
    forall|h: Seq<u8>| #[trigger]
        table.dom().contains(h) ==> paths::route_hash(table[h]) == h
}

/// Is the route in the table, under its hash?
pub open spec fn serves(table: TableView, route: Seq<char>) -> bool {
    table.dom().contains(paths::route_hash(route)) && table[paths::route_hash(route)] == route
}

/// Is the route among those to register?
pub open spec fn is_among(routes: Seq<Result<Seq<char>, ErrorView>>, route: Seq<char>) -> bool {
    routes.contains(Ok(route))
}

/// A table filled without an error holds what it held and every route that was
/// to be registered, each under its hash, and nothing else.
pub proof fn law_filled_tables(
    table: TableView,
    routes: Seq<Result<Seq<char>, ErrorView>>,
    route: Seq<char>,
)
    requires
        is_keyed(table),
        routes::filled(table, routes).1 is None,
    ensures
        is_keyed(routes::filled(table, routes).0),
        serves(routes::filled(table, routes).0, route) <==> serves(table, route) || is_among(
            routes,
            route,
        ),
    decreases routes.len(),
{
    if routes.len() > 0 {
        let first = routes[0]->Ok_0;
        let hash = paths::route_hash(first);
        let more = routes::registered(table, hash, first)->Ok_0;
        let rest = routes.skip(1);
        assert(is_keyed(more));
        law_filled_tables(more, rest, route);
        assert(serves(more, route) <==> serves(table, route) || route == first);
        if is_among(routes, route) {
            let i = choose|i: int| 0 <= i < routes.len() && routes[i] == Ok::<
                Seq<char>,
                ErrorView,
            >(route);
            if i > 0 {
                assert(rest[i - 1] == routes[i]);
            }
        }
        if is_among(rest, route) {
            let i = choose|i: int| 0 <= i < rest.len() && rest[i] == Ok::<Seq<char>, ErrorView>(
                route,
            );
            assert(routes[i + 1] == rest[i]);
        }
        if route == first {
            assert(routes[0] == Ok::<Seq<char>, ErrorView>(route));
        }
    }
}

/// After a rebuild without an error the table serves exactly the routes of the
/// listed pages, of the listed files, and the default index.
pub proof fn law_rebuilt_tables_serve_the_listings(
    pages: Seq<EntryView>,
    files: Seq<EntryView>,
    route: Seq<char>,
)
    requires
        rebuilt(Ok(pages), Ok(files)).1 is None,
    ensures
        is_keyed(rebuilt(Ok(pages), Ok(files)).0),
        serves(rebuilt(Ok(pages), Ok(files)).0, route) <==> is_among(
            routes::page_routes(pages),
            route,
        ) || is_among(routes::file_routes(files), route),
        serves(rebuilt(Ok(pages), Ok(files)).0, DEFAULT_INDEX_ROUTE@),
{
    let table = routes::filled(Map::empty(), routes::page_routes(pages)).0;
    law_filled_tables(Map::empty(), routes::page_routes(pages), route);
    law_filled_tables(table, routes::file_routes(files), route);
    law_filled_tables(table, routes::file_routes(files), DEFAULT_INDEX_ROUTE@);
    let all = routes::file_routes(files);
    assert(all[all.len() - 1] == Ok::<Seq<char>, ErrorView>(DEFAULT_INDEX_ROUTE@));
}

/// Is the route that of a listed page?
pub open spec fn is_page_of(pages: Seq<EntryView>, route: Seq<char>) -> bool {
    exists|i: int|
        0 <= i < pages.len() && paths::page_route((#[trigger] pages[i]).path) == Ok::<
            Seq<char>,
            ErrorView,
        >(route)
}

/// Is the route that of a listed file?
pub open spec fn is_file_of(files: Seq<EntryView>, route: Seq<char>) -> bool {
    exists|i: int|
        0 <= i < files.len() && paths::file_route((#[trigger] files[i]).path) == Ok::<
            Seq<char>,
            ErrorView,
        >(route)
}

/// After a rebuild without an error a route is served exactly if it is that of a
/// listed page or of a listed file, or is `/page/index.mu`.
pub proof fn law_served_routes_are_those_of_the_content(
    pages: Seq<EntryView>,
    files: Seq<EntryView>,
    route: Seq<char>,
)
    requires
        rebuilt(Ok(pages), Ok(files)).1 is None,
    ensures
        serves(rebuilt(Ok(pages), Ok(files)).0, route) <==> is_page_of(pages, route) || is_file_of(
            files,
            route,
        ) || route == "/page/index.mu"@,
{
    law_rebuilt_tables_serve_the_listings(pages, files, route);
    let ps = routes::page_routes(pages);
    let fs = routes::file_routes(files);
    if is_page_of(pages, route) {
        let i = choose|i: int|
            0 <= i < pages.len() && paths::page_route((#[trigger] pages[i]).path) == Ok::<
                Seq<char>,
                ErrorView,
            >(route);
        assert(ps[i] == Ok::<Seq<char>, ErrorView>(route));
    }
    if is_file_of(files, route) {
        let i = choose|i: int|
            0 <= i < files.len() && paths::file_route((#[trigger] files[i]).path) == Ok::<
                Seq<char>,
                ErrorView,
            >(route);
        assert(fs[i] == Ok::<Seq<char>, ErrorView>(route));
    }
    if is_among(ps, route) {
        let i = choose|i: int| 0 <= i < ps.len() && ps[i] == Ok::<Seq<char>, ErrorView>(route);
        assert(paths::page_route(pages[i].path) == Ok::<Seq<char>, ErrorView>(route));
    }
    if is_among(fs, route) {
        let i = choose|i: int| 0 <= i < fs.len() && fs[i] == Ok::<Seq<char>, ErrorView>(route);
        if i < files.len() {
            assert(paths::file_route(files[i].path) == Ok::<Seq<char>, ErrorView>(route));
        }
    }
}

/// A rebuild fails where a listing does, with its error; that of the files only once
/// the pages are registered.
pub proof fn law_rebuilds_fail_as_listings_do(
    pages: Seq<EntryView>,
    files: Result<Seq<EntryView>, ErrorView>,
    e: ErrorView,
)
    ensures
        rebuilt(Err(e), files) == (Map::<Seq<u8>, Seq<char>>::empty(), Some(e)),
        routes::filled(Map::empty(), routes::page_routes(pages)).1 is None ==> rebuilt(
            Ok(pages),
            Err(e),
        ) == (routes::filled(Map::empty(), routes::page_routes(pages)).0, Some(e)),
{
}

} // verus!
