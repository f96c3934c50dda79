//! The route table: wire path hash to route, rebuilt from the content listings.

use std::collections::HashMap;

use vstd::bytes::u128_from_le_bytes;
use vstd::prelude::*;

use crate::error::ErrorView;
use crate::error::NomadError;
use crate::listing::EntryView;
use crate::listing::NomadPageEntry;
use crate::order;
use crate::paths;
use crate::paths::normalize_file_route;
use crate::paths::normalize_page_route;
use crate::paths::path_hash;
use crate::paths::DEFAULT_INDEX_ROUTE;
use crate::text::join2;
use crate::text::same_text;

verus! {

broadcast use vstd::std_specs::hash::group_hash_axioms;

/// Routes (`/page/...` or `/file/...`) by wire path hash.
#[derive(Debug)]
pub struct RouteTable {
    /// Keyed by the hash read as a little-endian number.
    by_hash: HashMap<u128, String>,
}

/// The contents of a [`RouteTable`]: routes by hash.
pub type TableView = Map<Seq<u8>, Seq<char>>;

/// The routes by hash, where they are held by number.
pub open spec fn by_bytes(m: Map<u128, String>) -> TableView {
    Map::new(
        |h: Seq<u8>| h.len() == 16 && m.dom().contains(vstd::bytes::spec_u128_from_le_bytes(h)),
        |h: Seq<u8>| m[vstd::bytes::spec_u128_from_le_bytes(h)]@,
    )
}

impl View for RouteTable {
    type V = TableView;

    closed spec fn view(&self) -> TableView {
        by_bytes(self.by_hash@)
    }
}

/// What is said of two routes that share a hash.
pub open spec fn collision(existing: Seq<char>, route: Seq<char>) -> ErrorView {
    ErrorView::Message("route hash collision between "@ + existing + " and "@ + route)
}

/// The table with the route under the hash, unless another route has the hash.
pub open spec fn registered(table: TableView, hash: Seq<u8>, route: Seq<char>) -> Result<
    TableView,
    ErrorView,
> {
    if table.dom().contains(hash) && table[hash] != route {
        Err(collision(table[hash], route))
    } else {
        Ok(table.insert(hash, route))
    }
}

/// A table and the error that ended its filling, if one did.
pub type Filled = (TableView, Option<ErrorView>);

/// The table with the routes registered one after the other, up to the first
/// one that is not a route or collides.
pub open spec fn filled(table: TableView, routes: Seq<Result<Seq<char>, ErrorView>>) -> Filled
    decreases routes.len(),
{
    if routes.len() == 0 {
        (table, None)
    } else {
        match routes[0] {
            Err(e) => (table, Some(e)),
            Ok(route) => match registered(table, paths::route_hash(route), route) {
                Err(e) => (table, Some(e)),
                Ok(more) => filled(more, routes.skip(1)),
            },
        }
    }
}

/// The routes of listed pages.
pub open spec fn page_routes(entries: Seq<EntryView>) -> Seq<Result<Seq<char>, ErrorView>> {
    entries.map_values(|e: EntryView| paths::page_route(e.path))
}

/// The routes of listed files, and the default index, which is always there.
pub open spec fn file_routes(entries: Seq<EntryView>) -> Seq<Result<Seq<char>, ErrorView>> {
    entries.map_values(|e: EntryView| paths::file_route(e.path)).push(Ok(DEFAULT_INDEX_ROUTE@))
}

/// An optional error as a result.
pub open spec fn outcome(e: Option<ErrorView>) -> Result<(), ErrorView> {
    match e {
        Some(e) => Err(e),
        None => Ok(()),
    }
}

/// A result without a value, taken by its contents.
pub open spec fn unit_view(r: Result<(), NomadError>) -> Result<(), ErrorView> {
    match r {
        Ok(_) => Ok(()),
        Err(e) => Err(e@),
    }
}

impl RouteTable {
    /// An empty table.
    pub fn new() -> (r: Self)
        ensures
            r@ == Map::<Seq<u8>, Seq<char>>::empty(),
    {
        let r = RouteTable { by_hash: HashMap::new() };
        assert(r@ =~= Map::<Seq<u8>, Seq<char>>::empty());
        r
    }

    /// Forget all routes.
    pub fn clear(&mut self)
        ensures
            final(self)@ == Map::<Seq<u8>, Seq<char>>::empty(),
    {
        self.by_hash.clear();
        assert(self@ =~= Map::<Seq<u8>, Seq<char>>::empty());
    }

    /// The route that has the hash, if one has it.
    pub fn lookup(&self, hash: &[u8; 16]) -> (r: Option<&String>)
        ensures
            match r {
                Some(route) => self@.dom().contains(hash@) && self@[hash@] == route@,
                None => !self@.dom().contains(hash@),
            },
    {
        let key: u128 = u128_from_le_bytes(hash.as_slice());
        self.by_hash.get(&key)
    }

    /// The number of routes.
    pub fn len(&self) -> (r: usize)
        ensures
            self@.dom().finite(),
            r == self@.dom().len(),
    {
        proof {
            lemma_same_size(self.by_hash@);
        }
        self.by_hash.len()
    }

    /// Register a route under a hash.
    pub fn register_at(&mut self, hash: &[u8; 16], route: String) -> (r: Result<(), NomadError>)
        ensures
            match registered(old(self)@, hash@, route@) {
                Ok(table) => r is Ok && final(self)@ == table,
                Err(e) => r matches Err(told) && told@ == e && final(self)@ == old(self)@,
            },
    {
        let key: u128 = u128_from_le_bytes(hash.as_slice());
        let ghost before = self.by_hash@;
        match self.by_hash.get(&key) {
            Some(existing) => if !same_text(existing.as_str(), route.as_str()) {
                let a = join2("route hash collision between ", existing.as_str());
                let b = join2(a.as_str(), " and ");
                return Err(NomadError::Message(join2(b.as_str(), route.as_str())));
            },
            None => {},
        }
        self.by_hash.insert(key, route);
        proof {
            lemma_by_bytes_insert(before, hash@, route);
        }
        Ok(())
    }

    /// Register a route under its hash.
    pub fn register(&mut self, route: String) -> (r: Result<(), NomadError>)
        ensures
            match registered(old(self)@, paths::route_hash(route@), route@) {
                Ok(table) => r is Ok && final(self)@ == table,
                Err(e) => r matches Err(told) && told@ == e && final(self)@ == old(self)@,
            },
    {
        let hash = path_hash(route.as_str());
        self.register_at(&hash, route)
    }

    /// Register the routes of listed pages.
    pub fn register_pages(&mut self, entries: &Vec<NomadPageEntry>) -> (r: Result<(), NomadError>)
        ensures
            (final(self)@, unit_view(r)) == ({
                let (table, e) = filled(old(self)@, page_routes(order::entry_views(entries@)));
                (table, outcome(e))
            }),
    {
        let ghost routes = page_routes(order::entry_views(entries@));
        let mut i: usize = 0;
        assert(routes.skip(0) =~= routes);
        while i < entries.len()
            invariant
                i <= entries@.len(),
                routes == page_routes(order::entry_views(entries@)),
                filled(old(self)@, routes) == filled(self@, routes.skip(i as int)),
            decreases entries@.len() - i,
        {
            assert(routes.skip(i as int)[0] == paths::page_route(entries@[i as int].path@));
            assert(routes.skip(i as int).skip(1) =~= routes.skip(i + 1));
            let route = match normalize_page_route(entries[i].path.as_str()) {
                Ok(route) => route,
                Err(e) => return Err(e),
            };
            match self.register(route) {
                Ok(_) => {},
                Err(e) => return Err(e),
            }
            i = i + 1;
        }
        Ok(())
    }

    /// Register the routes of listed files, and the default index even if no
    /// page was listed.
    pub fn register_files(&mut self, entries: &Vec<NomadPageEntry>) -> (r: Result<(), NomadError>)
        ensures
            (final(self)@, unit_view(r)) == ({
                let (table, e) = filled(old(self)@, file_routes(order::entry_views(entries@)));
                (table, outcome(e))
            }),
    {
        let ghost routes = file_routes(order::entry_views(entries@));
        let mut i: usize = 0;
        assert(routes.skip(0) =~= routes);
        while i < entries.len()
            invariant
                i <= entries@.len(),
                routes == file_routes(order::entry_views(entries@)),
                filled(old(self)@, routes) == filled(self@, routes.skip(i as int)),
            decreases entries@.len() - i,
        {
            assert(routes.skip(i as int)[0] == paths::file_route(entries@[i as int].path@));
            assert(routes.skip(i as int).skip(1) =~= routes.skip(i + 1));
            let route = match normalize_file_route(entries[i].path.as_str()) {
                Ok(route) => route,
                Err(e) => return Err(e),
            };
            match self.register(route) {
                Ok(_) => {},
                Err(e) => return Err(e),
            }
            i = i + 1;
        }
        assert(routes.skip(i as int)[0] == Ok::<Seq<char>, ErrorView>(DEFAULT_INDEX_ROUTE@));
        assert(routes.skip(i as int).skip(1).len() == 0);
        proof {
            reveal_with_fuel(filled, 2);
        }
        self.register(DEFAULT_INDEX_ROUTE.to_owned())
    }
}

proof fn lemma_by_bytes_insert(m: Map<u128, String>, hash: Seq<u8>, route: String)
    requires
        hash.len() == 16,
    ensures
        by_bytes(m.insert(vstd::bytes::spec_u128_from_le_bytes(hash), route)) == by_bytes(
            m,
        ).insert(hash, route@),
{
    vstd::bytes::lemma_auto_spec_u128_to_from_le_bytes();
    let key = vstd::bytes::spec_u128_from_le_bytes(hash);
    let a = by_bytes(m.insert(key, route));
    let b = by_bytes(m).insert(hash, route@);
    assert forall|h: Seq<u8>| h.len() == 16 && vstd::bytes::spec_u128_from_le_bytes(h) == key implies h
        == hash by {
        assert(vstd::bytes::spec_u128_to_le_bytes(vstd::bytes::spec_u128_from_le_bytes(h)) == h);
        assert(vstd::bytes::spec_u128_to_le_bytes(key) == hash);
    }
    assert(a.dom() =~= b.dom());
    assert(a =~= b);
}

proof fn lemma_same_size(m: Map<u128, String>)
    requires
        m.dom().finite(),
    ensures
        by_bytes(m).dom().finite(),
        by_bytes(m).dom().len() == m.dom().len(),
    decreases m.dom().len(),
{
    vstd::bytes::lemma_auto_spec_u128_to_from_le_bytes();
    if m.dom().len() == 0 {
        assert(by_bytes(m).dom() =~= Set::<Seq<u8>>::empty());
    } else {
        let key = m.dom().choose();
        let hash = vstd::bytes::spec_u128_to_le_bytes(key);
        let rest = m.remove(key);
        lemma_same_size(rest);
        lemma_by_bytes_insert(rest, hash, m[key]);
        assert(rest.insert(key, m[key]) =~= m);
        assert(!by_bytes(rest).dom().contains(hash));
        assert(by_bytes(m).dom() =~= by_bytes(rest).dom().insert(hash));
    }
}

/// A route is registered under a hash that is free or already its own: it is then
/// found there, and every other hash as before. Under the hash of another route it is
/// not, and the error names both.
pub proof fn law_routes_are_found_where_they_are_registered(
    table: TableView,
    hash: Seq<u8>,
    route: Seq<char>,
    other: Seq<u8>,
)
    ensures
        registered(table, hash, route) is Ok <==> !table.dom().contains(hash) || table[hash]
            == route,
        registered(table, hash, route) matches Ok(after) ==> {
            &&& after.dom().contains(hash)
            &&& after[hash] == route
            &&& other != hash ==> (after.dom().contains(other) <==> table.dom().contains(other))
            &&& other != hash && table.dom().contains(other) ==> after[other] == table[other]
        },
        registered(table, hash, route) matches Err(e) ==> e == ErrorView::Message(
            "route hash collision between "@ + table[hash] + " and "@ + route,
        ),
{
}

/// Each listed page and each listed file has its own route, in order, and the default
/// index comes last.
pub proof fn law_each_entry_has_its_route(entries: Seq<EntryView>, i: int)
    requires
        0 <= i < entries.len(),
    ensures
        page_routes(entries).len() == entries.len(),
        page_routes(entries)[i] == paths::page_route(entries[i].path),
        file_routes(entries).len() == entries.len() + 1,
        file_routes(entries)[i] == paths::file_route(entries[i].path),
        file_routes(entries).last() == Ok::<Seq<char>, ErrorView>("/page/index.mu"@),
{
}

/// Registering routes one after the other ends without an error where each is a route
/// and none has the hash of a different one.
pub proof fn law_filling_succeeds(table: TableView, routes: Seq<Result<Seq<char>, ErrorView>>)
    requires
        forall|i: int| 0 <= i < routes.len() ==> (#[trigger] routes[i]) is Ok,
        forall|i: int|
            0 <= i < routes.len() ==> {
                let route = (#[trigger] routes[i])->Ok_0;
                table.dom().contains(paths::route_hash(route)) ==> table[paths::route_hash(route)]
                    == route
            },
        forall|i: int, j: int|
            0 <= i < routes.len() && 0 <= j < routes.len() && paths::route_hash(
                (#[trigger] routes[i])->Ok_0,
            ) == paths::route_hash((#[trigger] routes[j])->Ok_0) ==> routes[i] == routes[j],
    ensures
        filled(table, routes).1 is None,
    decreases routes.len(),
{
    if routes.len() > 0 {
        let first = routes[0]->Ok_0;
        let more = registered(table, paths::route_hash(first), first)->Ok_0;
        let rest = routes.skip(1);
        assert forall|i: int| 0 <= i < rest.len() implies (#[trigger] rest[i]) is Ok by {
            assert(rest[i] == routes[i + 1]);
        }
        assert forall|i: int| 0 <= i < rest.len() implies {
            let route = (#[trigger] rest[i])->Ok_0;
            more.dom().contains(paths::route_hash(route)) ==> more[paths::route_hash(route)]
                == route
        } by {
            assert(rest[i] == routes[i + 1]);
            assert(paths::route_hash(routes[0]->Ok_0) == paths::route_hash(routes[i + 1]->Ok_0)
                ==> routes[0] == routes[i + 1]);
        }
        assert forall|i: int, j: int|
            0 <= i < rest.len() && 0 <= j < rest.len() && paths::route_hash(
                (#[trigger] rest[i])->Ok_0,
            ) == paths::route_hash((#[trigger] rest[j])->Ok_0) implies rest[i] == rest[j] by {
            assert(rest[i] == routes[i + 1] && rest[j] == routes[j + 1]);
        }
        law_filling_succeeds(more, rest);
    }
}

/// The first that is no route, where those before it do not collide, ends the
/// registering with its error.
pub proof fn law_filling_ends_with_the_first_error(
    table: TableView,
    before: Seq<Result<Seq<char>, ErrorView>>,
    e: ErrorView,
    after: Seq<Result<Seq<char>, ErrorView>>,
)
    requires
        filled(table, before).1 is None,
    ensures
        filled(table, before + seq![Err::<Seq<char>, ErrorView>(e)] + after) == (
            filled(table, before).0,
            Some(e),
        ),
    decreases before.len(),
{
    let all = before + seq![Err::<Seq<char>, ErrorView>(e)] + after;
    if before.len() == 0 {
        assert(all[0] == Err::<Seq<char>, ErrorView>(e));
    } else {
        assert(all[0] == before[0]);
        let first = before[0]->Ok_0;
        let more = registered(table, paths::route_hash(first), first)->Ok_0;
        law_filling_ends_with_the_first_error(more, before.skip(1), e, after);
        assert(all.skip(1) =~= before.skip(1) + seq![Err::<Seq<char>, ErrorView>(e)] + after);
    }
}

} // verus!
