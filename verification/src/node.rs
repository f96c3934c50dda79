//! A Nomad node: its name, its content, its routes, and how it answers requests.
//!
//! The node is a state that requests act on. A request that has to read content
//! becomes a task; the host reads for it and hands the replies back. Reads are
//! bounded by the size caps of the store.

use vstd::prelude::*;
use vstd::utf8::*;

use crate::budget;
use crate::budget::BudgetView;
use crate::budget::RequestBudget;
use crate::budget::RequestPermit;
use crate::error::ErrorView;
use crate::error::NomadError;
use crate::fs;
use crate::fs::FsReply;
use crate::fs::FsRequest;
use crate::fs::ReplyView;
use crate::listing;
use crate::listing::ListReply;
use crate::micron;
use crate::micron::not_found_page;
use crate::names;
use crate::names::clamp_display_name;
use crate::names::hex_encode;
use crate::paths;
use crate::paths::FILE_PREFIX;
use crate::paths::PAGE_PREFIX;
use crate::rebuild;
use crate::rebuild::rebuild_routes;
use crate::rebuild::RebuildStep;
use crate::rebuild::RebuildTask;
use crate::routes;
use crate::routes::RouteTable;
use crate::routes::TableView;
use crate::stats;
use crate::stats::CountersView;
use crate::stats::NomadServeStats;
use crate::stats::NomadServeStatsInner;
use crate::storage;
use crate::storage::NomadContentStore;
use crate::storage::RootsView;
use crate::store_task;
use crate::store_task::OutputView;
use crate::store_task::StoreOutput;
use crate::store_task::StoreStep;
use crate::store_task::StoreStepView;
use crate::store_task::StoreTask;
use crate::store_task::StoreView;
use crate::text::has_prefix;
use crate::text::utf8_bytes;

verus! {

/// A span of time between announces.
#[derive(Clone, Copy, Debug, PartialEq, Eq, Structural)]
pub struct AnnounceInterval {
    pub secs: u64,
    pub nanos: u32,
}

/// Configuration for [`NomadNode::spawn`].
#[derive(Debug)]
pub struct NomadNodeConfig {
    /// UTF-8 display name announced as app data (truncated to 256 bytes).
    pub display_name: String,
    /// Periodic announce interval; `None` disables the ticker.
    pub announce_interval: Option<AnnounceInterval>,
    /// Send an announce immediately after spawn.
    pub announce_at_start: bool,
}

impl Default for NomadNodeConfig {
    fn default() -> (r: Self)
        ensures
            r.display_name@ == "Nomad node"@,
            r.announce_interval == Some(AnnounceInterval { secs: 3600, nanos: 0 }),
            r.announce_at_start,
    {
        NomadNodeConfig {
            display_name: "Nomad node".to_owned(),
            announce_interval: Some(AnnounceInterval { secs: 3600, nanos: 0 }),
            announce_at_start: true,
        }
    }
}

impl Clone for NomadNodeConfig {
    fn clone(&self) -> (r: Self)
        ensures
            r.display_name@ == self.display_name@,
            r.announce_interval == self.announce_interval,
            r.announce_at_start == self.announce_at_start,
    {
        NomadNodeConfig {
            display_name: self.display_name.clone(),
            announce_interval: self.announce_interval,
            announce_at_start: self.announce_at_start,
        }
    }
}

/// A Nomad Network page/file host.
#[derive(Debug)]
pub struct NomadNode {
    destination_hash: [u8; 16],
    identity_hash: [u8; 16],
    display_name: String,
    store: NomadContentStore,
    routes: RouteTable,
    stats: NomadServeStatsInner,
    budget: RequestBudget,
}

/// The contents of a [`NomadNode`].
pub struct NodeView {
    pub destination_hash: Seq<u8>,
    pub identity_hash: Seq<u8>,
    pub display_name: Seq<char>,
    pub roots: RootsView,
    pub routes: TableView,
    pub stats: CountersView,
    pub budget: BudgetView,
}

impl View for NomadNode {
    type V = NodeView;

    closed spec fn view(&self) -> NodeView {
        NodeView {
            destination_hash: self.destination_hash@,
            identity_hash: self.identity_hash@,
            display_name: self.display_name@,
            roots: self.store@,
            routes: self.routes@,
            stats: self.stats@,
            budget: self.budget@,
        }
    }
}

/// How a request is answered.
#[derive(Debug)]
pub enum RequestOutcome {
    /// With these bytes.
    Reply(Vec<u8>),
    /// Not at all.
    Drop(DropReason),
}

/// Why a request is not answered.
#[derive(Debug)]
pub enum DropReason {
    /// There are too many requests.
    OverBudget,
    /// What it asks for is not there, and no reply would say so.
    NotThere,
    /// The content that the route names could not be read.
    Failed { kind: ContentKind, route: String, error: NomadError },
}

/// The contents of a [`RequestOutcome`].
pub enum OutcomeView {
    Reply(Seq<u8>),
    Drop(DropView),
}

/// The contents of a [`DropReason`].
pub enum DropView {
    OverBudget,
    NotThere,
    Failed(ContentKind, Seq<char>, ErrorView),
}

impl View for DropReason {
    type V = DropView;

    open spec fn view(&self) -> DropView {
        match *self {
            DropReason::OverBudget => DropView::OverBudget,
            DropReason::NotThere => DropView::NotThere,
            DropReason::Failed { kind, route, error } => DropView::Failed(kind, route@, error@),
        }
    }
}

impl View for RequestOutcome {
    type V = OutcomeView;

    open spec fn view(&self) -> OutcomeView {
        match *self {
            RequestOutcome::Reply(bytes) => OutcomeView::Reply(bytes@),
            RequestOutcome::Drop(reason) => OutcomeView::Drop(reason@),
        }
    }
}

/// What a route names.
#[derive(Clone, Copy, Debug, PartialEq, Eq, Structural)]
pub enum ContentKind {
    Page,
    File,
}

/// A request whose content is being read.
#[derive(Debug)]
pub struct ServeTask {
    kind: ContentKind,
    route: String,
    read: StoreTask,
    permit: RequestPermit,
}

/// The contents of a [`ServeTask`].
pub struct ServeView {
    pub kind: ContentKind,
    pub route: Seq<char>,
    pub read: StoreView,
}

impl View for ServeTask {
    type V = ServeView;

    closed spec fn view(&self) -> ServeView {
        ServeView { kind: self.kind, route: self.route@, read: self.read@ }
    }
}

impl ServeTask {
    /// The request to the file system to answer next.
    pub fn request(&self) -> (r: FsRequest)
        ensures
            r@ == store_task::request_of(self@.read),
    {
        self.read.request()
    }
}

/// Where a request stands.
#[derive(Debug)]
pub enum ServeStep {
    /// Its content is being read.
    Read(ServeTask),
    /// It is answered.
    Answer(RequestOutcome),
}

/// The contents of a [`ServeStep`].
pub enum ServeStepView {
    Read(ServeView),
    Answer(OutcomeView),
}

impl View for ServeStep {
    type V = ServeStepView;

    open spec fn view(&self) -> ServeStepView {
        match *self {
            ServeStep::Read(task) => ServeStepView::Read(task@),
            ServeStep::Answer(outcome) => ServeStepView::Answer(outcome@),
        }
    }
}

/// The node after a request is done with its place in the budget.
pub open spec fn released(n: NodeView) -> NodeView {
    NodeView { budget: budget::after_release(n.budget), ..n }
}

/// The node after it served a page.
pub open spec fn page_served(n: NodeView) -> NodeView {
    NodeView { stats: stats::with_page(n.stats), ..n }
}

/// The node after it served a file.
pub open spec fn file_served(n: NodeView) -> NodeView {
    NodeView { stats: stats::with_file(n.stats), ..n }
}

/// The node after it did not find something.
pub open spec fn missed(n: NodeView) -> NodeView {
    NodeView { stats: stats::with_miss(n.stats), ..n }
}

/// How a request ends once its content has been read, or could not be. A page
/// that is missing is answered with a page that says so; a file that is missing
/// is not answered, and neither is what failed otherwise.
pub open spec fn concluded(
    n: NodeView,
    kind: ContentKind,
    route: Seq<char>,
    result: Result<OutputView, ErrorView>,
) -> (NodeView, OutcomeView) {
    match (kind, result) {
        (ContentKind::Page, Ok(OutputView::Body(b))) => (
            released(page_served(n)),
            OutcomeView::Reply(b),
        ),
        (ContentKind::File, Ok(OutputView::Body(b))) => (
            released(file_served(n)),
            OutcomeView::Reply(b),
        ),
        (ContentKind::Page, Err(ErrorView::NotFound(_))) => (
            released(missed(n)),
            OutcomeView::Reply(encode_utf8(micron::missing_page(route))),
        ),
        (ContentKind::File, Err(ErrorView::NotFound(_))) => (
            released(missed(n)),
            OutcomeView::Drop(DropView::NotThere),
        ),
        (_, Err(e)) => (released(n), OutcomeView::Drop(DropView::Failed(kind, route, e))),
        _ => (released(n), OutcomeView::Drop(DropView::NotThere)),
    }
}

/// Where a request stands once it is known whether its content can be read.
pub open spec fn reading(
    n: NodeView,
    kind: ContentKind,
    route: Seq<char>,
    read: Result<StoreView, ErrorView>,
) -> (NodeView, ServeStepView) {
    match read {
        Ok(read) => (n, ServeStepView::Read(ServeView { kind, route, read })),
        Err(e) => {
            let (after, outcome) = concluded(n, kind, route, Err(e));
            (after, ServeStepView::Answer(outcome))
        },
    }
}

/// Where a request for a route stands.
pub open spec fn routed(n: NodeView, route: Seq<char>) -> (NodeView, ServeStepView) {
    if PAGE_PREFIX@.is_prefix_of(route) {
        reading(
            n,
            ContentKind::Page,
            route,
            storage::route_begun(
                n.roots.pages_dir,
                n.roots.max_page_bytes,
                paths::page_relative(route),
            ),
        )
    } else if FILE_PREFIX@.is_prefix_of(route) {
        reading(
            n,
            ContentKind::File,
            route,
            storage::route_begun(
                n.roots.files_dir,
                n.roots.max_file_bytes,
                paths::file_relative(route),
            ),
        )
    } else {
        (released(n), ServeStepView::Answer(OutcomeView::Drop(DropView::NotThere)))
    }
}

/// The node after it admitted a request.
pub open spec fn admitted(n: NodeView, now: u128, now_ms: u64) -> NodeView {
    NodeView {
        budget: budget::after_request(n.budget, now),
        stats: stats::with_request(n.stats, now_ms),
        ..n
    }
}

/// Where a request stands that has just come in. Over the budget it is dropped.
/// A hash that no route has is answered with a page that says so; nothing is
/// looked for on disk.
pub open spec fn received(n: NodeView, hash: Seq<u8>, now: u128, now_ms: u64) -> (
    NodeView,
    ServeStepView,
) {
    if !budget::admits(n.budget, now) {
        (
            NodeView { budget: budget::after_request(n.budget, now), ..n },
            ServeStepView::Answer(OutcomeView::Drop(DropView::OverBudget)),
        )
    } else {
        let n = admitted(n, now, now_ms);
        if n.routes.dom().contains(hash) {
            routed(n, n.routes[hash])
        } else {
            (
                released(missed(n)),
                ServeStepView::Answer(
                    OutcomeView::Reply(encode_utf8(micron::missing_page("/page/unknown"@))),
                ),
            )
        }
    }
}

/// Where a request stands after the file system replied to its task.
pub open spec fn resumed(n: NodeView, s: ServeView, reply: ReplyView) -> (
    NodeView,
    ServeStepView,
) {
    match store_task::next(s.read, reply) {
        StoreStepView::Ask(read) => (n, ServeStepView::Read(ServeView { read, ..s })),
        StoreStepView::Done(result) => {
            let (after, outcome) = concluded(n, s.kind, s.route, result);
            (after, ServeStepView::Answer(outcome))
        },
    }
}

/// A node that serves nothing yet.
pub open spec fn unrouted(
    destination_hash: Seq<u8>,
    identity_hash: Seq<u8>,
    display_name: Seq<char>,
    roots: RootsView,
) -> NodeView {
    NodeView {
        destination_hash,
        identity_hash,
        display_name,
        roots,
        routes: Map::empty(),
        stats: stats::zero(),
        budget: budget::fresh(0),
    }
}

impl NomadNode {
    /// A node that serves nothing yet.
    pub(crate) fn new_unrouted(
        destination_hash: [u8; 16],
        identity_hash: [u8; 16],
        display_name: String,
        store: NomadContentStore,
    ) -> (r: Self)
        ensures
            r@ == unrouted(destination_hash@, identity_hash@, display_name@, store@),
    {
        NomadNode {
            destination_hash,
            identity_hash,
            display_name,
            store,
            routes: RouteTable::new(),
            stats: NomadServeStatsInner::new(),
            budget: RequestBudget::new(0),
        }
    }

    /// Begin to serve: the budget starts now.
    pub(crate) fn begin(&mut self, now: u128)
        ensures
            final(self)@ == (NodeView { budget: budget::fresh(now), ..old(self)@ }),
    {
        self.budget = RequestBudget::new(now);
    }

    /// Destination hash for `nomadnetwork.node`.
    pub fn destination_hash(&self) -> (r: [u8; 16])
        ensures
            r@ == self@.destination_hash,
    {
        self.destination_hash
    }

    /// Identity hash of the hosting identity.
    pub fn identity_hash(&self) -> (r: [u8; 16])
        ensures
            r@ == self@.identity_hash,
    {
        self.identity_hash
    }

    /// Hex-encoded destination hash.
    pub fn destination_hash_hex(&self) -> (r: String)
        ensures
            r@ == names::hex_text(self@.destination_hash),
    {
        hex_encode(self.destination_hash.as_slice())
    }

    /// Hex-encoded identity hash.
    pub fn identity_hash_hex(&self) -> (r: String)
        ensures
            r@ == names::hex_text(self@.identity_hash),
    {
        hex_encode(self.identity_hash.as_slice())
    }

    /// Current display name used in announces.
    pub fn display_name(&self) -> (r: String)
        ensures
            r@ == self@.display_name,
    {
        self.display_name.clone()
    }

    /// Update the display name (clamped / control-stripped). An announce
    /// publishes the change.
    pub fn set_display_name(&mut self, name: &str)
        ensures
            final(self)@ == (NodeView { display_name: names::kept_name(name@), ..old(self)@ }),
    {
        self.display_name = clamp_display_name(name);
    }

    /// Snapshot of serve counters.
    pub fn stats(&self) -> (r: NomadServeStats)
        ensures
            r == stats::snapshot_of(self@.stats),
    {
        self.stats.snapshot()
    }

    /// Borrow the content store (write pages/files, then [`Self::reload_routes`]).
    pub fn store(&self) -> (r: &NomadContentStore)
        ensures
            r@ == self@.roots,
    {
        &self.store
    }

    /// Borrow the route table.
    pub fn routes(&self) -> (r: &RouteTable)
        ensures
            r@ == self@.routes,
    {
        &self.routes
    }

    /// Register one more route, beside those found in the content directories.
    pub fn register_route(&mut self, route: String) -> (r: Result<(), NomadError>)
        ensures
            match routes::registered(old(self)@.routes, paths::route_hash(route@), route@) {
                Ok(table) => r is Ok && final(self)@ == (NodeView { routes: table, ..old(self)@ }),
                Err(e) => r matches Err(told) && told@ == e && final(self)@ == old(self)@,
            },
    {
        self.routes.register(route)
    }

    /// Refresh route table from the filesystem (call after CRUD). The table is
    /// emptied and then filled as the listings come in.
    pub fn reload_routes(&mut self) -> (r: RebuildTask)
        ensures
            final(self)@ == (NodeView { routes: Map::empty(), ..old(self)@ }),
            r@ == rebuild::started(old(self)@.roots),
            listing::is_well_formed(r@.listing),
    {
        rebuild_routes(&mut self.routes, &self.store)
    }

    /// Go on with a refresh of the route table.
    pub fn resume_reload(&mut self, task: RebuildTask, reply: ListReply) -> (r: RebuildStep)
        requires
            listing::is_well_formed(task@.listing),
            listing::answers(reply@, task@.listing.request),
        ensures
            ({
                let (step, table) = rebuild::next(task@, old(self)@.routes, reply@);
                r@ == step && final(self)@ == (NodeView { routes: table, ..old(self)@ })
            }),
            r matches RebuildStep::Ask(task) ==> listing::is_well_formed(task@.listing),
    {
        task.resume(&mut self.routes, reply)
    }

    /// The end of a request whose content has been read, or could not be.
    fn conclude(
        &mut self,
        kind: ContentKind,
        route: String,
        permit: RequestPermit,
        result: Result<StoreOutput, NomadError>,
    ) -> (r: RequestOutcome)
        ensures
            (final(self)@, r@) == concluded(
                old(self)@,
                kind,
                route@,
                crate::error::result_view(result),
            ),
    {
        self.budget.release(permit);
        match (kind, result) {
            (ContentKind::Page, Ok(StoreOutput::Body(bytes))) => {
                self.stats.count_page();
                RequestOutcome::Reply(bytes)
            },
            (ContentKind::File, Ok(StoreOutput::Body(bytes))) => {
                self.stats.count_file();
                RequestOutcome::Reply(bytes)
            },
            (ContentKind::Page, Err(NomadError::NotFound(_))) => {
                self.stats.count_miss();
                let page = not_found_page(route.as_str());
                RequestOutcome::Reply(utf8_bytes(page.as_str()))
            },
            (ContentKind::File, Err(NomadError::NotFound(_))) => {
                self.stats.count_miss();
                RequestOutcome::Drop(DropReason::NotThere)
            },
            (kind, Err(error)) => RequestOutcome::Drop(DropReason::Failed { kind, route, error }),
            _ => RequestOutcome::Drop(DropReason::NotThere),
        }
    }

    /// A request whose content is to be read next.
    fn start_reading(
        &mut self,
        kind: ContentKind,
        route: String,
        permit: RequestPermit,
        read: Result<StoreTask, NomadError>,
    ) -> (r: ServeStep)
        requires
            storage::is_ready(read),
        ensures
            (final(self)@, r@) == reading(
                old(self)@,
                kind,
                route@,
                crate::error::result_view(read),
            ),
            r matches ServeStep::Read(task) ==> store_task::is_well_formed(task@.read),
    {
        match read {
            Ok(read) => ServeStep::Read(ServeTask { kind, route, read, permit }),
            Err(e) => ServeStep::Answer(self.conclude(kind, route, permit, Err(e))),
        }
    }

    /// Answer a request for the route that has the path hash, or start to read
    /// what it names. `now` is a monotonic time in nanoseconds, `now_ms` the
    /// wall-clock time in milliseconds.
    pub fn handle_request(&mut self, path_hash: &[u8; 16], now: u128, now_ms: u64) -> (r: ServeStep)
        ensures
            (final(self)@, r@) == received(old(self)@, path_hash@, now, now_ms),
            r matches ServeStep::Read(task) ==> store_task::is_well_formed(task@.read),
    {
        let permit = match self.budget.try_acquire(now) {
            Some(permit) => permit,
            None => return ServeStep::Answer(RequestOutcome::Drop(DropReason::OverBudget)),
        };
        self.stats.count_request(now_ms);
        let route = match self.routes.lookup(path_hash) {
            Some(route) => route.clone(),
            None => {
                self.stats.count_miss();
                self.budget.release(permit);
                let page = not_found_page("/page/unknown");
                return ServeStep::Answer(RequestOutcome::Reply(utf8_bytes(page.as_str())));
            },
        };
        if has_prefix(route.as_str(), PAGE_PREFIX) {
            let read = self.store.read_page_route(route.as_str());
            self.start_reading(ContentKind::Page, route, permit, read)
        } else if has_prefix(route.as_str(), FILE_PREFIX) {
            let read = self.store.read_file_route(route.as_str());
            self.start_reading(ContentKind::File, route, permit, read)
        } else {
            self.budget.release(permit);
            ServeStep::Answer(RequestOutcome::Drop(DropReason::NotThere))
        }
    }

    /// Go on with a request after the file system replied to its task.
    pub fn resume_request(&mut self, task: ServeTask, reply: FsReply) -> (r: ServeStep)
        requires
            store_task::is_well_formed(task@.read),
            fs::answers(reply@, store_task::request_of(task@.read)),
        ensures
            (final(self)@, r@) == resumed(old(self)@, task@, reply@),
            r matches ServeStep::Read(task) ==> store_task::is_well_formed(task@.read),
    {
        let ServeTask { kind, route, read, permit } = task;
        match read.resume(reply) {
            StoreStep::Ask(read) => ServeStep::Read(ServeTask { kind, route, read, permit }),
            StoreStep::Done(result) => ServeStep::Answer(
                self.conclude(kind, route, permit, result),
            ),
        }
    }
}

} // verus!
