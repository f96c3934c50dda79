//! The start of a node: its index page, its destination, its routes.

use vstd::prelude::*;
use vstd::utf8::*;

use crate::budget;
use crate::error::ErrorView;
use crate::error::NomadError;
use crate::fs;
use crate::fs::FsReply;
use crate::fs::FsRequest;
use crate::fs::ReplyView;
use crate::fs::RequestView;
use crate::listing;
use crate::listing::ListReply;
use crate::listing::ListReplyView;
use crate::listing::ListRequest;
use crate::micron;
use crate::names;
use crate::names::clamp_display_name;
use crate::node;
use crate::node::NodeView;
use crate::node::NomadNode;
use crate::node::NomadNodeConfig;
use crate::rebuild;
use crate::rebuild::RebuildStep;
use crate::rebuild::RebuildStepView;
use crate::rebuild::RebuildTask;
use crate::rebuild::RebuildView;
use crate::storage;
use crate::storage::NomadContentStore;
use crate::storage::RootsView;
use crate::store_task;
use crate::store_task::OpView;
use crate::store_task::StoreStep;
use crate::store_task::StoreStepView;
use crate::store_task::StoreTask;
use crate::store_task::StoreView;

verus! {

/// What the start of a node is waiting for.
#[derive(Debug)]
pub enum SpawnPhase {
    /// The default index page.
    Index(StoreTask),
    /// The registration of the destination.
    Register,
    /// The routes of the content.
    Routes(RebuildTask),
    /// Whether the identity can sign.
    SigningKey,
}

/// The contents of a [`SpawnPhase`].
pub enum SpawnPhaseView {
    Index(StoreView),
    Register,
    Routes(RebuildView),
    SigningKey,
}

impl View for SpawnPhase {
    type V = SpawnPhaseView;

    open spec fn view(&self) -> SpawnPhaseView {
        match *self {
            SpawnPhase::Index(t) => SpawnPhaseView::Index(t@),
            SpawnPhase::Register => SpawnPhaseView::Register,
            SpawnPhase::Routes(t) => SpawnPhaseView::Routes(t@),
            SpawnPhase::SigningKey => SpawnPhaseView::SigningKey,
        }
    }
}

/// What the start of a node asks of its host.
#[derive(Debug)]
pub enum SpawnRequest {
    /// Carry out a request to the file system.
    Fs(FsRequest),
    /// Register the destination with the transport.
    Register,
    /// Answer a request of a listing of the directory.
    List(String, ListRequest),
    /// Does the identity have a signing key?
    SigningKey,
}

/// The contents of a [`SpawnRequest`].
pub enum SpawnRequestView {
    Fs(RequestView),
    Register,
    List(Seq<char>, ListRequest),
    SigningKey,
}

impl View for SpawnRequest {
    type V = SpawnRequestView;

    open spec fn view(&self) -> SpawnRequestView {
        match *self {
            SpawnRequest::Fs(r) => SpawnRequestView::Fs(r@),
            SpawnRequest::Register => SpawnRequestView::Register,
            SpawnRequest::List(root, r) => SpawnRequestView::List(root@, r),
            SpawnRequest::SigningKey => SpawnRequestView::SigningKey,
        }
    }
}

/// The reply to a [`SpawnRequest`].
#[derive(Debug)]
pub enum SpawnReply {
    Fs(FsReply),
    /// The destination is registered; the monotonic time in nanoseconds.
    Registered(u128),
    List(ListReply),
    SigningKey(bool),
}

/// The contents of a [`SpawnReply`].
pub enum SpawnReplyView {
    Fs(ReplyView),
    Registered(u128),
    List(ListReplyView),
    SigningKey(bool),
}

impl View for SpawnReply {
    type V = SpawnReplyView;

    open spec fn view(&self) -> SpawnReplyView {
        match *self {
            SpawnReply::Fs(r) => SpawnReplyView::Fs(r@),
            SpawnReply::Registered(now) => SpawnReplyView::Registered(now),
            SpawnReply::List(r) => SpawnReplyView::List(r@),
            SpawnReply::SigningKey(b) => SpawnReplyView::SigningKey(b),
        }
    }
}

/// Is the reply of a kind that the request can be answered with?
pub open spec fn answers(reply: SpawnReplyView, request: SpawnRequestView) -> bool {
    match (request, reply) {
        (SpawnRequestView::Fs(request), SpawnReplyView::Fs(reply)) => fs::answers(reply, request),
        (SpawnRequestView::Register, SpawnReplyView::Registered(_)) => true,
        (SpawnRequestView::List(_, request), SpawnReplyView::List(reply)) => listing::answers(
            reply,
            request,
        ),
        (SpawnRequestView::SigningKey, SpawnReplyView::SigningKey(_)) => true,
        _ => false,
    }
}

/// The start of a node, in progress.
#[derive(Debug)]
pub struct SpawnTask {
    node: NomadNode,
    phase: SpawnPhase,
}

/// The contents of a [`SpawnTask`].
pub struct SpawnView {
    pub node: NodeView,
    pub phase: SpawnPhaseView,
}

impl View for SpawnTask {
    type V = SpawnView;

    closed spec fn view(&self) -> SpawnView {
        SpawnView { node: self.node@, phase: self.phase@ }
    }
}

/// Where the start of a node stands after a reply.
#[derive(Debug)]
pub enum SpawnStep {
    /// One more request is to be answered.
    Ask(SpawnTask),
    /// The node is ready to serve, or it cannot be.
    Done(Result<NomadNode, NomadError>),
}

/// The contents of a [`SpawnStep`].
pub enum SpawnStepView {
    Ask(SpawnView),
    Done(Result<NodeView, ErrorView>),
}

impl View for SpawnStep {
    type V = SpawnStepView;

    open spec fn view(&self) -> SpawnStepView {
        match *self {
            SpawnStep::Ask(task) => SpawnStepView::Ask(task@),
            SpawnStep::Done(r) => SpawnStepView::Done(crate::error::result_view(r)),
        }
    }
}

/// The start of a node: its name is clamped, and the default index page comes
/// first.
pub open spec fn spawned(
    destination_hash: Seq<u8>,
    identity_hash: Seq<u8>,
    display_name: Seq<char>,
    roots: RootsView,
) -> Result<SpawnView, ErrorView> {
    let name = names::kept_name(display_name);
    match storage::begun(
        OpView::WriteIfMissing(encode_utf8(micron::index_page(name))),
        roots.pages_dir,
        "index.mu"@,
    ) {
        Err(e) => Err(e),
        Ok(task) => Ok(
            SpawnView {
                node: node::unrouted(destination_hash, identity_hash, name, roots),
                phase: SpawnPhaseView::Index(task),
            },
        ),
    }
}

/// What the start of a node is waiting for.
pub open spec fn spawn_request(s: SpawnView) -> SpawnRequestView {
    match s.phase {
        SpawnPhaseView::Index(t) => SpawnRequestView::Fs(store_task::request_of(t)),
        SpawnPhaseView::Register => SpawnRequestView::Register,
        SpawnPhaseView::Routes(t) => SpawnRequestView::List(t.listing.root, t.listing.request),
        SpawnPhaseView::SigningKey => SpawnRequestView::SigningKey,
    }
}

/// Where the start of a node stands after a reply. The destination is registered
/// only once the index page is there; the first failure ends the start.
pub open spec fn spawn_next(s: SpawnView, reply: SpawnReplyView) -> SpawnStepView {
    match (s.phase, reply) {
        (SpawnPhaseView::Index(t), SpawnReplyView::Fs(reply)) => match store_task::next(t, reply) {
            StoreStepView::Ask(t) => SpawnStepView::Ask(
                SpawnView { phase: SpawnPhaseView::Index(t), ..s },
            ),
            StoreStepView::Done(Err(e)) => SpawnStepView::Done(Err(e)),
            StoreStepView::Done(Ok(_)) => SpawnStepView::Ask(
                SpawnView { phase: SpawnPhaseView::Register, ..s },
            ),
        },
        (SpawnPhaseView::Register, SpawnReplyView::Registered(now)) => SpawnStepView::Ask(
            SpawnView {
                node: NodeView {
                    routes: Map::empty(),
                    budget: budget::fresh(now),
                    ..s.node
                },
                phase: SpawnPhaseView::Routes(rebuild::started(s.node.roots)),
            },
        ),
        (SpawnPhaseView::Routes(t), SpawnReplyView::List(reply)) => {
            let (step, table) = rebuild::next(t, s.node.routes, reply);
            let node = NodeView { routes: table, ..s.node };
            match step {
                RebuildStepView::Ask(t) => SpawnStepView::Ask(
                    SpawnView { node, phase: SpawnPhaseView::Routes(t) },
                ),
                RebuildStepView::Done(Err(e)) => SpawnStepView::Done(Err(e)),
                RebuildStepView::Done(Ok(_)) => SpawnStepView::Ask(
                    SpawnView { node, phase: SpawnPhaseView::SigningKey },
                ),
            }
        },
        (SpawnPhaseView::SigningKey, SpawnReplyView::SigningKey(true)) => SpawnStepView::Done(
            Ok(s.node),
        ),
        _ => SpawnStepView::Done(Err(ErrorView::Message("identity has no signing key"@))),
    }
}

/// The task within the start of a node, if there is one, is well formed.
pub open spec fn is_well_formed(s: SpawnView) -> bool {
    match s.phase {
        SpawnPhaseView::Index(t) => store_task::is_well_formed(t),
        SpawnPhaseView::Routes(t) => listing::is_well_formed(t.listing),
        _ => true,
    }
}

impl NomadNode {
    /// Start a node: ensure its index page, register `nomadnetwork.node`, find its
    /// routes. The hashes are those of the destination and of the identity.
    pub fn spawn(
        destination_hash: [u8; 16],
        identity_hash: [u8; 16],
        store: NomadContentStore,
        config: &NomadNodeConfig,
    ) -> (r: Result<SpawnTask, NomadError>)
        ensures
            crate::error::result_view(r) == spawned(
                destination_hash@,
                identity_hash@,
                config.display_name@,
                store@,
            ),
            r is Ok,
            r matches Ok(task) ==> is_well_formed(task@),
    {
        let display_name = clamp_display_name(config.display_name.as_str());
        match store.ensure_default_index(display_name.as_str()) {
            Err(e) => Err(e),
            Ok(index) => {
                let node = NomadNode::new_unrouted(
                    destination_hash,
                    identity_hash,
                    display_name,
                    store,
                );
                Ok(SpawnTask { node, phase: SpawnPhase::Index(index) })
            },
        }
    }
}

impl SpawnTask {
    /// The request to answer next.
    pub fn request(&self) -> (r: SpawnRequest)
        ensures
            r@ == spawn_request(self@),
    {
        match &self.phase {
            SpawnPhase::Index(t) => SpawnRequest::Fs(t.request()),
            SpawnPhase::Register => SpawnRequest::Register,
            SpawnPhase::Routes(t) => SpawnRequest::List(t.root().to_owned(), t.request()),
            SpawnPhase::SigningKey => SpawnRequest::SigningKey,
        }
    }

    /// Go on with the reply to the request.
    pub fn resume(self, reply: SpawnReply) -> (r: SpawnStep)
        requires
            is_well_formed(self@),
            answers(reply@, spawn_request(self@)),
        ensures
            r@ == spawn_next(self@, reply@),
            r matches SpawnStep::Ask(task) ==> is_well_formed(task@),
    {
        let SpawnTask { node, phase } = self;
        let mut node = node;
        match (phase, reply) {
            (SpawnPhase::Index(t), SpawnReply::Fs(reply)) => match t.resume(reply) {
                StoreStep::Ask(t) => SpawnStep::Ask(
                    SpawnTask { node, phase: SpawnPhase::Index(t) },
                ),
                StoreStep::Done(Err(e)) => SpawnStep::Done(Err(e)),
                StoreStep::Done(Ok(_)) => SpawnStep::Ask(
                    SpawnTask { node, phase: SpawnPhase::Register },
                ),
            },
            (SpawnPhase::Register, SpawnReply::Registered(now)) => {
                node.begin(now);
                let t = node.reload_routes();
                SpawnStep::Ask(SpawnTask { node, phase: SpawnPhase::Routes(t) })
            },
            (SpawnPhase::Routes(t), SpawnReply::List(reply)) => match node.resume_reload(t, reply) {
                RebuildStep::Ask(t) => SpawnStep::Ask(
                    SpawnTask { node, phase: SpawnPhase::Routes(t) },
                ),
                RebuildStep::Done(Err(e)) => SpawnStep::Done(Err(e)),
                RebuildStep::Done(Ok(_)) => SpawnStep::Ask(
                    SpawnTask { node, phase: SpawnPhase::SigningKey },
                ),
            },
            (SpawnPhase::SigningKey, SpawnReply::SigningKey(true)) => SpawnStep::Done(Ok(node)),
            _ => SpawnStep::Done(Err(NomadError::message("identity has no signing key"))),
        }
    }
}

} // verus!
