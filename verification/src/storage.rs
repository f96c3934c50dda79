//! The content store: pages and files under two content directories.
//!
//! Content directories are trusted local storage: operators must ensure they are
//! not writable by untrusted local users. Symbolic link components are rejected;
//! hard links under the same volume are not.

use vstd::prelude::*;
use vstd::slice::slice_to_vec;
use vstd::utf8::*;

use crate::components;
use crate::components::join_paths;
use crate::error;
use crate::error::ErrorView;
use crate::error::NomadError;
use crate::fs;
use crate::fs::FsReply;
use crate::fs::FsRequest;
use crate::fs::ReplyView;
use crate::fs::RequestView;
use crate::listing;
use crate::listing::list_under;
use crate::listing::ListTask;
use crate::micron;
use crate::micron::default_index_page;
use crate::paths;
use crate::paths::strip_file_prefix;
use crate::paths::strip_page_prefix;
use crate::paths::validate_content_relative_path;
use crate::resolve::resolve_under_root;
use crate::route_laws;
use crate::store_task;
use crate::store_task::OpView;
use crate::store_task::StoreOp;
use crate::store_task::StoreTask;
use crate::store_task::StoreView;
use crate::text::utf8_bytes;

verus! {

/// Default max page body.
pub const DEFAULT_MAX_PAGE_BYTES: usize = 512 * 1024;

/// Default max file body.
pub const DEFAULT_MAX_FILE_BYTES: usize = 4 * 1024 * 1024;

/// Content directories and size caps.
#[derive(Debug)]
pub struct NomadContentRoots {
    /// Directory served as `/page/...` routes.
    pub pages_dir: String,
    /// Directory served as `/file/...` routes.
    pub files_dir: String,
    /// Max bytes read/written for a page body.
    pub max_page_bytes: usize,
    /// Max bytes read/written for a file body.
    pub max_file_bytes: usize,
}

/// The contents of [`NomadContentRoots`].
pub struct RootsView {
    pub pages_dir: Seq<char>,
    pub files_dir: Seq<char>,
    pub max_page_bytes: usize,
    pub max_file_bytes: usize,
}

impl View for NomadContentRoots {
    type V = RootsView;

    open spec fn view(&self) -> RootsView {
        RootsView {
            pages_dir: self.pages_dir@,
            files_dir: self.files_dir@,
            max_page_bytes: self.max_page_bytes,
            max_file_bytes: self.max_file_bytes,
        }
    }
}

impl Clone for NomadContentRoots {
    fn clone(&self) -> (r: Self)
        ensures
            r@ == self@,
    {
        NomadContentRoots {
            pages_dir: self.pages_dir.clone(),
            files_dir: self.files_dir.clone(),
            max_page_bytes: self.max_page_bytes,
            max_file_bytes: self.max_file_bytes,
        }
    }
}

/// The roots `<base>/pages` and `<base>/files` with the default size caps.
pub open spec fn roots_under(base: Seq<char>) -> RootsView {
    RootsView {
        pages_dir: components::join(base, "pages"@),
        files_dir: components::join(base, "files"@),
        max_page_bytes: DEFAULT_MAX_PAGE_BYTES,
        max_file_bytes: DEFAULT_MAX_FILE_BYTES,
    }
}

impl NomadContentRoots {
    /// Build roots as `<base>/pages` and `<base>/files` with default size caps.
    pub fn under(base: &str) -> (r: Self)
        ensures
            r@ == roots_under(base@),
    {
        NomadContentRoots {
            pages_dir: join_paths(base, "pages"),
            files_dir: join_paths(base, "files"),
            max_page_bytes: DEFAULT_MAX_PAGE_BYTES,
            max_file_bytes: DEFAULT_MAX_FILE_BYTES,
        }
    }

    /// Create both content directories if missing.
    pub fn ensure_dirs(&self) -> (r: DirsTask)
        ensures
            r@ == dirs_started(self@),
    {
        DirsTask {
            pages_dir: self.pages_dir.clone(),
            files_dir: self.files_dir.clone(),
            pages_done: false,
        }
    }
}

/// The creation of both content directories, in progress.
#[derive(Debug)]
pub struct DirsTask {
    pages_dir: String,
    files_dir: String,
    pages_done: bool,
}

/// The contents of a [`DirsTask`].
pub struct DirsView {
    pub pages_dir: Seq<char>,
    pub files_dir: Seq<char>,
    /// Has the directory for pages been created?
    pub pages_done: bool,
}

impl View for DirsTask {
    type V = DirsView;

    closed spec fn view(&self) -> DirsView {
        DirsView {
            pages_dir: self.pages_dir@,
            files_dir: self.files_dir@,
            pages_done: self.pages_done,
        }
    }
}

/// Where the creation of the directories stands after a reply.
#[derive(Debug)]
pub enum DirsStep {
    /// One more request is to be answered.
    Ask(DirsTask),
    /// Both directories exist, or one could not be created.
    Done(Result<(), NomadError>),
}

/// The contents of a [`DirsStep`].
pub enum DirsStepView {
    Ask(DirsView),
    Done(Result<(), ErrorView>),
}

impl View for DirsStep {
    type V = DirsStepView;

    open spec fn view(&self) -> DirsStepView {
        match *self {
            DirsStep::Ask(task) => DirsStepView::Ask(task@),
            DirsStep::Done(Ok(_)) => DirsStepView::Done(Ok(())),
            DirsStep::Done(Err(e)) => DirsStepView::Done(Err(e@)),
        }
    }
}

/// The start of the creation of both directories.
pub open spec fn dirs_started(roots: RootsView) -> DirsView {
    DirsView { pages_dir: roots.pages_dir, files_dir: roots.files_dir, pages_done: false }
}

/// The directory for pages comes first.
pub open spec fn dirs_request(s: DirsView) -> RequestView {
    if s.pages_done {
        RequestView::MakeDirs(s.files_dir)
    } else {
        RequestView::MakeDirs(s.pages_dir)
    }
}

/// Where the creation of the directories stands after the reply: the first
/// failure ends it.
pub open spec fn dirs_next(s: DirsView, reply: ReplyView) -> DirsStepView {
    match reply {
        ReplyView::Failed(e) => DirsStepView::Done(Err(ErrorView::Io(e))),
        _ => if s.pages_done {
            DirsStepView::Done(Ok(()))
        } else {
            DirsStepView::Ask(DirsView { pages_done: true, ..s })
        },
    }
}

impl DirsTask {
    /// The request to answer next.
    pub fn request(&self) -> (r: FsRequest)
        ensures
            r@ == dirs_request(self@),
    {
        if self.pages_done {
            FsRequest::MakeDirs(self.files_dir.clone())
        } else {
            FsRequest::MakeDirs(self.pages_dir.clone())
        }
    }

    /// Go on with the reply to the request.
    pub fn resume(self, reply: FsReply) -> (r: DirsStep)
        requires
            fs::answers(reply@, dirs_request(self@)),
        ensures
            r@ == dirs_next(self@, reply@),
    {
        match reply {
            FsReply::Failed(e) => DirsStep::Done(Err(NomadError::Io(e))),
            _ => if self.pages_done {
                DirsStep::Done(Ok(()))
            } else {
                let mut task = self;
                task.pages_done = true;
                DirsStep::Ask(task)
            },
        }
    }
}

/// Read/write/list pages and files under configured content roots.
#[derive(Debug)]
pub struct NomadContentStore {
    roots: NomadContentRoots,
}

impl View for NomadContentStore {
    type V = RootsView;

    closed spec fn view(&self) -> RootsView {
        self.roots@
    }
}

impl Clone for NomadContentStore {
    fn clone(&self) -> (r: Self)
        ensures
            r@ == self@,
    {
        NomadContentStore { roots: self.roots.clone() }
    }
}

/// The opening of a content store, in progress.
#[derive(Debug)]
pub struct OpenTask {
    roots: NomadContentRoots,
    dirs: DirsTask,
}

/// The contents of an [`OpenTask`].
pub struct OpenView {
    pub roots: RootsView,
    pub dirs: DirsView,
}

impl View for OpenTask {
    type V = OpenView;

    closed spec fn view(&self) -> OpenView {
        OpenView { roots: self.roots@, dirs: self.dirs@ }
    }
}

/// Where the opening of a store stands after a reply.
#[derive(Debug)]
pub enum OpenStep {
    /// One more request is to be answered.
    Ask(OpenTask),
    /// The store is open, or its directories could not be created.
    Done(Result<NomadContentStore, NomadError>),
}

/// The contents of an [`OpenStep`].
pub enum OpenStepView {
    Ask(OpenView),
    Done(Result<RootsView, ErrorView>),
}

impl View for OpenStep {
    type V = OpenStepView;

    open spec fn view(&self) -> OpenStepView {
        match *self {
            OpenStep::Ask(task) => OpenStepView::Ask(task@),
            OpenStep::Done(r) => OpenStepView::Done(error::result_view(r)),
        }
    }
}

/// The start of the opening of a store.
pub open spec fn open_started(roots: RootsView) -> OpenView {
    OpenView { roots, dirs: dirs_started(roots) }
}

/// The store is open once both directories exist.
pub open spec fn open_next(s: OpenView, reply: ReplyView) -> OpenStepView {
    match dirs_next(s.dirs, reply) {
        DirsStepView::Ask(dirs) => OpenStepView::Ask(OpenView { dirs, ..s }),
        DirsStepView::Done(Ok(_)) => OpenStepView::Done(Ok(s.roots)),
        DirsStepView::Done(Err(e)) => OpenStepView::Done(Err(e)),
    }
}

impl OpenTask {
    /// The request to answer next.
    pub fn request(&self) -> (r: FsRequest)
        ensures
            r@ == dirs_request(self@.dirs),
    {
        self.dirs.request()
    }

    /// Go on with the reply to the request.
    pub fn resume(self, reply: FsReply) -> (r: OpenStep)
        requires
            fs::answers(reply@, dirs_request(self@.dirs)),
        ensures
            r@ == open_next(self@, reply@),
    {
        let OpenTask { roots, dirs } = self;
        match dirs.resume(reply) {
            DirsStep::Ask(dirs) => OpenStep::Ask(OpenTask { roots, dirs }),
            DirsStep::Done(Ok(_)) => OpenStep::Done(Ok(NomadContentStore { roots })),
            DirsStep::Done(Err(e)) => OpenStep::Done(Err(e)),
        }
    }
}

/// An operation on `rel` under `root`: refused where the path is not acceptable.
pub open spec fn begun(op: OpView, root: Seq<char>, rel: Seq<char>) -> Result<
    StoreView,
    ErrorView,
> {
    match paths::content_path_error(rel) {
        Some(e) => Err(e),
        None => Ok(store_task::started(op, root, rel)),
    }
}

/// The writing of `content` to `rel` under `root`: refused where the path is not
/// acceptable, and where the content is over the cap.
pub open spec fn write_begun(
    root: Seq<char>,
    max: usize,
    rel: Seq<char>,
    content: Seq<u8>,
) -> Result<StoreView, ErrorView> {
    if paths::content_path_error(rel) is None && content.len() > max {
        Err(ErrorView::TooLarge { size: content.len(), max: max as nat })
    } else {
        begun(OpView::Write(content), root, rel)
    }
}

/// The reading of what a route names: refused where the route is not acceptable.
pub open spec fn route_begun(
    root: Seq<char>,
    max: usize,
    relative: Result<Seq<char>, ErrorView>,
) -> Result<StoreView, ErrorView> {
    match relative {
        Err(e) => Err(e),
        Ok(rel) => begun(OpView::Read(max), root, rel),
    }
}

/// A task that can be carried out.
pub open spec fn is_ready(r: Result<StoreTask, NomadError>) -> bool {
    r matches Ok(task) ==> store_task::is_well_formed(task@)
}

fn begin(op: StoreOp, root: &str, rel: &str) -> (r: Result<StoreTask, NomadError>)
    ensures
        error::result_view(r) == begun(op@, root@, rel@),
        is_ready(r),
{
    match resolve_under_root(root, rel) {
        Err(e) => Err(e),
        Ok(resolution) => Ok(StoreTask::new(op, rel, resolution)),
    }
}

fn read_rel(root: &str, max: usize, rel: &str) -> (r: Result<StoreTask, NomadError>)
    ensures
        error::result_view(r) == begun(OpView::Read(max), root@, rel@),
        is_ready(r),
{
    begin(StoreOp::Read(max), root, rel)
}

fn write_rel(root: &str, max: usize, rel: &str, content: &[u8]) -> (r: Result<
    StoreTask,
    NomadError,
>)
    ensures
        error::result_view(r) == write_begun(root@, max, rel@, content@),
        is_ready(r),
{
    match validate_content_relative_path(rel) {
        Err(e) => return Err(e),
        Ok(_) => {},
    }
    if content.len() > max {
        return Err(NomadError::TooLarge { size: content.len(), max });
    }
    begin(StoreOp::Write(slice_to_vec(content)), root, rel)
}

fn delete_rel(root: &str, rel: &str) -> (r: Result<StoreTask, NomadError>)
    ensures
        error::result_view(r) == begun(OpView::Delete, root@, rel@),
        is_ready(r),
{
    begin(StoreOp::Delete, root, rel)
}

impl NomadContentStore {
    /// Create the store, ensuring content directories exist.
    pub fn new(roots: NomadContentRoots) -> (r: OpenTask)
        ensures
            r@ == open_started(roots@),
    {
        let dirs = roots.ensure_dirs();
        OpenTask { roots, dirs }
    }

    /// Borrow the configured roots and size caps.
    pub fn roots(&self) -> (r: &NomadContentRoots)
        ensures
            r@ == self@,
    {
        &self.roots
    }

    /// Ensure `pages/index.mu` exists (writes a placeholder when missing).
    ///
    /// The path is resolved and the write is atomic, so a dangling symbolic link
    /// at `index.mu` cannot redirect the write outside the content tree.
    pub fn ensure_default_index(&self, display_name: &str) -> (r: Result<StoreTask, NomadError>)
        ensures
            error::result_view(r) == begun(
                OpView::WriteIfMissing(encode_utf8(micron::index_page(display_name@))),
                self@.pages_dir,
                "index.mu"@,
            ),
            r is Ok,
            is_ready(r),
    {
        proof {
            route_laws::law_index_path_is_accepted();
        }
        let page = default_index_page(display_name);
        begin(
            StoreOp::WriteIfMissing(utf8_bytes(page.as_str())),
            self.roots.pages_dir.as_str(),
            "index.mu",
        )
    }

    /// List pages under `pages/` (skips dotfiles / `*.allowed`).
    pub fn list_pages(&self) -> (r: ListTask)
        ensures
            r@ == listing::started(self@.pages_dir),
            listing::is_well_formed(r@),
    {
        list_under(self.roots.pages_dir.as_str())
    }

    /// List files under `files/` (skips dotfiles / `*.allowed`).
    pub fn list_files(&self) -> (r: ListTask)
        ensures
            r@ == listing::started(self@.files_dir),
            listing::is_well_formed(r@),
    {
        list_under(self.roots.files_dir.as_str())
    }

    /// Read a page by wire route (`/page/...`).
    pub fn read_page_route(&self, route: &str) -> (r: Result<StoreTask, NomadError>)
        ensures
            error::result_view(r) == route_begun(
                self@.pages_dir,
                self@.max_page_bytes,
                paths::page_relative(route@),
            ),
            is_ready(r),
    {
        match strip_page_prefix(route) {
            Err(e) => Err(e),
            Ok(rel) => self.read_page_rel(rel),
        }
    }

    /// Read a page by content-relative path.
    pub fn read_page_rel(&self, rel: &str) -> (r: Result<StoreTask, NomadError>)
        ensures
            error::result_view(r) == begun(
                OpView::Read(self@.max_page_bytes),
                self@.pages_dir,
                rel@,
            ),
            is_ready(r),
    {
        read_rel(self.roots.pages_dir.as_str(), self.roots.max_page_bytes, rel)
    }

    /// Atomically write a page by content-relative path.
    pub fn write_page_rel(&self, rel: &str, content: &[u8]) -> (r: Result<StoreTask, NomadError>)
        ensures
            error::result_view(r) == write_begun(
                self@.pages_dir,
                self@.max_page_bytes,
                rel@,
                content@,
            ),
            is_ready(r),
    {
        write_rel(self.roots.pages_dir.as_str(), self.roots.max_page_bytes, rel, content)
    }

    /// Delete a page by content-relative path.
    pub fn delete_page_rel(&self, rel: &str) -> (r: Result<StoreTask, NomadError>)
        ensures
            error::result_view(r) == begun(OpView::Delete, self@.pages_dir, rel@),
            is_ready(r),
    {
        delete_rel(self.roots.pages_dir.as_str(), rel)
    }

    /// Read a file by wire route (`/file/...`).
    pub fn read_file_route(&self, route: &str) -> (r: Result<StoreTask, NomadError>)
        ensures
            error::result_view(r) == route_begun(
                self@.files_dir,
                self@.max_file_bytes,
                paths::file_relative(route@),
            ),
            is_ready(r),
    {
        match strip_file_prefix(route) {
            Err(e) => Err(e),
            Ok(rel) => self.read_file_rel(rel),
        }
    }

    /// Read a file by content-relative path.
    pub fn read_file_rel(&self, rel: &str) -> (r: Result<StoreTask, NomadError>)
        ensures
            error::result_view(r) == begun(
                OpView::Read(self@.max_file_bytes),
                self@.files_dir,
                rel@,
            ),
            is_ready(r),
    {
        read_rel(self.roots.files_dir.as_str(), self.roots.max_file_bytes, rel)
    }

    /// Atomically write a file by content-relative path.
    pub fn write_file_rel(&self, rel: &str, content: &[u8]) -> (r: Result<StoreTask, NomadError>)
        ensures
            error::result_view(r) == write_begun(
                self@.files_dir,
                self@.max_file_bytes,
                rel@,
                content@,
            ),
            is_ready(r),
    {
        write_rel(self.roots.files_dir.as_str(), self.roots.max_file_bytes, rel, content)
    }

    /// Delete a file by content-relative path.
    pub fn delete_file_rel(&self, rel: &str) -> (r: Result<StoreTask, NomadError>)
        ensures
            error::result_view(r) == begun(OpView::Delete, self@.files_dir, rel@),
            is_ready(r),
    {
        delete_rel(self.roots.files_dir.as_str(), rel)
    }
}

} // verus!
