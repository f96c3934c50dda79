//! Listing a content directory: a bounded walk that skips hidden names and
//! symbolic links.

use vstd::prelude::*;

use crate::error::ErrorView;
use crate::error::IoFailure;
use crate::error::IoFailureView;
use crate::error::NomadError;
use crate::fs::FileKind;
use crate::fs::FileStat;
use crate::order;
use crate::order::sort_entries;
use crate::paths;
use crate::paths::is_hidden_or_allowlist_name;
use crate::paths::validate_content_relative_path;
use crate::text::chars_of;
use crate::text::join2;
use crate::text::join3;

verus! {

/// Cap directory walk size to bound enumeration DoS.
pub const MAX_LISTED_ENTRIES: usize = 10_000;

/// Cap recursion depth when listing content.
pub const MAX_LIST_DEPTH: usize = 32;

/// Listed page or file metadata.
#[derive(Debug)]
pub struct NomadPageEntry {
    /// Path relative to the content root (forward slashes).
    pub path: String,
    /// File size in bytes.
    pub size: u64,
    /// Last-modified time as Unix milliseconds, when available.
    pub modified_ms: Option<u64>,
}

/// The contents of a [`NomadPageEntry`].
pub struct EntryView {
    pub path: Seq<char>,
    pub size: u64,
    pub modified_ms: Option<u64>,
}

impl View for NomadPageEntry {
    type V = EntryView;

    open spec fn view(&self) -> EntryView {
        EntryView { path: self.path@, size: self.size, modified_ms: self.modified_ms }
    }
}

impl Clone for NomadPageEntry {
    fn clone(&self) -> (r: Self)
        ensures
            r@ == self@,
    {
        NomadPageEntry {
            path: self.path.clone(),
            size: self.size,
            modified_ms: self.modified_ms,
        }
    }
}

/// What a walk asks for. "The directory" is the one to be entered: the root at
/// first, later the entry just looked at. "The open directory" is the one opened
/// last whose end has not been reached.
#[derive(Clone, Copy, Debug, PartialEq, Eq, Structural)]
pub enum ListRequest {
    /// Does the directory exist?
    Exists,
    /// What is the directory, a symbolic link not followed?
    StatDir,
    /// Open the directory for reading.
    OpenDir,
    /// The next entry of the open directory.
    NextEntry,
    /// What is the entry just read, a symbolic link not followed?
    StatEntry,
}

/// The reply to a [`ListRequest`].
#[derive(Debug)]
pub enum ListReply {
    Exists(bool),
    Stat(FileStat),
    /// The directory is open.
    Opened,
    /// The name of the next entry.
    Entry(String),
    /// The open directory has no more entries; it is closed.
    End,
    Failed(IoFailure),
}

/// The contents of a [`ListReply`].
pub enum ListReplyView {
    Exists(bool),
    Stat(FileStat),
    Opened,
    Entry(Seq<char>),
    End,
    Failed(IoFailureView),
}

impl View for ListReply {
    type V = ListReplyView;

    open spec fn view(&self) -> ListReplyView {
        match *self {
            ListReply::Exists(b) => ListReplyView::Exists(b),
            ListReply::Stat(s) => ListReplyView::Stat(s),
            ListReply::Opened => ListReplyView::Opened,
            ListReply::Entry(name) => ListReplyView::Entry(name@),
            ListReply::End => ListReplyView::End,
            ListReply::Failed(e) => ListReplyView::Failed(e@),
        }
    }
}

/// Is the reply of a kind that the request can be answered with?
pub open spec fn answers(reply: ListReplyView, request: ListRequest) -> bool {
    match request {
        ListRequest::Exists => reply is Exists,
        ListRequest::StatDir => reply is Stat || reply is Failed,
        ListRequest::OpenDir => reply is Opened || reply is Failed,
        ListRequest::NextEntry => reply is Entry || reply is End || reply is Failed,
        ListRequest::StatEntry => reply is Stat || reply is Failed,
    }
}

/// A walk through a content directory, in progress.
#[derive(Debug)]
pub struct ListTask {
    root: String,
    dirs: Vec<String>,
    name: String,
    out: Vec<NomadPageEntry>,
    request: ListRequest,
}

/// The contents of a [`ListTask`].
pub struct ListView {
    /// The content directory.
    pub root: Seq<char>,
    /// The names of the directories that lead to the current one.
    pub dirs: Seq<Seq<char>>,
    /// The name of the entry just read.
    pub name: Seq<char>,
    /// What has been found so far, in the order of the walk.
    pub out: Seq<EntryView>,
    /// What the walk is waiting for.
    pub request: ListRequest,
}

/// The names, each taken by its contents.
pub open spec fn name_views(s: Seq<String>) -> Seq<Seq<char>> {
    s.map_values(|n: String| n@)
}

impl View for ListTask {
    type V = ListView;

    closed spec fn view(&self) -> ListView {
        ListView {
            root: self.root@,
            dirs: name_views(self.dirs@),
            name: self.name@,
            out: order::entry_views(self.out@),
            request: self.request,
        }
    }
}

/// Where a walk stands after a reply.
#[derive(Debug)]
pub enum ListStep {
    /// One more request is to be answered.
    Ask(ListTask),
    /// The walk has ended.
    Done(Result<Vec<NomadPageEntry>, NomadError>),
}

/// The contents of a [`ListStep`].
pub enum ListStepView {
    Ask(ListView),
    Done(Result<Seq<EntryView>, ErrorView>),
}

impl View for ListStep {
    type V = ListStepView;

    open spec fn view(&self) -> ListStepView {
        match *self {
            ListStep::Ask(task) => ListStepView::Ask(task@),
            ListStep::Done(Ok(entries)) => ListStepView::Done(Ok(order::entry_views(entries@))),
            ListStep::Done(Err(e)) => ListStepView::Done(Err(e@)),
        }
    }
}

/// The start of a walk.
pub open spec fn started(root: Seq<char>) -> ListView {
    ListView {
        root,
        dirs: Seq::empty(),
        name: Seq::empty(),
        out: Seq::empty(),
        request: ListRequest::Exists,
    }
}

/// The directory names, each followed by a slash.
pub open spec fn dir_prefix(dirs: Seq<Seq<char>>) -> Seq<char>
    decreases dirs.len(),
{
    if dirs.len() == 0 {
        Seq::empty()
    } else {
        dir_prefix(dirs.drop_last()) + dirs.last() + "/"@
    }
}

/// A backslash becomes a slash.
pub open spec fn forward_slash(c: char) -> char {
    if c == '\\' {
        '/'
    } else {
        c
    }
}

/// The path of an entry relative to the content directory, with forward slashes.
pub open spec fn relative_path(dirs: Seq<Seq<char>>, name: Seq<char>) -> Seq<char> {
    (dir_prefix(dirs) + name).map_values(|c: char| forward_slash(c))
}

/// The same walk, waiting for something else.
pub open spec fn waiting(s: ListView, request: ListRequest) -> ListStepView {
    ListStepView::Ask(ListView { request, ..s })
}

/// A walk that has failed.
pub open spec fn failed(e: ErrorView) -> ListStepView {
    ListStepView::Done(Err(e))
}

/// The walk is done with the current directory: it goes on in the one above, or
/// ends with all that was found, sorted by path.
pub open spec fn left(s: ListView) -> ListStepView {
    if s.dirs.len() == 0 {
        ListStepView::Done(Ok(order::sorted(s.out)))
    } else {
        ListStepView::Ask(
            ListView { dirs: s.dirs.drop_last(), request: ListRequest::NextEntry, ..s },
        )
    }
}

/// What was found so far, with the regular file just looked at if it may be served.
pub open spec fn with_file(s: ListView, stat: FileStat) -> Seq<EntryView> {
    let path = relative_path(s.dirs, s.name);
    if paths::content_path_error(path) is None {
        s.out.push(EntryView { path, size: stat.len, modified_ms: stat.modified_ms })
    } else {
        s.out
    }
}

/// Where a walk stands after the reply to its request.
pub open spec fn next(s: ListView, reply: ListReplyView) -> ListStepView {
    match s.request {
        ListRequest::Exists => if reply == ListReplyView::Exists(true) {
            if s.dirs.len() > MAX_LIST_DEPTH {
                failed(ErrorView::InvalidPath("directory tree too deep"@))
            } else {
                waiting(s, ListRequest::StatDir)
            }
        } else {
            left(s)
        },
        ListRequest::StatDir => match reply {
            ListReplyView::Failed(e) => failed(ErrorView::Io(e)),
            ListReplyView::Stat(stat) => if stat.kind == FileKind::Symlink {
                left(s)
            } else {
                waiting(s, ListRequest::OpenDir)
            },
            _ => left(s),
        },
        ListRequest::OpenDir => match reply {
            ListReplyView::Failed(e) => failed(ErrorView::Io(e)),
            _ => waiting(s, ListRequest::NextEntry),
        },
        ListRequest::NextEntry => match reply {
            ListReplyView::Entry(name) => if s.out.len() >= MAX_LISTED_ENTRIES {
                failed(ErrorView::Message("content listing exceeds limit"@))
            } else if paths::is_hidden(name) {
                waiting(s, ListRequest::NextEntry)
            } else {
                ListStepView::Ask(ListView { name, request: ListRequest::StatEntry, ..s })
            },
            ListReplyView::Failed(e) => if s.out.len() >= MAX_LISTED_ENTRIES {
                failed(ErrorView::Message("content listing exceeds limit"@))
            } else {
                failed(ErrorView::Io(e))
            },
            _ => left(s),
        },
        ListRequest::StatEntry => match reply {
            ListReplyView::Failed(e) => failed(ErrorView::Io(e)),
            ListReplyView::Stat(stat) => match stat.kind {
                FileKind::Directory => ListStepView::Ask(
                    ListView {
                        dirs: s.dirs.push(s.name),
                        request: ListRequest::Exists,
                        ..s
                    },
                ),
                FileKind::Regular => ListStepView::Ask(
                    ListView {
                        out: with_file(s, stat),
                        request: ListRequest::NextEntry,
                        ..s
                    },
                ),
                _ => waiting(s, ListRequest::NextEntry),
            },
            _ => waiting(s, ListRequest::NextEntry),
        },
    }
}

/// The walk has found no more than it may.
pub open spec fn is_well_formed(s: ListView) -> bool {
    &&& s.out.len() <= MAX_LISTED_ENTRIES
    &&& s.request == ListRequest::StatEntry ==> s.out.len() < MAX_LISTED_ENTRIES
}

/// Start to list the files under `root`.
pub fn list_under(root: &str) -> (r: ListTask)
    ensures
        r@ == started(root@),
        is_well_formed(r@),
{
    let dirs: Vec<String> = Vec::new();
    let out: Vec<NomadPageEntry> = Vec::new();
    let r = ListTask {
        root: root.to_owned(),
        dirs,
        name: String::new(),
        out,
        request: ListRequest::Exists,
    };
    assert(r@.dirs =~= Seq::<Seq<char>>::empty());
    assert(r@.out =~= Seq::<EntryView>::empty());
    r
}

impl ListTask {
    /// The directory that is listed.
    pub fn root(&self) -> (r: &str)
        ensures
            r@ == self@.root,
    {
        self.root.as_str()
    }

    /// The request to answer next.
    pub fn request(&self) -> (r: ListRequest)
        ensures
            r == self@.request,
    {
        self.request
    }

    fn wait_for(self, request: ListRequest) -> (r: ListStep)
        ensures
            r@ == waiting(self@, request),
    {
        let mut task = self;
        task.request = request;
        ListStep::Ask(task)
    }

    fn leave(self) -> (r: ListStep)
        ensures
            r@ == left(self@),
    {
        let mut task = self;
        if task.dirs.len() == 0 {
            return ListStep::Done(Ok(sort_entries(task.out)));
        }
        let ghost before = task.dirs@;
        let _ = task.dirs.pop();
        task.request = ListRequest::NextEntry;
        assert(name_views(task.dirs@) =~= name_views(before).drop_last());
        ListStep::Ask(task)
    }

    /// Go on with the reply to the request.
    pub fn resume(self, reply: ListReply) -> (r: ListStep)
        requires
            is_well_formed(self@),
            answers(reply@, self@.request),
        ensures
            r@ == next(self@, reply@),
            r matches ListStep::Ask(task) ==> is_well_formed(task@),
            r matches ListStep::Done(Ok(entries)) ==> entries@.len() <= MAX_LISTED_ENTRIES,
    {
        proof {
            order::lemma_sorted_len(self@.out);
        }
        match self.request {
            ListRequest::Exists => match reply {
                ListReply::Exists(true) => if self.dirs.len() > MAX_LIST_DEPTH {
                    ListStep::Done(Err(NomadError::invalid_path("directory tree too deep")))
                } else {
                    self.wait_for(ListRequest::StatDir)
                },
                _ => self.leave(),
            },
            ListRequest::StatDir => match reply {
                ListReply::Failed(e) => ListStep::Done(Err(NomadError::Io(e))),
                ListReply::Stat(stat) => if stat.kind == FileKind::Symlink {
                    self.leave()
                } else {
                    self.wait_for(ListRequest::OpenDir)
                },
                _ => self.leave(),
            },
            ListRequest::OpenDir => match reply {
                ListReply::Failed(e) => ListStep::Done(Err(NomadError::Io(e))),
                _ => self.wait_for(ListRequest::NextEntry),
            },
            ListRequest::NextEntry => match reply {
                ListReply::Entry(name) => if self.out.len() >= MAX_LISTED_ENTRIES {
                    ListStep::Done(Err(NomadError::message("content listing exceeds limit")))
                } else if is_hidden_or_allowlist_name(name.as_str()) {
                    self.wait_for(ListRequest::NextEntry)
                } else {
                    let mut task = self;
                    task.name = name;
                    task.request = ListRequest::StatEntry;
                    ListStep::Ask(task)
                },
                ListReply::Failed(e) => if self.out.len() >= MAX_LISTED_ENTRIES {
                    ListStep::Done(Err(NomadError::message("content listing exceeds limit")))
                } else {
                    ListStep::Done(Err(NomadError::Io(e)))
                },
                _ => self.leave(),
            },
            ListRequest::StatEntry => match reply {
                ListReply::Failed(e) => ListStep::Done(Err(NomadError::Io(e))),
                ListReply::Stat(stat) => match stat.kind {
                    FileKind::Directory => {
                        let mut task = self;
                        let ghost before = task.dirs@;
                        task.dirs.push(task.name.clone());
                        task.request = ListRequest::Exists;
                        assert(name_views(task.dirs@) =~= name_views(before).push(self@.name));
                        ListStep::Ask(task)
                    },
                    FileKind::Regular => self.found(stat),
                    _ => self.wait_for(ListRequest::NextEntry),
                },
                _ => self.wait_for(ListRequest::NextEntry),
            },
        }
    }

    /// The entry just read is a regular file.
    fn found(self, stat: FileStat) -> (r: ListStep)
        ensures
            r@ == ListStepView::Ask(
                ListView {
                    out: with_file(self@, stat),
                    request: ListRequest::NextEntry,
                    ..self@
                },
            ),
    {
        let mut task = self;
        let path = relative_path_of(&task.dirs, task.name.as_str());
        match validate_content_relative_path(path.as_str()) {
            Ok(_) => {
                let ghost before = task.out@;
                let entry = NomadPageEntry {
                    path,
                    size: stat.len,
                    modified_ms: stat.modified_ms,
                };
                let ghost view = entry@;
                task.out.push(entry);
                assert(order::entry_views(task.out@) =~= order::entry_views(before).push(view));
            },
            Err(_) => {},
        }
        task.request = ListRequest::NextEntry;
        ListStep::Ask(task)
    }
}

/// The path of an entry relative to the content directory.
fn relative_path_of(dirs: &Vec<String>, name: &str) -> (r: String)
    ensures
        r@ == relative_path(name_views(dirs@), name@),
{
    let mut prefix = String::new();
    let mut i: usize = 0;
    let ghost all = name_views(dirs@);
    while i < dirs.len()
        invariant
            i <= dirs@.len(),
            all == name_views(dirs@),
            prefix@ == dir_prefix(all.take(i as int)),
        decreases dirs@.len() - i,
    {
        assert(all.take(i + 1).drop_last() =~= all.take(i as int));
        assert(all[i as int] == dirs@[i as int]@);
        prefix = join3(prefix.as_str(), dirs[i].as_str(), "/");
        i = i + 1;
    }
    assert(all.take(i as int) =~= all);
    let path = join2(prefix.as_str(), name);
    let chars = chars_of(path.as_str());
    let mut out = String::new();
    let mut j: usize = 0;
    let ghost mapped = path@.map_values(|c: char| forward_slash(c));
    while j < chars.len()
        invariant
            j <= chars@.len(),
            chars@ == path@,
            mapped == path@.map_values(|c: char| forward_slash(c)),
            out@ == mapped.take(j as int),
        decreases chars@.len() - j,
    {
        let c: char = chars[j];
        let shown: char = if c == '\\' {
            '/'
        } else {
            c
        };
        out.push(shown);
        assert(mapped.take(j + 1) =~= mapped.take(j as int).push(shown));
        j = j + 1;
    }
    assert(mapped.take(j as int) =~= mapped);
    out
}

} // verus!
