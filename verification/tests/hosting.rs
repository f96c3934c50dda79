use std::collections::BTreeMap;

use nomad_core::error::{IoFailure, IoKind};
use nomad_core::fs::{FileKind, FileStat, FsReply, FsRequest};
use nomad_core::listing::{ListReply, ListRequest, ListStep, ListTask, MAX_LIST_DEPTH};
use nomad_core::node::{ContentKind, DropReason, RequestOutcome, ServeStep};
use nomad_core::rebuild::{RebuildStep, RebuildTask};
use nomad_core::resolve::ResolveStep;
use nomad_core::spawn::{SpawnReply, SpawnRequest, SpawnStep, SpawnTask};
use nomad_core::storage::{DirsStep, OpenStep};
use nomad_core::store_task::{StoreOutput, StoreStep, StoreTask};
use nomad_core::{
    default_index_page, not_found_page, path_hash, resolve_under_root,
    validate_content_relative_path, NomadContentRoots, NomadContentStore, NomadError, NomadNode,
    NomadNodeConfig, NomadPageEntry, DEFAULT_MAX_FILE_BYTES, DEFAULT_MAX_PAGE_BYTES,
    MAX_LISTED_ENTRIES,
};

// A file system in memory, with symbolic links.

#[derive(Clone, Debug, PartialEq)]
enum Node {
    Dir,
    File(Vec<u8>),
    Link(String),
}

#[derive(Default)]
struct Disk {
    nodes: BTreeMap<String, Node>,
    clock: u128,
    /// Requests (as they print) that fail, each as often as it is listed.
    broken: Vec<String>,
    /// Every request, as it prints.
    log: Vec<String>,
}

fn failure(kind: IoKind, text: &str) -> IoFailure {
    IoFailure {
        kind,
        text: text.to_string(),
    }
}

fn missing() -> FsReply {
    FsReply::Failed(failure(IoKind::NotFound, "no such file"))
}

fn refused(text: &str) -> FsReply {
    FsReply::Failed(failure(IoKind::Other, text))
}

fn parent(path: &str) -> String {
    match path.rfind('/') {
        Some(0) | None => "/".to_string(),
        Some(i) => path[..i].to_string(),
    }
}

fn stat_of(node: &Node) -> FileStat {
    let (kind, len) = match node {
        Node::Dir => (FileKind::Directory, 0),
        Node::File(b) => (FileKind::Regular, b.len() as u64),
        Node::Link(_) => (FileKind::Symlink, 0),
    };
    FileStat {
        kind,
        len,
        modified_ms: Some(1_700_000_000_000),
    }
}

impl Disk {
    fn new() -> Self {
        let mut disk = Disk::default();
        disk.nodes.insert("/".to_string(), Node::Dir);
        disk.clock = 42;
        disk
    }

    /// The path with links in its directories followed, and at its end if asked.
    fn walk(&self, path: &str, follow_end: bool) -> Option<String> {
        let mut cur = "/".to_string();
        let names: Vec<&str> = path.split('/').filter(|n| !n.is_empty() && *n != ".").collect();
        for (i, name) in names.iter().enumerate() {
            let next = if cur == "/" {
                format!("/{name}")
            } else {
                format!("{cur}/{name}")
            };
            cur = match self.nodes.get(&next) {
                Some(Node::Link(target)) if follow_end || i + 1 < names.len() => {
                    self.walk(target, true)?
                }
                Some(_) => next,
                None if i + 1 == names.len() => next,
                None => return None,
            };
        }
        Some(cur)
    }

    fn find(&self, path: &str, follow_end: bool) -> Option<(String, &Node)> {
        let at = self.walk(path, follow_end)?;
        let node = self.nodes.get(&at)?;
        Some((at, node))
    }

    fn make_dirs(&mut self, path: &str) -> FsReply {
        let mut cur = String::new();
        for name in path.split('/').filter(|n| !n.is_empty()) {
            cur = format!("{cur}/{name}");
            match self.find(&cur, true) {
                Some((_, Node::Dir)) => {}
                Some(_) => return refused("not a directory"),
                None => match self.walk(&cur, true) {
                    Some(at) => {
                        self.nodes.insert(at, Node::Dir);
                    }
                    None => return refused("not a directory"),
                },
            }
        }
        FsReply::Done
    }

    fn put(&mut self, path: &str, node: Node) {
        let _ = self.make_dirs(&parent(path));
        self.nodes.insert(path.to_string(), node);
    }

    fn is_dir(&self, path: &str) -> bool {
        matches!(self.find(path, true), Some((_, Node::Dir)))
    }

    fn answer(&mut self, request: FsRequest) -> FsReply {
        let printed = format!("{request:?}");
        self.log.push(printed.clone());
        if let Some(i) = self.broken.iter().position(|b| printed.starts_with(b.as_str())) {
            self.broken.remove(i);
            return refused("broken");
        }
        match request {
            FsRequest::Stat(p) => match self.find(&p, false) {
                Some((_, node)) => FsReply::Stat(stat_of(node)),
                None => missing(),
            },
            FsRequest::RealPath(p) => match self.find(&p, true) {
                Some((at, _)) => FsReply::RealPath(at),
                None => missing(),
            },
            FsRequest::MakeDirs(p) => self.make_dirs(&p),
            FsRequest::Clock => {
                self.clock += 1;
                FsReply::Clock(self.clock)
            }
            FsRequest::Read(p, limit) => match self.find(&p, true) {
                Some((_, Node::File(b))) => {
                    let n = b.len().min(limit as usize);
                    FsReply::Bytes(b[..n].to_vec())
                }
                Some(_) => refused("is a directory"),
                None => missing(),
            },
            FsRequest::Write(p, content) => {
                if !self.is_dir(&parent(&p)) {
                    return missing();
                }
                let at = self.walk(&p, true).unwrap();
                self.nodes.insert(at, Node::File(content));
                FsReply::Done
            }
            FsRequest::Rename(from, to) => {
                let (at, node) = match self.find(&from, false) {
                    Some((at, node)) => (at, node.clone()),
                    None => return missing(),
                };
                let to = self.walk(&to, false).unwrap();
                if matches!(self.nodes.get(&to), Some(Node::Dir)) {
                    return refused("is a directory");
                }
                self.nodes.remove(&at);
                self.nodes.insert(to, node);
                FsReply::Done
            }
            FsRequest::Remove(p) => match self.find(&p, false) {
                Some((_, Node::Dir)) => refused("is a directory"),
                Some((at, _)) => {
                    self.nodes.remove(&at);
                    FsReply::Done
                }
                None => missing(),
            },
        }
    }
}

// Carrying out tasks.

fn run(disk: &mut Disk, task: Result<StoreTask, NomadError>) -> Result<StoreOutput, NomadError> {
    let mut task = task?;
    loop {
        let reply = disk.answer(task.request());
        match task.resume(reply) {
            StoreStep::Ask(next) => task = next,
            StoreStep::Done(r) => return r,
        }
    }
}

fn body(r: Result<StoreOutput, NomadError>) -> Result<Vec<u8>, NomadError> {
    match r? {
        StoreOutput::Body(b) => Ok(b),
        StoreOutput::Unit => panic!("a read without a body"),
    }
}

fn unit(r: Result<StoreOutput, NomadError>) -> Result<(), NomadError> {
    match r? {
        StoreOutput::Unit => Ok(()),
        StoreOutput::Body(_) => panic!("a write with a body"),
    }
}

/// Where a walk stands in the file system.
struct Walk {
    open: Vec<(String, Vec<String>)>,
    at: String,
}

impl Walk {
    fn new(root: &str) -> Self {
        Walk {
            open: Vec::new(),
            at: root.to_string(),
        }
    }

    fn answer(&mut self, disk: &Disk, request: ListRequest) -> ListReply {
        match request {
            ListRequest::Exists => ListReply::Exists(disk.find(&self.at, true).is_some()),
            ListRequest::StatDir | ListRequest::StatEntry => match disk.find(&self.at, false) {
                Some((_, node)) => ListReply::Stat(stat_of(node)),
                None => ListReply::Failed(failure(IoKind::NotFound, "no such file")),
            },
            ListRequest::OpenDir => match disk.find(&self.at, true) {
                Some((at, Node::Dir)) => {
                    let inside = if at == "/" { at } else { format!("{at}/") };
                    // Entries come in no particular order.
                    let names = disk
                        .nodes
                        .keys()
                        .filter_map(|p| p.strip_prefix(&inside))
                        .filter(|n| !n.is_empty() && !n.contains('/'))
                        .map(str::to_string)
                        .collect();
                    self.open.push((self.at.clone(), names));
                    ListReply::Opened
                }
                _ => ListReply::Failed(failure(IoKind::Other, "not a directory")),
            },
            ListRequest::NextEntry => {
                let (dir, names) = self.open.last_mut().unwrap();
                match names.pop() {
                    Some(name) => {
                        self.at = format!("{dir}/{name}");
                        ListReply::Entry(name)
                    }
                    None => {
                        self.open.pop();
                        ListReply::End
                    }
                }
            }
        }
    }
}

fn list(disk: &Disk, task: ListTask) -> Result<Vec<NomadPageEntry>, NomadError> {
    let mut task = task;
    let mut walk = Walk::new(task.root());
    loop {
        let reply = walk.answer(disk, task.request());
        match task.resume(reply) {
            ListStep::Ask(next) => task = next,
            ListStep::Done(r) => return r,
        }
    }
}

fn resolve(disk: &mut Disk, root: &str, rel: &str) -> Result<String, NomadError> {
    let mut task = resolve_under_root(root, rel)?;
    loop {
        let reply = disk.answer(task.request());
        match task.resume(reply) {
            ResolveStep::Ask(next) => task = next,
            ResolveStep::Done(r) => return r,
        }
    }
}

fn open(disk: &mut Disk, roots: NomadContentRoots) -> Result<NomadContentStore, NomadError> {
    let mut task = NomadContentStore::new(roots);
    loop {
        let reply = disk.answer(task.request());
        match task.resume(reply) {
            OpenStep::Ask(next) => task = next,
            OpenStep::Done(r) => return r,
        }
    }
}

fn reload(disk: &Disk, node: &mut NomadNode) -> Result<(), NomadError> {
    let mut task: RebuildTask = node.reload_routes();
    let mut walk = Walk::new(task.root());
    loop {
        if walk.open.is_empty() && task.request() == ListRequest::Exists {
            walk = Walk::new(task.root());
        }
        let reply = walk.answer(disk, task.request());
        match node.resume_reload(task, reply) {
            RebuildStep::Ask(next) => task = next,
            RebuildStep::Done(r) => return r,
        }
    }
}

fn spawn(disk: &mut Disk, task: SpawnTask, signs: bool) -> Result<NomadNode, NomadError> {
    let mut task = task;
    let mut walk = Walk::new("");
    loop {
        let reply = match task.request() {
            SpawnRequest::Fs(request) => SpawnReply::Fs(disk.answer(request)),
            SpawnRequest::Register => {
                disk.log.push("Register".to_string());
                SpawnReply::Registered(0)
            }
            SpawnRequest::List(root, request) => {
                if walk.open.is_empty() && request == ListRequest::Exists {
                    walk = Walk::new(&root);
                }
                SpawnReply::List(walk.answer(disk, request))
            }
            SpawnRequest::SigningKey => SpawnReply::SigningKey(signs),
        };
        match task.resume(reply) {
            SpawnStep::Ask(next) => task = next,
            SpawnStep::Done(r) => return r,
        }
    }
}

fn ask_at(disk: &mut Disk, node: &mut NomadNode, hash: [u8; 16], now: u128) -> RequestOutcome {
    let mut step = node.handle_request(&hash, now, 77);
    loop {
        match step {
            ServeStep::Answer(outcome) => return outcome,
            ServeStep::Read(task) => {
                let reply = disk.answer(task.request());
                step = node.resume_request(task, reply);
            }
        }
    }
}

fn ask(disk: &mut Disk, node: &mut NomadNode, hash: [u8; 16]) -> RequestOutcome {
    ask_at(disk, node, hash, 0)
}

fn test_store() -> (Disk, NomadContentStore) {
    let mut disk = Disk::new();
    let store = open(&mut disk, NomadContentRoots::under("/host")).unwrap();
    (disk, store)
}

fn write_page(disk: &mut Disk, store: &NomadContentStore, rel: &str, content: &[u8]) {
    unit(run(disk, store.write_page_rel(rel, content))).unwrap();
}

fn node_with_content(pages: &[(&str, &[u8])], files: &[(&str, &[u8])]) -> (Disk, NomadNode) {
    let (mut disk, store) = test_store();
    for (path, content) in pages {
        write_page(&mut disk, &store, path, content);
    }
    for (path, content) in files {
        unit(run(&mut disk, store.write_file_rel(path, content))).unwrap();
    }
    let config = NomadNodeConfig {
        display_name: "Test".to_string(),
        ..NomadNodeConfig::default()
    };
    let task = NomadNode::spawn([0xab; 16], [0x01; 16], store, &config).unwrap();
    let node = spawn(&mut disk, task, true).unwrap();
    (disk, node)
}

fn reply_text(outcome: RequestOutcome) -> String {
    match outcome {
        RequestOutcome::Reply(bytes) => String::from_utf8(bytes).unwrap(),
        RequestOutcome::Drop(_) => panic!("expected a reply"),
    }
}

// The content store.

#[test]
fn page_crud_roundtrip() {
    let (mut disk, store) = test_store();
    write_page(&mut disk, &store, "index.mu", b"> Hello\n");
    assert_eq!(
        body(run(&mut disk, store.read_page_rel("index.mu"))).unwrap(),
        b"> Hello\n"
    );
    let pages = list(&disk, store.list_pages()).unwrap();
    assert_eq!(pages.len(), 1);
    assert_eq!(pages[0].path, "index.mu");
    unit(run(&mut disk, store.delete_page_rel("index.mu"))).unwrap();
    assert!(run(&mut disk, store.read_page_rel("index.mu")).is_err());
}

#[test]
fn file_crud_and_delete_missing() {
    let (mut disk, store) = test_store();
    unit(run(&mut disk, store.write_file_rel("a.bin", b"xyz"))).unwrap();
    assert_eq!(
        body(run(&mut disk, store.read_file_rel("a.bin"))).unwrap(),
        b"xyz"
    );
    unit(run(&mut disk, store.delete_file_rel("a.bin"))).unwrap();
    assert!(matches!(
        run(&mut disk, store.delete_file_rel("a.bin")),
        Err(NomadError::NotFound(_))
    ));
}

#[test]
fn ensure_default_index_idempotent() {
    let (mut disk, store) = test_store();
    unit(run(&mut disk, store.ensure_default_index("Demo"))).unwrap();
    let first = body(run(&mut disk, store.read_page_rel("index.mu"))).unwrap();
    unit(run(&mut disk, store.ensure_default_index("Other"))).unwrap();
    let second = body(run(&mut disk, store.read_page_rel("index.mu"))).unwrap();
    assert_eq!(first, second);
    assert!(String::from_utf8(first).unwrap().contains("Demo"));
}

#[test]
fn write_rejects_too_large() {
    let mut disk = Disk::new();
    let mut roots = NomadContentRoots::under("/host");
    roots.max_page_bytes = 4;
    let store = open(&mut disk, roots).unwrap();
    let err = run(&mut disk, store.write_page_rel("x.mu", b"12345")).unwrap_err();
    assert!(matches!(err, NomadError::TooLarge { .. }));
}

#[test]
fn read_exact_max_ok_over_max_rejects() {
    let mut disk = Disk::new();
    let mut roots = NomadContentRoots::under("/host");
    roots.max_page_bytes = 8;
    let store = open(&mut disk, roots).unwrap();
    write_page(&mut disk, &store, "exact.mu", b"12345678");
    assert_eq!(
        body(run(&mut disk, store.read_page_rel("exact.mu"))).unwrap(),
        b"12345678"
    );
    disk.put("/host/pages/big.mu", Node::File(vec![b'x'; 9]));
    let err = run(&mut disk, store.read_page_rel("big.mu")).unwrap_err();
    assert!(matches!(err, NomadError::TooLarge { .. }));
}

#[test]
fn read_page_rejects_oversize_without_full_alloc_contract() {
    let mut disk = Disk::new();
    let mut roots = NomadContentRoots::under("/host");
    roots.max_page_bytes = 8;
    let store = open(&mut disk, roots).unwrap();
    write_page(&mut disk, &store, "tiny.mu", b"ok");
    disk.put("/host/pages/big.mu", Node::File(vec![b'x'; 32]));
    disk.log.clear();
    let err = run(&mut disk, store.read_page_rel("big.mu")).unwrap_err();
    assert!(matches!(err, NomadError::TooLarge { .. }));
    // The body is not even asked for.
    assert!(!disk.log.iter().any(|r| r.starts_with("Read")));
}

#[test]
fn list_skips_dotfiles_and_allowed_suffix() {
    let (mut disk, store) = test_store();
    write_page(&mut disk, &store, "index.mu", b"> ok\n");
    disk.put("/host/pages/.hidden.mu", Node::File(b"secret".to_vec()));
    disk.put("/host/pages/index.mu.allowed", Node::File(b"allow".to_vec()));
    unit(run(&mut disk, store.write_file_rel("readme.txt", b"hi"))).unwrap();
    disk.put("/host/files/.cache", Node::File(b"x".to_vec()));
    let pages = list(&disk, store.list_pages()).unwrap();
    assert_eq!(pages.len(), 1);
    assert_eq!(pages[0].path, "index.mu");
    let files = list(&disk, store.list_files()).unwrap();
    assert_eq!(files.len(), 1);
    assert_eq!(files[0].path, "readme.txt");
    assert!(run(&mut disk, store.read_page_rel(".hidden.mu")).is_err());
    assert!(run(&mut disk, store.read_file_rel(".cache")).is_err());
}

#[test]
fn list_skips_symlink_dirs_and_respects_depth() {
    let (mut disk, store) = test_store();
    write_page(&mut disk, &store, "index.mu", b"> ok\n");
    disk.put("/host/pages/real/nested.mu", Node::File(b"n".to_vec()));
    disk.put(
        "/host/pages/linkdir",
        Node::Link("/host/pages/real".to_string()),
    );
    let pages = list(&disk, store.list_pages()).unwrap();
    assert!(pages.iter().any(|p| p.path == "real/nested.mu"));
    assert!(!pages.iter().any(|p| p.path.starts_with("linkdir")));
}

#[test]
fn ensure_default_index_rejects_dangling_symlink() {
    let (mut disk, store) = test_store();
    disk.put(
        "/host/pages/index.mu",
        Node::Link("/host/outside.mu".to_string()),
    );
    assert!(matches!(
        run(&mut disk, store.ensure_default_index("X")),
        Err(NomadError::PathTraversal)
    ));
    assert!(!disk.nodes.contains_key("/host/outside.mu"));
}

#[test]
fn roots_have_defaults_and_are_created() {
    let roots = NomadContentRoots::under("/host/");
    assert_eq!(roots.pages_dir, "/host/pages");
    assert_eq!(roots.files_dir, "/host/files");
    assert_eq!(roots.max_page_bytes, DEFAULT_MAX_PAGE_BYTES);
    assert_eq!(roots.max_file_bytes, DEFAULT_MAX_FILE_BYTES);
    assert_eq!(DEFAULT_MAX_PAGE_BYTES, 524_288);
    assert_eq!(DEFAULT_MAX_FILE_BYTES, 4_194_304);
    let mut disk = Disk::new();
    let mut task = roots.ensure_dirs();
    let r = loop {
        let reply = disk.answer(task.request());
        match task.resume(reply) {
            DirsStep::Ask(next) => task = next,
            DirsStep::Done(r) => break r,
        }
    };
    assert!(r.is_ok());
    assert!(disk.is_dir("/host/pages") && disk.is_dir("/host/files"));
    let store = open(&mut disk, roots.clone()).unwrap();
    assert_eq!(store.roots().pages_dir, roots.pages_dir);
    assert_eq!(store.clone().roots().files_dir, roots.files_dir);
}

#[test]
fn a_store_does_not_open_without_its_directories() {
    let mut disk = Disk::new();
    disk.put("/host/files", Node::File(Vec::new()));
    match open(&mut disk, NomadContentRoots::under("/host")) {
        Err(NomadError::Io(e)) => assert_eq!(e.text, "not a directory"),
        other => panic!("unexpected {other:?}"),
    }
    // The directory for pages was created before the failure.
    assert!(disk.is_dir("/host/pages"));
}

#[test]
fn writing_creates_directories_and_replaces_content() {
    let (mut disk, store) = test_store();
    write_page(&mut disk, &store, "docs/deep/a.mu", b"one");
    write_page(&mut disk, &store, "docs/deep/a.mu", b"two");
    assert_eq!(
        body(run(&mut disk, store.read_page_rel("docs/deep/a.mu"))).unwrap(),
        b"two"
    );
    // No temporary file is left.
    assert!(!disk.nodes.keys().any(|p| p.ends_with(".tmp")));
}

#[test]
fn content_goes_through_a_temporary_file() {
    let (mut disk, store) = test_store();
    disk.log.clear();
    write_page(&mut disk, &store, "a.mu", b"x");
    let tail: Vec<&str> = disk.log.iter().rev().take(4).rev().map(String::as_str).collect();
    assert_eq!(
        tail,
        [
            "MakeDirs(\"/host/pages\")",
            "Clock",
            "Write(\"/host/pages/.a.mu.43.tmp\", [120])",
            "Rename(\"/host/pages/.a.mu.43.tmp\", \"/host/pages/a.mu\")",
        ]
    );
}

#[test]
fn a_failed_write_keeps_the_old_content() {
    for broken in ["MakeDirs", "Write", "Rename"] {
        let (mut disk, store) = test_store();
        write_page(&mut disk, &store, "a.mu", b"old");
        disk.broken = vec![broken.to_string()];
        match run(&mut disk, store.write_page_rel("a.mu", b"new")) {
            Err(NomadError::Io(e)) => assert_eq!(e.text, "broken"),
            other => panic!("unexpected {other:?}"),
        }
        assert_eq!(
            body(run(&mut disk, store.read_page_rel("a.mu"))).unwrap(),
            b"old"
        );
        assert!(!disk.nodes.keys().any(|p| p.ends_with(".tmp")), "{broken}");
    }
}

#[test]
fn a_failed_cleanup_tells_why_the_renaming_failed() {
    let (mut disk, store) = test_store();
    disk.put("/host/pages/a.mu/inner.mu", Node::File(Vec::new()));
    disk.broken = vec!["Remove".to_string()];
    match run(&mut disk, store.write_page_rel("a.mu", b"x")) {
        Err(NomadError::Io(e)) => assert_eq!(e.text, "is a directory"),
        other => panic!("unexpected {other:?}"),
    }
}

#[test]
fn reading_changes_nothing() {
    let (mut disk, store) = test_store();
    write_page(&mut disk, &store, "a.mu", b"a");
    let before = disk.nodes.clone();
    let _ = run(&mut disk, store.read_page_rel("a.mu"));
    let _ = run(&mut disk, store.read_page_rel("b.mu"));
    let _ = run(&mut disk, store.read_file_rel("sub/b.bin"));
    assert_eq!(disk.nodes, before);
}

#[test]
fn writing_and_deleting_touch_nothing_else() {
    let (mut disk, store) = test_store();
    write_page(&mut disk, &store, "a.mu", b"a");
    unit(run(&mut disk, store.write_file_rel("a.mu", b"file"))).unwrap();
    let before = disk.nodes.clone();
    write_page(&mut disk, &store, "b.mu", b"b");
    let mut with_b = before.clone();
    with_b.insert("/host/pages/b.mu".to_string(), Node::File(b"b".to_vec()));
    assert_eq!(disk.nodes, with_b);
    unit(run(&mut disk, store.delete_page_rel("b.mu"))).unwrap();
    assert_eq!(disk.nodes, before);
}

#[test]
fn links_in_place_of_content_are_not_followed() {
    let (mut disk, store) = test_store();
    disk.put("/host/secret", Node::File(b"secret".to_vec()));
    disk.put("/host/pages/live.mu", Node::Link("/host/secret".to_string()));
    disk.put("/host/pages/dead.mu", Node::Link("/host/nowhere".to_string()));
    let before = disk.nodes.clone();
    for rel in ["live.mu", "dead.mu"] {
        for task in [
            store.read_page_rel(rel),
            store.delete_page_rel(rel),
            store.write_page_rel(rel, b"x"),
        ] {
            assert!(matches!(
                run(&mut disk, task),
                Err(NomadError::PathTraversal)
            ));
        }
    }
    assert_eq!(disk.nodes, before);
}

#[test]
fn dangling_links_are_links() {
    let (mut disk, store) = test_store();
    disk.put("/host/pages/dead", Node::Link("/host/nowhere".to_string()));
    let before = disk.nodes.clone();
    // At the end of the path, above it, and with nothing below it.
    for rel in ["dead", "dead/a.mu", "dead/deeper/a.mu"] {
        assert!(
            matches!(
                resolve(&mut disk, "/host/pages", rel),
                Err(NomadError::PathTraversal)
            ),
            "{rel}"
        );
        assert!(
            matches!(
                run(&mut disk, store.write_page_rel(rel, b"x")),
                Err(NomadError::PathTraversal)
            ),
            "{rel}"
        );
    }
    assert_eq!(disk.nodes, before);
    // As the content root.
    assert!(matches!(
        resolve(&mut disk, "/host/pages/dead", "a.mu"),
        Err(NomadError::PathTraversal)
    ));
    // A name that nothing has is no link.
    assert_eq!(
        resolve(&mut disk, "/host/pages", "none/a.mu").unwrap(),
        "/host/pages/none/a.mu"
    );
}

/// Resolve where looking at the paths in `unseen` is denied.
fn resolve_denied(
    disk: &mut Disk,
    root: &str,
    rel: &str,
    unseen: &[&str],
) -> Result<String, NomadError> {
    let mut task = resolve_under_root(root, rel).unwrap();
    loop {
        let reply = match task.request() {
            FsRequest::Stat(p) if unseen.contains(&p.as_str()) => {
                FsReply::Failed(failure(IoKind::PermissionDenied, "denied"))
            }
            request => disk.answer(request),
        };
        match task.resume(reply) {
            ResolveStep::Ask(next) => task = next,
            ResolveStep::Done(r) => return r,
        }
    }
}

#[test]
fn a_path_that_cannot_be_looked_at_counts_as_missing() {
    let (mut disk, store) = test_store();
    write_page(&mut disk, &store, "docs/a.mu", b"x");
    for unseen in [
        &["/host/pages"][..],
        &["/host/pages/docs"],
        &["/host/pages/docs/a.mu"],
        &["/host/pages", "/host/pages/docs", "/host/pages/docs/a.mu"],
    ] {
        assert_eq!(
            resolve_denied(&mut disk, "/host/pages", "docs/a.mu", unseen).unwrap(),
            "/host/pages/docs/a.mu",
            "{unseen:?}"
        );
    }
    // So does a name below a file.
    let below = "/host/pages/docs/a.mu/b.mu";
    assert_eq!(
        resolve_denied(&mut disk, "/host/pages", "docs/a.mu/b.mu", &[below]).unwrap(),
        below
    );
    // Where the directory above can be looked at, it must not lead out.
    disk.put("/host/pages/out", Node::Link("/host".to_string()));
    assert!(matches!(
        resolve_denied(&mut disk, "/host/pages", "out/a.mu", &["/host/pages/out/a.mu"]),
        Err(NomadError::PathTraversal)
    ));
}

#[test]
fn content_below_a_linked_directory_is_kept_and_served() {
    let mut disk = Disk::new();
    disk.put("/real", Node::Dir);
    disk.put("/alias", Node::Link("/real".to_string()));
    let store = open(&mut disk, NomadContentRoots::under("/alias/host")).unwrap();
    write_page(&mut disk, &store, "docs/a.mu", b"one");
    assert_eq!(disk.nodes["/real/host/pages/docs/a.mu"], Node::File(b"one".to_vec()));
    assert_eq!(
        body(run(&mut disk, store.read_page_rel("docs/a.mu"))).unwrap(),
        b"one"
    );
    let config = NomadNodeConfig::default();
    let task = NomadNode::spawn([0xab; 16], [0x01; 16], store, &config).unwrap();
    let mut node = spawn(&mut disk, task, true).unwrap();
    match ask(&mut disk, &mut node, path_hash("/page/docs/a.mu")) {
        RequestOutcome::Reply(bytes) => assert_eq!(bytes, b"one"),
        other => panic!("unexpected {other:?}"),
    }
    let delete = node.store().delete_page_rel("docs/a.mu");
    unit(run(&mut disk, delete)).unwrap();
    assert!(!disk.nodes.contains_key("/real/host/pages/docs/a.mu"));
    // The link itself stays as it was.
    assert_eq!(disk.nodes["/alias"], Node::Link("/real".to_string()));
}

#[test]
fn a_failed_write_leaves_nothing_where_nothing_was() {
    for broken in ["MakeDirs", "Write", "Rename"] {
        let (mut disk, store) = test_store();
        let before = disk.nodes.clone();
        disk.broken = vec![broken.to_string()];
        assert!(run(&mut disk, store.write_page_rel("a.mu", b"new")).is_err(), "{broken}");
        assert_eq!(disk.nodes, before, "{broken}");
    }
}

#[test]
fn a_listing_holds_exactly_the_acceptable_files() {
    let (mut disk, store) = test_store();
    for (path, len) in [
        ("/host/pages/b.mu", 2),
        ("/host/pages/a/z.mu", 3),
        ("/host/pages/a/b/c.mu", 4),
        ("/host/pages/.hidden.mu", 5),
        ("/host/pages/.dir/x.mu", 6),
        ("/host/pages/a/x.mu.allowed", 7),
        ("/host/pages/a/ctl\u{7}.mu", 8),
    ] {
        disk.put(path, Node::File(vec![0; len]));
    }
    disk.put("/host/pages/link.mu", Node::Link("/host/pages/b.mu".to_string()));
    disk.put("/host/pages/linked", Node::Link("/host/pages/a".to_string()));
    disk.put("/host/pages/empty", Node::Dir);
    let found: Vec<(String, u64)> = list(&disk, store.list_pages())
        .unwrap()
        .into_iter()
        .map(|e| (e.path, e.size))
        .collect();
    assert_eq!(
        found,
        [
            ("a/b/c.mu".to_string(), 4),
            ("a/z.mu".to_string(), 3),
            ("b.mu".to_string(), 2),
        ]
    );
    // Strictly ascending: no path comes twice.
    assert!(found.windows(2).all(|w| w[0].0 < w[1].0));
}

#[test]
fn what_was_written_is_served_after_a_reload() {
    let (mut disk, mut node) = node_with_content(&[("index.mu", b"> ok\n")], &[]);
    // Whatever the spelling, the route is that of the names.
    for (rel, route, content) in [
        ("docs/a.mu", "/page/docs/a.mu", b"one"),
        ("/docs//deep/b.mu", "/page/docs/deep/b.mu", b"two"),
        ("c.mu/", "/page/c.mu", b"six"),
    ] {
        let write = node.store().write_page_rel(rel, content);
        unit(run(&mut disk, write)).unwrap();
        reload(&disk, &mut node).unwrap();
        match ask(&mut disk, &mut node, path_hash(route)) {
            RequestOutcome::Reply(bytes) => assert_eq!(bytes, content),
            other => panic!("unexpected {other:?}"),
        }
    }
    let write = node.store().write_file_rel("bin//f", b"raw");
    unit(run(&mut disk, write)).unwrap();
    reload(&disk, &mut node).unwrap();
    match ask(&mut disk, &mut node, path_hash("/file/bin/f")) {
        RequestOutcome::Reply(bytes) => assert_eq!(bytes, b"raw"),
        other => panic!("unexpected {other:?}"),
    }
    // Blanks at the end are kept on disk and dropped from the route, which then
    // names nothing.
    let write = node.store().write_file_rel("blank ", b"raw");
    unit(run(&mut disk, write)).unwrap();
    reload(&disk, &mut node).unwrap();
    assert!(matches!(
        ask(&mut disk, &mut node, path_hash("/file/blank")),
        RequestOutcome::Drop(DropReason::NotThere)
    ));
}

#[test]
fn routes_name_content() {
    let (mut disk, store) = test_store();
    write_page(&mut disk, &store, "docs/a.mu", b"page");
    unit(run(&mut disk, store.write_file_rel("b.bin", b"file"))).unwrap();
    assert_eq!(
        body(run(&mut disk, store.read_page_route("/page/docs/a.mu"))).unwrap(),
        b"page"
    );
    assert_eq!(
        body(run(&mut disk, store.read_file_route("/file/b.bin"))).unwrap(),
        b"file"
    );
    assert!(matches!(
        store.read_page_route("/file/b.bin"),
        Err(NomadError::InvalidPath(_))
    ));
    assert!(matches!(
        store.read_file_route("/file/../b.bin"),
        Err(NomadError::PathTraversal)
    ));
}

#[test]
fn directories_are_not_content() {
    let (mut disk, store) = test_store();
    write_page(&mut disk, &store, "docs/a.mu", b"x");
    match run(&mut disk, store.read_page_rel("docs")) {
        Err(NomadError::NotFound(rel)) => assert_eq!(rel, "docs"),
        other => panic!("unexpected {other:?}"),
    }
    assert!(matches!(
        run(&mut disk, store.delete_page_rel("docs")),
        Err(NomadError::NotFound(_))
    ));
    // Something that is there, of whatever kind, keeps the default index away.
    disk.put("/host/pages/index.mu", Node::Dir);
    assert!(run(&mut disk, store.ensure_default_index("X")).is_ok());
    assert_eq!(disk.nodes["/host/pages/index.mu"], Node::Dir);
}

#[test]
fn refused_writes_ask_nothing() {
    let (mut disk, store) = test_store();
    disk.log.clear();
    assert!(run(&mut disk, store.write_page_rel("../x.mu", b"")).is_err());
    let big = vec![0u8; DEFAULT_MAX_PAGE_BYTES + 1];
    match run(&mut disk, store.write_page_rel("x.mu", &big)) {
        Err(NomadError::TooLarge { size, max }) => {
            assert_eq!(size, 524_289);
            assert_eq!(max, 524_288);
        }
        other => panic!("unexpected {other:?}"),
    }
    // A bad path is told before a size.
    assert!(matches!(
        run(&mut disk, store.write_page_rel("../x.mu", &big)),
        Err(NomadError::PathTraversal)
    ));
    assert!(disk.log.is_empty());
}

#[test]
fn a_file_that_grows_while_it_is_read_is_refused() {
    let mut disk = Disk::new();
    let mut roots = NomadContentRoots::under("/host");
    roots.max_file_bytes = 2;
    let store = open(&mut disk, roots).unwrap();
    unit(run(&mut disk, store.write_file_rel("a", b"12"))).unwrap();
    let mut task = store.read_file_rel("a").unwrap();
    let err = loop {
        let request = task.request();
        if matches!(request, FsRequest::Read(_, 3)) {
            disk.put("/host/files/a", Node::File(b"12345".to_vec()));
        }
        let reply = disk.answer(request);
        match task.resume(reply) {
            StoreStep::Ask(next) => task = next,
            StoreStep::Done(r) => break r.unwrap_err(),
        }
    };
    assert_eq!(err.describe(), "response too large (3 > 2)");
}

// Resolution.

#[test]
fn resolve_under_root_rejects_escape() {
    let mut disk = Disk::new();
    disk.put("/tmp/pages", Node::Dir);
    assert!(matches!(
        resolve(&mut disk, "/tmp/pages", "../escape.mu"),
        Err(NomadError::PathTraversal)
    ));
    let ok = resolve(&mut disk, "/tmp/pages", "index.mu").unwrap();
    assert!(ok.ends_with("index.mu"));
    assert_eq!(ok, "/tmp/pages/index.mu");
}

#[test]
fn rejects_control_characters_and_symlink_components() {
    assert!(validate_content_relative_path("evil\nname.mu").is_err());
    let mut disk = Disk::new();
    let root = "/tmp/pages";
    disk.put(root, Node::Dir);
    disk.put("/tmp/secret.txt", Node::File(b"secret".to_vec()));
    disk.put("/tmp/pages/link.mu", Node::Link("/tmp/secret.txt".to_string()));
    assert!(matches!(
        resolve(&mut disk, root, "link.mu"),
        Err(NomadError::PathTraversal)
    ));

    // Intermediate directory symlink.
    disk.put("/tmp/pages/sub", Node::Dir);
    disk.put("/tmp/pages/via", Node::Link("/tmp/pages/sub".to_string()));
    disk.put("/tmp/pages/sub/nested.mu", Node::File(b"x".to_vec()));
    assert!(matches!(
        resolve(&mut disk, root, "via/nested.mu"),
        Err(NomadError::PathTraversal)
    ));

    // Symlink root.
    disk.put("/tmp/pages_link", Node::Link(root.to_string()));
    assert!(matches!(
        resolve(&mut disk, "/tmp/pages_link", "index.mu"),
        Err(NomadError::PathTraversal)
    ));
}

#[test]
fn a_root_reached_through_a_link_is_resolved_to_its_real_path() {
    let mut disk = Disk::new();
    disk.put("/real/pages/a.mu", Node::File(b"x".to_vec()));
    disk.put("/alias", Node::Link("/real".to_string()));
    assert_eq!(
        resolve(&mut disk, "/alias/pages", "/a.mu").unwrap(),
        "/real/pages/a.mu"
    );
    assert_eq!(
        resolve(&mut disk, "/alias/pages", "b/c.mu").unwrap(),
        "/real/pages/b/c.mu"
    );
}

#[test]
fn a_missing_root_keeps_its_path() {
    let mut disk = Disk::new();
    assert_eq!(resolve(&mut disk, "/none/pages", "a.mu").unwrap(), "/none/pages/a.mu");
    let store = open(&mut disk, NomadContentRoots::under("/host")).unwrap();
    disk.nodes.remove("/host/pages");
    write_page(&mut disk, &store, "a.mu", b"back");
    assert_eq!(
        body(run(&mut disk, store.read_page_rel("a.mu"))).unwrap(),
        b"back"
    );
}

#[test]
fn failures_of_the_file_system_are_told() {
    // A failure to look at content is told once its path is resolved.
    for (broken, times) in [("Stat", 5), ("RealPath", 1)] {
        let (mut disk, store) = test_store();
        write_page(&mut disk, &store, "a.mu", b"x");
        disk.broken = vec![broken.to_string(); times];
        match run(&mut disk, store.read_page_rel("a.mu")) {
            Err(e) => assert_eq!(e.describe(), "io error: broken"),
            Ok(_) => panic!("expected a failure of {broken}"),
        }
    }
}

// Listing.

#[test]
fn listings_are_sorted_by_path() {
    let (mut disk, store) = test_store();
    for path in ["z.mu", "docs/b.mu", "a.mu", "docs.mu", "docs/a.mu", "é.mu"] {
        write_page(&mut disk, &store, path, path.as_bytes());
    }
    let pages = list(&disk, store.list_pages()).unwrap();
    let paths: Vec<&str> = pages.iter().map(|p| p.path.as_str()).collect();
    assert_eq!(
        paths,
        ["a.mu", "docs.mu", "docs/a.mu", "docs/b.mu", "z.mu", "é.mu"]
    );
    assert_eq!(pages[2].size, 9);
    assert_eq!(pages[2].modified_ms, Some(1_700_000_000_000));
    assert_eq!(pages[2].clone().path, "docs/a.mu");
}

#[test]
fn what_cannot_be_served_is_not_listed() {
    let (mut disk, store) = test_store();
    disk.put("/host/pages/ok.mu", Node::File(Vec::new()));
    disk.put("/host/pages/ctl\u{1}.mu", Node::File(Vec::new()));
    disk.put("/host/pages/.git/config", Node::File(Vec::new()));
    disk.put("/host/pages/gone.mu", Node::Link("/nowhere".to_string()));
    // A backslash in a name is shown as a slash.
    disk.put("/host/pages/a\\b.mu", Node::File(Vec::new()));
    let pages = list(&disk, store.list_pages()).unwrap();
    let paths: Vec<&str> = pages.iter().map(|p| p.path.as_str()).collect();
    assert_eq!(paths, ["a/b.mu", "ok.mu"]);
}

#[test]
fn missing_and_linked_directories_list_nothing() {
    let (mut disk, store) = test_store();
    disk.nodes.remove("/host/pages");
    assert!(list(&disk, store.list_pages()).unwrap().is_empty());
    disk.put("/host/other/a.mu", Node::File(Vec::new()));
    disk.put("/host/pages", Node::Link("/host/other".to_string()));
    assert!(list(&disk, store.list_pages()).unwrap().is_empty());
    disk.put("/host/pages", Node::File(Vec::new()));
    assert!(matches!(list(&disk, store.list_pages()), Err(NomadError::Io(_))));
}

#[test]
fn listings_are_bounded_in_depth() {
    let (mut disk, store) = test_store();
    let deepest = vec!["d"; MAX_LIST_DEPTH].join("/");
    disk.put(&format!("/host/pages/{deepest}"), Node::Dir);
    disk.put("/host/pages/a.mu", Node::File(Vec::new()));
    assert_eq!(list(&disk, store.list_pages()).unwrap().len(), 1);
    disk.put(&format!("/host/pages/{deepest}/d"), Node::Dir);
    match list(&disk, store.list_pages()) {
        Err(NomadError::InvalidPath(why)) => assert_eq!(why, "directory tree too deep"),
        other => panic!("unexpected {other:?}"),
    }
}

#[test]
fn listings_are_bounded_in_size() {
    let (mut disk, store) = test_store();
    for i in 0..MAX_LISTED_ENTRIES {
        disk.nodes
            .insert(format!("/host/pages/p{i}.mu"), Node::File(Vec::new()));
    }
    assert_eq!(
        list(&disk, store.list_pages()).unwrap().len(),
        MAX_LISTED_ENTRIES
    );
    disk.nodes
        .insert("/host/pages/one-more.mu".to_string(), Node::File(Vec::new()));
    match list(&disk, store.list_pages()) {
        Err(NomadError::Message(why)) => assert_eq!(why, "content listing exceeds limit"),
        other => panic!("unexpected {:?}", other.map(|l| l.len())),
    }
}

#[test]
fn a_failing_entry_ends_a_listing() {
    let (disk, store) = test_store();
    for failing in [ListRequest::StatDir, ListRequest::OpenDir, ListRequest::NextEntry] {
        let mut task = store.list_pages();
        let mut walk = Walk::new(task.root());
        let r = loop {
            let request = task.request();
            let reply = if request == failing {
                ListReply::Failed(failure(IoKind::Other, "broken"))
            } else {
                walk.answer(&disk, request)
            };
            match task.resume(reply) {
                ListStep::Ask(next) => task = next,
                ListStep::Done(r) => break r,
            }
        };
        assert_eq!(r.unwrap_err().describe(), "io error: broken");
    }
}

// Serving.

#[test]
fn link_request_handler_serves_page_and_file() {
    let (mut disk, mut node) = node_with_content(
        &[("index.mu", b"> Hello from host\n")],
        &[("readme.txt", b"file-bytes")],
    );

    let page_hash = path_hash("/page/index.mu");
    match ask(&mut disk, &mut node, page_hash) {
        RequestOutcome::Reply(bytes) => {
            assert_eq!(bytes, b"> Hello from host\n");
        }
        _ => panic!("expected page reply from link request handler"),
    }

    let file_hash = path_hash("/file/readme.txt");
    match ask(&mut disk, &mut node, file_hash) {
        RequestOutcome::Reply(bytes) => {
            assert_eq!(bytes, b"file-bytes");
        }
        _ => panic!("expected file reply from link request handler"),
    }

    let stats = node.stats();
    assert_eq!(stats.page_hits, 1);
    assert_eq!(stats.file_hits, 1);
    assert_eq!(stats.request_count, 2);
}

#[test]
fn unknown_path_hash_does_not_clear_or_rescan_routes() {
    let (mut disk, mut node) = node_with_content(&[("index.mu", b"> ok\n")], &[]);
    let before = node.routes().len();
    assert!(before >= 1);

    disk.log.clear();
    match ask(&mut disk, &mut node, [0u8; 16]) {
        RequestOutcome::Reply(bytes) => {
            let body = String::from_utf8_lossy(&bytes);
            assert!(body.contains("Not found"));
        }
        _ => panic!("expected not-found Micron reply"),
    }
    assert!(disk.log.is_empty());

    let after = node.routes().len();
    assert_eq!(before, after, "soft-miss must not wipe the route table");

    // Registered page still serves without requiring a rebuild.
    match ask(&mut disk, &mut node, path_hash("/page/index.mu")) {
        RequestOutcome::Reply(bytes) => assert_eq!(bytes, b"> ok\n"),
        _ => panic!("expected page reply after unknown-hash miss"),
    }
}

#[test]
fn missing_file_drops_without_reply() {
    let (mut disk, mut node) = node_with_content(&[("index.mu", b"> ok\n")], &[]);
    node.register_route("/file/gone.bin".to_string()).unwrap();
    match ask(&mut disk, &mut node, path_hash("/file/gone.bin")) {
        RequestOutcome::Drop(DropReason::NotThere) => {}
        _ => panic!("expected Drop for missing file"),
    }
    assert_eq!(node.stats().not_found_count, 1);
}

#[test]
fn link_request_handler_skips_unregistered_dotfile_routes() {
    let (mut disk, mut node) = node_with_content(&[("index.mu", b"> ok\n")], &[]);
    // Forbidden routes are not registered; handler returns the not-found Micron page.
    let forbidden = path_hash("/page/.secret.mu");
    match ask(&mut disk, &mut node, forbidden) {
        RequestOutcome::Reply(bytes) => {
            let body = String::from_utf8_lossy(&bytes);
            assert!(body.contains("Not found"));
        }
        RequestOutcome::Drop(_) => panic!("expected not-found reply"),
    }
    assert_eq!(node.stats().page_hits, 0);
}

#[test]
fn reload_routes_picks_up_new_page() {
    let (mut disk, mut node) = node_with_content(&[("index.mu", b"> ok\n")], &[]);
    let write = node.store().write_page_rel("extra.mu", b"> extra\n");
    unit(run(&mut disk, write)).unwrap();
    // Not registered yet.
    match ask(&mut disk, &mut node, path_hash("/page/extra.mu")) {
        RequestOutcome::Reply(bytes) => {
            assert!(String::from_utf8_lossy(&bytes).contains("Not found"));
        }
        _ => panic!("expected not-found before reload"),
    }
    reload(&disk, &mut node).unwrap();
    match ask(&mut disk, &mut node, path_hash("/page/extra.mu")) {
        RequestOutcome::Reply(bytes) => assert_eq!(bytes, b"> extra\n"),
        _ => panic!("expected reply after reload"),
    }
}

#[test]
fn a_missing_page_is_named() {
    let (mut disk, mut node) = node_with_content(&[("index.mu", b"> ok\n"), ("a.mu", b"a")], &[]);
    let gone = node.store().delete_page_rel("a.mu");
    unit(run(&mut disk, gone)).unwrap();
    let text = reply_text(ask(&mut disk, &mut node, path_hash("/page/a.mu")));
    assert_eq!(text, not_found_page("/page/a.mu"));
    let text = reply_text(ask(&mut disk, &mut node, [9; 16]));
    assert_eq!(text, not_found_page("/page/unknown"));
    let stats = node.stats();
    assert_eq!(stats.not_found_count, 2);
    assert_eq!(stats.request_count, 2);
    assert_eq!(stats.last_request_ms, Some(77));
}

#[test]
fn content_that_cannot_be_read_is_dropped() {
    let (mut disk, mut node) =
        node_with_content(&[("index.mu", b"> ok\n"), ("a.mu", b"a")], &[("f", b"f")]);
    disk.put("/host/pages/a.mu", Node::Link("/etc/passwd".to_string()));
    for (path, broken, of_kind, why) in [
        ("/page/a.mu", None, ContentKind::Page, "path traversal rejected"),
        ("/file/f", Some("RealPath"), ContentKind::File, "io error: broken"),
    ] {
        disk.broken = broken.map(str::to_string).into_iter().collect();
        match ask(&mut disk, &mut node, path_hash(path)) {
            RequestOutcome::Drop(DropReason::Failed { kind, route, error }) => {
                assert_eq!(kind, of_kind);
                assert_eq!(route, path);
                assert_eq!(error.describe(), why);
            }
            other => panic!("unexpected {other:?}"),
        }
    }
    // A route that is neither a page nor a file is dropped too.
    node.register_route("/else/x".to_string()).unwrap();
    assert!(matches!(
        ask(&mut disk, &mut node, path_hash("/else/x")),
        RequestOutcome::Drop(DropReason::NotThere)
    ));
    let stats = node.stats();
    assert_eq!(stats.request_count, 3);
    assert_eq!((stats.page_hits, stats.file_hits, stats.not_found_count), (0, 0, 0));
}

#[test]
fn requests_over_the_budget_are_dropped() {
    let (mut disk, mut node) = node_with_content(&[("index.mu", b"> ok\n")], &[]);
    let hash = path_hash("/page/index.mu");
    for _ in 0..60 {
        assert_eq!(reply_text(ask_at(&mut disk, &mut node, hash, 1)), "> ok\n");
    }
    assert!(matches!(
        ask_at(&mut disk, &mut node, hash, 2),
        RequestOutcome::Drop(DropReason::OverBudget)
    ));
    assert_eq!(node.stats().request_count, 60);
    assert_eq!(
        reply_text(ask_at(&mut disk, &mut node, hash, 10_000_000_000)),
        "> ok\n"
    );
}

#[test]
fn requests_in_flight_are_bounded() {
    let (mut disk, mut node) = node_with_content(&[("index.mu", b"> ok\n")], &[]);
    let hash = path_hash("/page/index.mu");
    let mut open = Vec::new();
    for _ in 0..8 {
        match node.handle_request(&hash, 0, 1) {
            ServeStep::Read(task) => open.push(task),
            ServeStep::Answer(other) => panic!("unexpected {other:?}"),
        }
    }
    assert!(matches!(
        node.handle_request(&hash, 0, 1),
        ServeStep::Answer(RequestOutcome::Drop(DropReason::OverBudget))
    ));
    let mut step = ServeStep::Read(open.pop().unwrap());
    while let ServeStep::Read(task) = step {
        let reply = disk.answer(task.request());
        step = node.resume_request(task, reply);
    }
    assert!(matches!(
        node.handle_request(&hash, 0, 1),
        ServeStep::Read(_)
    ));
}

#[test]
fn route_collisions_are_told() {
    let mut table = nomad_core::routes::RouteTable::new();
    let hash = [5u8; 16];
    table.register_at(&hash, "/page/a.mu".to_string()).unwrap();
    table.register_at(&hash, "/page/a.mu".to_string()).unwrap();
    match table.register_at(&hash, "/page/b.mu".to_string()) {
        Err(NomadError::Message(why)) => assert_eq!(
            why,
            "route hash collision between /page/a.mu and /page/b.mu"
        ),
        other => panic!("unexpected {other:?}"),
    }
    assert_eq!(table.lookup(&hash).map(String::as_str), Some("/page/a.mu"));
    assert_eq!(table.len(), 1);
    table.register("/file/x".to_string()).unwrap();
    assert_eq!(
        table.lookup(&path_hash("/file/x")).map(String::as_str),
        Some("/file/x")
    );
    let mut near = hash;
    near[15] = 6;
    assert_eq!(table.lookup(&near), None);
    table.clear();
    assert_eq!(table.len(), 0);
}

#[test]
fn a_reload_that_fails_leaves_what_was_registered_so_far() {
    let (mut disk, mut node) = node_with_content(&[("a.mu", b"a")], &[]);
    disk.nodes.remove("/host/files");
    disk.put("/host/files", Node::File(Vec::new()));
    assert!(reload(&disk, &mut node).is_err());
    assert!(node.routes().lookup(&path_hash("/page/a.mu")).is_some());
    disk.nodes.remove("/host/files");
    reload(&disk, &mut node).unwrap();
    assert!(node.routes().lookup(&path_hash("/page/index.mu")).is_some());
}

#[test]
fn the_default_index_is_always_registered() {
    let (mut disk, mut node) = node_with_content(&[], &[]);
    assert_eq!(
        reply_text(ask(&mut disk, &mut node, path_hash("/page/index.mu"))),
        default_index_page("Test")
    );
    let gone = node.store().delete_page_rel("index.mu");
    unit(run(&mut disk, gone)).unwrap();
    reload(&disk, &mut node).unwrap();
    assert_eq!(node.routes().len(), 1);
    assert_eq!(
        reply_text(ask(&mut disk, &mut node, path_hash("/page/index.mu"))),
        not_found_page("/page/index.mu")
    );
}

// The start of a node.

#[test]
fn a_node_knows_its_hashes_and_its_name() {
    let (_disk, mut node) = node_with_content(&[], &[]);
    assert_eq!(node.destination_hash(), [0xab; 16]);
    assert_eq!(node.identity_hash(), [0x01; 16]);
    assert_eq!(node.destination_hash_hex(), "ab".repeat(16));
    assert_eq!(node.identity_hash_hex(), "01".repeat(16));
    assert_eq!(node.display_name(), "Test");
    node.set_display_name("A\u{1} new\n name");
    assert_eq!(node.display_name(), "A new name");
    node.set_display_name(&"é".repeat(200));
    assert_eq!(node.display_name(), "é".repeat(128));
    assert_eq!(node.store().roots().pages_dir, "/host/pages");
}

#[test]
fn hexadecimal_digits_come_high_half_first() {
    let mut disk = Disk::new();
    let store = open(&mut disk, NomadContentRoots::under("/host")).unwrap();
    let hash = [
        0x00, 0x01, 0x0f, 0x10, 0x9a, 0xff, 0x7e, 0xc3, 0, 0, 0, 0, 0, 0, 0, 0xe0,
    ];
    let task = NomadNode::spawn(hash, hash, store, &NomadNodeConfig::default()).unwrap();
    let node = spawn(&mut disk, task, true).unwrap();
    assert_eq!(node.destination_hash_hex(), "00010f109aff7ec300000000000000e0");
}

#[test]
fn the_default_configuration() {
    let config = NomadNodeConfig::default();
    assert_eq!(config.display_name, "Nomad node");
    let interval = config.announce_interval.unwrap();
    assert_eq!((interval.secs, interval.nanos), (3600, 0));
    assert!(config.announce_at_start);
    assert_eq!(config.clone().display_name, "Nomad node");
}

#[test]
fn a_start_goes_in_order() {
    let (mut disk, store) = test_store();
    disk.log.clear();
    let task =
        NomadNode::spawn([1; 16], [2; 16], store, &NomadNodeConfig::default()).unwrap();
    spawn(&mut disk, task, true).unwrap();
    let register = disk.log.iter().position(|r| r == "Register").unwrap();
    let rename = disk.log.iter().position(|r| r.starts_with("Rename")).unwrap();
    assert!(rename < register);
}

#[test]
fn a_start_without_an_index_registers_nothing() {
    let (mut disk, store) = test_store();
    disk.put("/host/pages/index.mu", Node::Link("/x".to_string()));
    disk.log.clear();
    let task =
        NomadNode::spawn([1; 16], [2; 16], store, &NomadNodeConfig::default()).unwrap();
    assert!(matches!(
        spawn(&mut disk, task, true),
        Err(NomadError::PathTraversal)
    ));
    assert!(!disk.log.iter().any(|r| r == "Register"));
}

#[test]
fn a_start_needs_a_signing_key() {
    let (mut disk, store) = test_store();
    let task =
        NomadNode::spawn([1; 16], [2; 16], store, &NomadNodeConfig::default()).unwrap();
    match spawn(&mut disk, task, false) {
        Err(NomadError::Message(why)) => assert_eq!(why, "identity has no signing key"),
        Ok(_) => panic!("expected a failure"),
        Err(other) => panic!("unexpected {other:?}"),
    }
}

// Errors.

#[test]
fn errors_have_their_texts() {
    let cases = [
        (NomadError::message("m"), "m"),
        (NomadError::InvalidPath("p".to_string()), "invalid path: p"),
        (NomadError::PathTraversal, "path traversal rejected"),
        (NomadError::NotFound("x".to_string()), "not found: x"),
        (NomadError::Io(failure(IoKind::Other, "disk")), "io error: disk"),
        (
            NomadError::TooLarge { size: 9, max: 8 },
            "response too large (9 > 8)",
        ),
        (NomadError::NotRunning, "serving is not running"),
        (NomadError::AlreadyRunning, "already running"),
    ];
    for (e, text) in cases {
        assert_eq!(e.describe(), text);
    }
}
