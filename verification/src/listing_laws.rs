//! What a listing finds in a directory tree.

use vstd::prelude::*;

use crate::error::ErrorView;
use crate::error::IoFailureView;
use crate::error::IoKind;
use crate::fs::FileKind;
use crate::fs::FileStat;
use crate::listing;
use crate::listing::EntryView;
use crate::listing::ListReplyView;
use crate::listing::ListRequest;
use crate::listing::ListStepView;
use crate::listing::ListView;
use crate::listing::MAX_LISTED_ENTRIES;
use crate::listing::MAX_LIST_DEPTH;
use crate::order;
use crate::paths;

verus! {

/// What stands in a directory tree.
pub enum Tree {
    /// A directory and its entries, in the order they are read.
    Directory(Seq<TreeEntry>),
    /// A regular file, its size and when it was last modified.
    File(u64, Option<u64>),
    /// A symbolic link.
    Link,
    Other,
}

/// An entry of a directory.
pub struct TreeEntry {
    pub name: Seq<char>,
    pub node: Tree,
}

/// What the file system tells about a node.
pub open spec fn stat_of(node: Tree) -> FileStat {
    match node {
        Tree::Directory(_) => FileStat { kind: FileKind::Directory, len: 0, modified_ms: None },
        Tree::File(len, modified_ms) => FileStat { kind: FileKind::Regular, len, modified_ms },
        Tree::Link => FileStat { kind: FileKind::Symlink, len: 0, modified_ms: None },
        Tree::Other => FileStat { kind: FileKind::Other, len: 0, modified_ms: None },
    }
}

/// A walk's place in the tree.
pub struct Cursor {
    /// What is left to read of each open directory, the innermost last.
    pub open: Seq<Seq<TreeEntry>>,
    /// The node just looked at; none if there is nothing.
    pub node: Option<Tree>,
}

/// The request cannot be carried out.
pub open spec fn refused() -> IoFailureView {
    IoFailureView { kind: IoKind::Other, text: "refused"@ }
}

/// What a request is answered.
pub open spec fn reply_at(c: Cursor, request: ListRequest) -> ListReplyView {
    match request {
        ListRequest::Exists => ListReplyView::Exists(c.node is Some),
        ListRequest::StatDir | ListRequest::StatEntry => match c.node {
            Some(node) => ListReplyView::Stat(stat_of(node)),
            None => ListReplyView::Failed(refused()),
        },
        ListRequest::OpenDir => match c.node {
            Some(Tree::Directory(_)) => ListReplyView::Opened,
            _ => ListReplyView::Failed(refused()),
        },
        ListRequest::NextEntry => if c.open.len() == 0 || c.open.last().len() == 0 {
            ListReplyView::End
        } else {
            ListReplyView::Entry(c.open.last()[0].name)
        },
    }
}

/// The place after a request.
pub open spec fn moved(c: Cursor, request: ListRequest) -> Cursor {
    match (request, c.node) {
        (ListRequest::OpenDir, Some(Tree::Directory(entries))) => Cursor {
            open: c.open.push(entries),
            ..c
        },
        (ListRequest::NextEntry, _) => if c.open.len() == 0 {
            c
        } else if c.open.last().len() == 0 {
            Cursor { open: c.open.drop_last(), ..c }
        } else {
            Cursor {
                open: c.open.drop_last().push(c.open.last().skip(1)),
                node: Some(c.open.last()[0].node),
            }
        },
        _ => c,
    }
}

/// Where a walk stands after `n` more replies.
pub open spec fn after(c: Cursor, step: ListStepView, n: nat) -> (Cursor, ListStepView)
    decreases n,
{
    match step {
        ListStepView::Ask(s) => if n == 0 {
            (c, step)
        } else {
            after(
                moved(c, s.request),
                listing::next(s, reply_at(c, s.request)),
                (n - 1) as nat,
            )
        },
        ListStepView::Done(_) => (c, step),
    }
}

/// What the entries of the directory reached by `dirs` add to `out`: hidden
/// names and symbolic links are skipped, directories are walked through, and
/// regular files are added where their path is acceptable.
pub open spec fn walked(
    dirs: Seq<Seq<char>>,
    entries: Seq<TreeEntry>,
    out: Seq<EntryView>,
) -> Result<Seq<EntryView>, ErrorView>
    decreases entries,
{
    if entries.len() == 0 {
        Ok(out)
    } else if out.len() >= MAX_LISTED_ENTRIES {
        Err(ErrorView::Message("content listing exceeds limit"@))
    } else {
        let e = entries[0];
        let found = if paths::is_hidden(e.name) {
            Ok(out)
        } else {
            match e.node {
                Tree::Directory(sub) => if dirs.len() + 1 > MAX_LIST_DEPTH {
                    Err(ErrorView::InvalidPath("directory tree too deep"@))
                } else {
                    walked(dirs.push(e.name), sub, out)
                },
                Tree::File(size, modified_ms) => {
                    let path = listing::relative_path(dirs, e.name);
                    if paths::content_path_error(path) is None {
                        Ok(out.push(EntryView { path, size, modified_ms }))
                    } else {
                        Ok(out)
                    }
                },
                _ => Ok(out),
            }
        };
        match found {
            Err(e) => Err(e),
            Ok(more) => walked(dirs, entries.skip(1), more),
        }
    }
}

/// What the content directory `tree` lists: nothing where it is missing or a
/// symbolic link, else all it holds, sorted by path.
pub open spec fn listed(tree: Option<Tree>) -> Result<Seq<EntryView>, ErrorView> {
    match tree {
        None => Ok(Seq::empty()),
        Some(Tree::Link) => Ok(Seq::empty()),
        Some(Tree::Directory(entries)) => match walked(Seq::empty(), entries, Seq::empty()) {
            Err(e) => Err(e),
            Ok(found) => Ok(order::sorted(found)),
        },
        Some(_) => Err(ErrorView::Io(refused())),
    }
}

proof fn lemma_after_sum(c: Cursor, step: ListStepView, a: nat, b: nat)
    ensures
        ({
            let (c1, step1) = after(c, step, a);
            after(c, step, a + b) == after(c1, step1, b)
        }),
    decreases a,
{
    match step {
        ListStepView::Ask(s) => if a > 0 {
            lemma_after_sum(
                moved(c, s.request),
                listing::next(s, reply_at(c, s.request)),
                (a - 1) as nat,
                b,
            );
        },
        ListStepView::Done(_) => {},
    }
}

/// The walk through what is left of the open directory.
proof fn lemma_walk(c: Cursor, s: ListView, entries: Seq<TreeEntry>) -> (r: (
    nat,
    Cursor,
    Seq<char>,
))
    requires
        c.open.len() > 0,
        c.open.last() == entries,
        s.request == ListRequest::NextEntry,
    ensures
        match walked(s.dirs, entries, s.out) {
            Err(e) => after(c, ListStepView::Ask(s), r.0) == (
                r.1,
                ListStepView::Done(Err::<Seq<EntryView>, ErrorView>(e)),
            ),
            Ok(out) => after(c, ListStepView::Ask(s), r.0) == (
                r.1,
                listing::left(ListView { out, name: r.2, ..s }),
            ) && r.1.open == c.open.drop_last(),
        },
    decreases entries,
{
    let step = ListStepView::Ask(s);
    let c1 = moved(c, ListRequest::NextEntry);
    let step1 = listing::next(s, reply_at(c, ListRequest::NextEntry));
    assert(after(c, step, 1) == (c1, step1)) by {
        assert(after(c1, step1, 0) == (c1, step1));
    }
    if entries.len() == 0 {
        (1, c1, s.name)
    } else if s.out.len() >= MAX_LISTED_ENTRIES {
        (1, c1, s.name)
    } else {
        let e = entries[0];
        let rest = entries.skip(1);
        assert(c1.open.drop_last() =~= c.open.drop_last());
        if paths::is_hidden(e.name) {
            let (n, c2, name) = lemma_walk(c1, s, rest);
            lemma_after_sum(c, step, 1, n);
            (1 + n, c2, name)
        } else {
            let s1 = ListView { name: e.name, request: ListRequest::StatEntry, ..s };
            let step2 = listing::next(s1, reply_at(c1, ListRequest::StatEntry));
            assert(after(c1, step1, 1) == (c1, step2)) by {
                assert(after(c1, step2, 0) == (c1, step2));
            }
            lemma_after_sum(c, step, 1, 1);
            match e.node {
                Tree::Directory(sub) => {
                    let s2 = ListView {
                        dirs: s.dirs.push(e.name),
                        request: ListRequest::Exists,
                        ..s1
                    };
                    assert(step2 == ListStepView::Ask(s2));
                    let step3 = listing::next(s2, reply_at(c1, ListRequest::Exists));
                    assert(after(c1, step2, 1) == (c1, step3)) by {
                        assert(after(c1, step3, 0) == (c1, step3));
                    }
                    lemma_after_sum(c, step, 2, 1);
                    if s2.dirs.len() > MAX_LIST_DEPTH {
                        (3, c1, s.name)
                    } else {
                        let s3 = ListView { request: ListRequest::StatDir, ..s2 };
                        let step4 = listing::next(s3, reply_at(c1, ListRequest::StatDir));
                        assert(after(c1, step3, 1) == (c1, step4)) by {
                            assert(after(c1, step4, 0) == (c1, step4));
                        }
                        lemma_after_sum(c, step, 3, 1);
                        let s4 = ListView { request: ListRequest::OpenDir, ..s2 };
                        assert(step4 == ListStepView::Ask(s4));
                        let c5 = moved(c1, ListRequest::OpenDir);
                        let step5 = listing::next(s4, reply_at(c1, ListRequest::OpenDir));
                        assert(after(c1, step4, 1) == (c5, step5)) by {
                            assert(after(c5, step5, 0) == (c5, step5));
                        }
                        lemma_after_sum(c, step, 4, 1);
                        let s5 = ListView { request: ListRequest::NextEntry, ..s2 };
                        assert(step5 == ListStepView::Ask(s5));
                        assert(c5.open.last() == sub);
                        assert(c5.open.drop_last() =~= c1.open);
                        assert(decreases_to!(entries => entries[0]));
                        let (n, c6, name) = lemma_walk(c5, s5, sub);
                        lemma_after_sum(c, step, 5, n);
                        match walked(s5.dirs, sub, s5.out) {
                            Err(_) => (5 + n, c6, name),
                            Ok(out) => {
                                let s6 = ListView {
                                    out,
                                    name,
                                    request: ListRequest::NextEntry,
                                    ..s
                                };
                                assert(s5.dirs.drop_last() =~= s.dirs);
                                assert(after(c, step, 5 + n) == (c6, ListStepView::Ask(s6)));
                                let (m, c7, last) = lemma_walk(c6, s6, rest);
                                lemma_after_sum(c, step, 5 + n, m);
                                (5 + n + m, c7, last)
                            },
                        }
                    }
                },
                Tree::File(size, modified_ms) => {
                    let out = listing::with_file(s1, stat_of(e.node));
                    let s2 = ListView { out, request: ListRequest::NextEntry, ..s1 };
                    assert(step2 == ListStepView::Ask(s2));
                    let (n, c2, name) = lemma_walk(c1, s2, rest);
                    lemma_after_sum(c, step, 2, n);
                    (2 + n, c2, name)
                },
                _ => {
                    let s2 = ListView { request: ListRequest::NextEntry, ..s1 };
                    assert(step2 == ListStepView::Ask(s2));
                    let (n, c2, name) = lemma_walk(c1, s2, rest);
                    lemma_after_sum(c, step, 2, n);
                    (2 + n, c2, name)
                },
            }
        }
    }
}

/// Does a walk of the tree end with the result?
pub open spec fn lists(root: Seq<char>, tree: Option<Tree>, r: Result<Seq<EntryView>, ErrorView>) -> bool {
    exists|n: nat|
        (#[trigger] after(
            Cursor { open: Seq::empty(), node: tree },
            ListStepView::Ask(listing::started(root)),
            n,
        )).1 == ListStepView::Done(r)
}

/// Every walk ends, and with exactly what the tree lists.
pub proof fn law_listing_is_exact(root: Seq<char>, tree: Option<Tree>)
    ensures
        lists(root, tree, listed(tree)),
{
    let c = Cursor { open: Seq::empty(), node: tree };
    let s = listing::started(root);
    let step = ListStepView::Ask(s);
    reveal_with_fuel(after, 4);
    match tree {
        None => {
            assert(after(c, step, 1).1 == ListStepView::Done(listed(tree)));
        },
        Some(Tree::Link) => {
            assert(after(c, step, 2).1 == ListStepView::Done(listed(tree)));
        },
        Some(Tree::Directory(entries)) => {
            let s3 = ListView { request: ListRequest::NextEntry, ..s };
            let c3 = moved(c, ListRequest::OpenDir);
            assert(after(c, step, 3) == (c3, ListStepView::Ask(s3)));
            let (n, c4, name) = lemma_walk(c3, s3, entries);
            lemma_after_sum(c, step, 3, n);
            assert(after(c, step, 3 + n).1 == ListStepView::Done(listed(tree)));
        },
        Some(_) => {
            assert(after(c, step, 3).1 == ListStepView::Done(listed(tree)));
        },
    }
}

/// Is the path of every entry acceptable?
pub open spec fn are_servable(s: Seq<EntryView>) -> bool {
    forall|i: int| 0 <= i < s.len() ==> paths::content_path_error((#[trigger] s[i]).path) is None
}

proof fn lemma_walked_are_servable(
    dirs: Seq<Seq<char>>,
    entries: Seq<TreeEntry>,
    out: Seq<EntryView>,
)
    requires
        are_servable(out),
        out.len() <= MAX_LISTED_ENTRIES,
    ensures
        walked(dirs, entries, out) matches Ok(found) ==> are_servable(found) && found.len()
            <= MAX_LISTED_ENTRIES,
    decreases entries,
{
    if entries.len() > 0 && out.len() < MAX_LISTED_ENTRIES {
        let e = entries[0];
        let rest = entries.skip(1);
        if paths::is_hidden(e.name) {
            lemma_walked_are_servable(dirs, rest, out);
        } else {
            match e.node {
                Tree::Directory(sub) => {
                    assert(decreases_to!(entries => entries[0]));
                    lemma_walked_are_servable(dirs.push(e.name), sub, out);
                    match walked(dirs.push(e.name), sub, out) {
                        Ok(more) => lemma_walked_are_servable(dirs, rest, more),
                        Err(_) => {},
                    }
                },
                Tree::File(size, modified_ms) => {
                    let path = listing::relative_path(dirs, e.name);
                    if paths::content_path_error(path) is None {
                        let more = out.push(EntryView { path, size, modified_ms });
                        lemma_walked_are_servable(dirs, rest, more);
                    } else {
                        lemma_walked_are_servable(dirs, rest, out);
                    }
                },
                _ => lemma_walked_are_servable(dirs, rest, out),
            }
        }
    }
}

/// A listing is sorted by path, bounded, and holds acceptable paths only; so no
/// dotfile and no `*.allowed` is ever listed.
pub proof fn law_listings_are_sorted_and_servable(tree: Option<Tree>)
    ensures
        listed(tree) matches Ok(found) ==> {
            &&& order::is_sorted(found)
            &&& are_servable(found)
            &&& found.len() <= MAX_LISTED_ENTRIES
        },
{
    match tree {
        Some(Tree::Directory(entries)) => {
            lemma_walked_are_servable(Seq::empty(), entries, Seq::empty());
            match walked(Seq::empty(), entries, Seq::empty()) {
                Ok(found) => {
                    let all = order::sorted(found);
                    order::law_sorted_entries(found);
                    order::lemma_sorted_len(found);
                    assert forall|i: int| 0 <= i < all.len() implies paths::content_path_error(
                        (#[trigger] all[i]).path,
                    ) is None by {
                        vstd::seq_lib::to_multiset_contains(all, all[i]);
                        vstd::seq_lib::to_multiset_contains(found, all[i]);
                        assert(all.contains(all[i]));
                        assert(found.contains(all[i]));
                    }
                },
                Err(_) => {},
            }
        },
        _ => {},
    }
}

/// A failure in the middle of a walk is told as it is, unless the walk was full; a
/// directory that has gone, or has become a symbolic link, is passed over.
pub proof fn law_failed_walks_are_told(s: ListView, e: IoFailureView)
    ensures
        ({
            let told = ListStepView::Done(Err::<Seq<EntryView>, ErrorView>(ErrorView::Io(e)));
            let failed = ListReplyView::Failed(e);
            &&& listing::next(ListView { request: ListRequest::StatDir, ..s }, failed) == told
            &&& listing::next(ListView { request: ListRequest::OpenDir, ..s }, failed) == told
            &&& listing::next(ListView { request: ListRequest::StatEntry, ..s }, failed) == told
            &&& s.out.len() < 10_000 ==> listing::next(
                ListView { request: ListRequest::NextEntry, ..s },
                failed,
            ) == told
            &&& s.out.len() >= 10_000 ==> listing::next(
                ListView { request: ListRequest::NextEntry, ..s },
                failed,
            ) == ListStepView::Done(Err(ErrorView::Message("content listing exceeds limit"@)))
            &&& s.dirs.len() > 0 ==> listing::next(
                ListView { request: ListRequest::Exists, ..s },
                ListReplyView::Exists(false),
            ) == ListStepView::Ask(
                ListView { dirs: s.dirs.drop_last(), request: ListRequest::NextEntry, ..s },
            )
            &&& s.dirs.len() > 0 ==> listing::next(
                ListView { request: ListRequest::StatDir, ..s },
                ListReplyView::Stat(stat_of(Tree::Link)),
            ) == ListStepView::Ask(
                ListView { dirs: s.dirs.drop_last(), request: ListRequest::NextEntry, ..s },
            )
        }),
{
}

} // verus!
