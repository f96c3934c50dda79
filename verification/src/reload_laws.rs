//! What a node serves of what was written, once it has read its content
//! directories again.

use vstd::prelude::*;

use crate::budget;
use crate::components;
use crate::components::ComponentView;
use crate::disk;
use crate::disk::Disk;
use crate::disk::Faults;
use crate::disk::Node;
use crate::error::ErrorView;
use crate::listing::EntryView;
use crate::listing_laws;
use crate::listing_laws::Tree;
use crate::listing_laws::TreeEntry;
use crate::node;
use crate::node::NodeView;
use crate::node::OutcomeView;
use crate::paths;
use crate::paths::FILE_PREFIX;
use crate::paths::PAGE_PREFIX;
use crate::rebuild;
use crate::resolve_laws;
use crate::route_laws;
use crate::routes;
use crate::serve_laws;
use crate::spelling;
use crate::store_laws;
use crate::store_task;
use crate::store_task::OpView;
use crate::text;
use crate::tree_laws;

verus! {

/// Does the tree show what stands at the canonical path `p`: the same kind of
/// thing, a file with its size, and a directory with an entry for everything in
/// it, one for each name?
pub open spec fn shows(nodes: Map<Seq<char>, Node>, p: Seq<char>, tree: Tree) -> bool
    decreases tree,
{
    nodes.dom().contains(p) && match tree {
        Tree::File(size, _) => nodes[p] matches Node::File(content) && content.len() == size,
        Tree::Link => nodes[p] is Link,
        Tree::Other => nodes[p] is Other,
        Tree::Directory(entries) => {
            &&& nodes[p] is Directory
            &&& forall|i: int|
                0 <= i < entries.len() ==> components::is_plain_name(
                    (#[trigger] entries[i]).name,
                ) && shows(nodes, components::join(p, entries[i].name), entries[i].node)
            &&& forall|i: int, j: int|
                0 <= i < j < entries.len() ==> (#[trigger] entries[i]).name != (
                #[trigger] entries[j]).name
            &&& forall|name: Seq<char>|
                #![trigger components::join(p, name)]
                components::is_plain_name(name) && nodes.dom().contains(components::join(p, name))
                    ==> has_name(entries, name)
        },
    }
}

/// Does one of the entries have the name?
pub open spec fn has_name(entries: Seq<TreeEntry>, name: Seq<char>) -> bool {
    exists|i: int| 0 <= i < entries.len() && (#[trigger] entries[i]).name == name
}

/// Where a tree shows a directory, the names of a file below it lead to that file
/// in the tree too.
proof fn lemma_files_are_shown(
    d: Disk,
    root: Seq<char>,
    comps: Seq<ComponentView>,
    k: nat,
    entries: Seq<TreeEntry>,
    content: Seq<u8>,
) -> (file: (u64, Option<u64>))
    requires
        disk::is_spelling(d.canon),
        disk::is_tree(d.nodes),
        k < comps.len(),
        forall|i: int| 0 <= i < comps.len() ==> route_laws::is_plain(#[trigger] comps[i]),
        shows(
            d.nodes,
            resolve_laws::descended((d.canon)(root), comps, k),
            Tree::Directory(entries),
        ),
        ({
            let end = resolve_laws::descended((d.canon)(root), comps, comps.len());
            d.nodes.dom().contains(end) && d.nodes[end] == Node::File(content)
        }),
    ensures
        file.0 == content.len(),
        tree_laws::reaches(
            entries,
            spelling::plain_names(comps).skip(k as int),
            Tree::File(file.0, file.1),
        ),
    decreases comps.len() - k,
{
    let base = (d.canon)(root);
    let here = resolve_laws::descended(base, comps, k);
    let name = resolve_laws::name_of(comps[k as int]);
    let below = resolve_laws::descended(base, comps, k + 1);
    let names = spelling::plain_names(comps).skip(k as int);
    assert(route_laws::is_plain(comps[k as int]));
    assert(names[0] == name);
    assert(below == components::join(here, name));
    if k + 1 < comps.len() {
        store_laws::lemma_directories_above(d, d.nodes, root, comps, comps.len(), k + 1);
    }
    assert(d.nodes.dom().contains(components::join(here, name)));
    assert(has_name(entries, name));
    let i = choose|i: int| 0 <= i < entries.len() && (#[trigger] entries[i]).name == name;
    assert(shows(d.nodes, components::join(here, entries[i].name), entries[i].node));
    assert(shows(d.nodes, below, entries[i].node));
    if k + 1 == comps.len() {
        assert(names.len() == 1);
        match entries[i].node {
            Tree::File(size, modified_ms) => {
                assert(tree_laws::reaches_by(
                    entries,
                    names,
                    Tree::File(size, modified_ms),
                    i,
                ));
                (size, modified_ms)
            },
            _ => {
                assert(false);
                (0, None)
            },
        }
    } else {
        match entries[i].node {
            Tree::Directory(sub) => {
                let file = lemma_files_are_shown(d, root, comps, k + 1, sub, content);
                assert(names.skip(1) =~= spelling::plain_names(comps).skip((k + 1) as int));
                assert(tree_laws::reaches_by(entries, names, Tree::File(file.0, file.1), i));
                file
            },
            _ => {
                assert(false);
                (0, None)
            },
        }
    }
}

/// A listing of a directory holds what is stored there under an accepted path,
/// with its size, as the path that its names spell.
pub proof fn law_stored_content_is_listed(
    d: Disk,
    root: Seq<char>,
    rel: Seq<char>,
    content: Seq<u8>,
    tree: Tree,
)
    requires
        disk::is_spelling(d.canon),
        disk::is_tree(d.nodes),
        paths::content_path_error(rel) is None,
        text::trimmed(spelling::spelled(rel)) == spelling::spelled(rel),
        d.nodes.dom().contains(store_laws::place(d, root, rel)),
        d.nodes[store_laws::place(d, root, rel)] == Node::File(content),
        shows(d.nodes, (d.canon)(root), tree),
    ensures
        listing_laws::listed(Some(tree)) matches Ok(found) ==> exists|e: EntryView| #[trigger]
            found.contains(e) && e.path == spelling::spelled(rel) && e.size == content.len(),
{
    let comps = store_laws::names_of(rel);
    spelling::lemma_names_are_plain(rel);
    spelling::law_spelled_paths_are_accepted(rel);
    assert forall|i: int| 0 <= i < comps.len() implies route_laws::is_plain(
        #[trigger] comps[i],
    ) by {
    }
    store_laws::lemma_directories_above(d, d.nodes, root, comps, comps.len(), 0);
    match tree {
        Tree::Directory(entries) => {
            let file = lemma_files_are_shown(d, root, comps, 0, entries, content);
            let names = spelling::plain_names(comps);
            let e = EntryView { path: spelling::spelled(rel), size: file.0, modified_ms: file.1 };
            assert(names.skip(0) =~= names);
            assert(Seq::<Seq<char>>::empty() + names =~= names);
            assert(tree_laws::is_file_at(Seq::empty(), entries, names, e));
            tree_laws::law_listings_are_complete(entries, e);
        },
        _ => {},
    }
}

/// The path that the names lead to from `p`.
pub open spec fn below(p: Seq<char>, names: Seq<Seq<char>>) -> Seq<char>
    decreases names.len(),
{
    if names.len() == 0 {
        p
    } else {
        below(components::join(p, names[0]), names.skip(1))
    }
}

proof fn lemma_shown_files_are_there(
    nodes: Map<Seq<char>, Node>,
    p: Seq<char>,
    entries: Seq<TreeEntry>,
    names: Seq<Seq<char>>,
    size: u64,
    modified_ms: Option<u64>,
)
    requires
        shows(nodes, p, Tree::Directory(entries)),
        tree_laws::reaches(entries, names, Tree::File(size, modified_ms)),
    ensures
        shows(nodes, below(p, names), Tree::File(size, modified_ms)),
    decreases names.len(),
{
    let i = tree_laws::lemma_way(entries, names, Tree::File(size, modified_ms));
    let rest = names.skip(1);
    assert(shows(nodes, components::join(p, entries[i].name), entries[i].node));
    if names.len() == 1 {
        assert(below(components::join(p, names[0]), rest) == components::join(p, names[0]));
    } else {
        match entries[i].node {
            Tree::Directory(sub) => {
                lemma_shown_files_are_there(
                    nodes,
                    components::join(p, names[0]),
                    sub,
                    rest,
                    size,
                    modified_ms,
                );
            },
            _ => {},
        }
    }
}

/// Is there a file of the entry's size at names that spell the entry's path?
pub open spec fn is_stored(nodes: Map<Seq<char>, Node>, p: Seq<char>, e: EntryView) -> bool {
    exists|names: Seq<Seq<char>>|
        {
            &&& names.len() > 0
            &&& e.path == tree_laws::path_of(names)
            &&& shows(nodes, #[trigger] below(p, names), Tree::File(e.size, e.modified_ms))
        }
}

/// A listing of a directory holds nothing but what is stored there.
pub proof fn law_listed_content_is_stored(
    nodes: Map<Seq<char>, Node>,
    p: Seq<char>,
    tree: Tree,
    e: EntryView,
)
    requires
        shows(nodes, p, tree),
    ensures
        listing_laws::listed(Some(tree)) matches Ok(found) ==> (found.contains(e) ==> is_stored(
            nodes,
            p,
            e,
        )),
{
    match tree {
        Tree::Directory(entries) => {
            tree_laws::law_listings_are_complete(entries, e);
            let none = Seq::<Seq<char>>::empty();
            if tree_laws::has_file(none, entries, e) {
                let names = choose|names: Seq<Seq<char>>|
                    tree_laws::is_file_at(none, entries, names, e);
                assert(none + names =~= names);
                lemma_shown_files_are_there(nodes, p, entries, names, e.size, e.modified_ms);
                assert(shows(nodes, below(p, names), Tree::File(e.size, e.modified_ms)));
            }
        },
        _ => {},
    }
}

/// What a write that succeeded leaves behind.
proof fn lemma_written_content_is_there(
    d: Disk,
    faults: Faults,
    root: Seq<char>,
    rel: Seq<char>,
    content: Seq<u8>,
)
    requires
        disk::is_disk(d),
        store_laws::is_request(rel),
        store_laws::links_above_are_told(d, faults, root, rel),
        !disk::is_link(d.nodes, store_laws::temp_place(d, root, rel)),
        disk::run(d, faults, store_task::started(OpView::Write(content), root, rel)).1 is Ok,
    ensures
        ({
            let after = disk::run(
                d,
                faults,
                store_task::started(OpView::Write(content), root, rel),
            ).0;
            let place = store_laws::place(after, root, rel);
            &&& store_laws::is_laid_out(after, root, rel)
            &&& after.canon == d.canon
            &&& after.nodes.dom().contains(place)
            &&& after.nodes[place] == Node::File(content)
        }),
{
    store_laws::lemma_write_ends(d, faults, root, rel, content);
    store_laws::law_tasks_keep_the_tree(
        d,
        faults,
        store_task::started(OpView::Write(content), root, rel),
    );
}

/// What was written as a page is served after a reload: once the page directory,
/// with what was written in it, has been read again without an error, a request
/// for the route of the path that the page's names spell gets exactly what was
/// written, however the write went on its way to success.
pub proof fn law_written_page_is_served_after_a_reload(
    n: NodeView,
    d: Disk,
    faults: Faults,
    rel: Seq<char>,
    content: Seq<u8>,
    pages: Tree,
    files: Option<Tree>,
    now: u128,
    now_ms: u64,
)
    requires
        disk::is_disk(d),
        store_laws::is_request(rel),
        store_laws::links_above_are_told(d, faults, n.roots.pages_dir, rel),
        !disk::is_link(d.nodes, store_laws::temp_place(d, n.roots.pages_dir, rel)),
        text::trimmed(spelling::spelled(rel)) == spelling::spelled(rel),
        content.len() <= n.roots.max_page_bytes,
        ({
            let (after, r) = disk::run(
                d,
                faults,
                store_task::started(OpView::Write(content), n.roots.pages_dir, rel),
            );
            r is Ok && shows(after.nodes, (after.canon)(n.roots.pages_dir), pages)
        }),
        rebuild::reloads(n.roots, Some(pages), files, (n.routes, None)),
        budget::admits(n.budget, now),
    ensures
        ({
            let after = disk::run(
                d,
                faults,
                store_task::started(OpView::Write(content), n.roots.pages_dir, rel),
            ).0;
            let route = PAGE_PREFIX@ + spelling::spelled(rel);
            serve_laws::answered(
                n,
                after,
                disk::no_faults(),
                paths::route_hash(route),
                now,
                now_ms,
            ) == (
                node::released(node::page_served(node::admitted(n, now, now_ms))),
                after,
                OutcomeView::Reply(content),
            )
        }),
{
    let root = n.roots.pages_dir;
    let after = disk::run(d, faults, store_task::started(OpView::Write(content), root, rel)).0;
    let path = spelling::spelled(rel);
    let route = PAGE_PREFIX@ + path;
    lemma_written_content_is_there(d, faults, root, rel, content);
    spelling::law_spelled_paths_are_accepted(rel);
    route_laws::law_stored_page_has_its_route(path);
    law_stored_content_is_listed(after, root, rel, content, pages);
    rebuild::law_rebuild_ends_are_listings(n.roots, Some(pages), files, (n.routes, None));
    let found = listing_laws::listed(Some(pages))->Ok_0;
    let others = listing_laws::listed(files)->Ok_0;
    let e = choose|e: EntryView| #[trigger] found.contains(e) && e.path == path;
    let i = choose|i: int| 0 <= i < found.len() && found[i] == e;
    assert(routes::page_routes(found)[i] == Ok::<Seq<char>, ErrorView>(route));
    assert(rebuild::is_among(routes::page_routes(found), route));
    rebuild::law_rebuilt_tables_serve_the_listings(found, others, route);
    assert(route.skip(PAGE_PREFIX@.len() as int) =~= path);
    serve_laws::lemma_laid_out_page_is_served(n, after, path, content, now, now_ms);
}

/// What was written as a file is served after a reload, as a page is.
pub proof fn law_written_file_is_served_after_a_reload(
    n: NodeView,
    d: Disk,
    faults: Faults,
    rel: Seq<char>,
    content: Seq<u8>,
    pages: Option<Tree>,
    files: Tree,
    now: u128,
    now_ms: u64,
)
    requires
        disk::is_disk(d),
        store_laws::is_request(rel),
        store_laws::links_above_are_told(d, faults, n.roots.files_dir, rel),
        !disk::is_link(d.nodes, store_laws::temp_place(d, n.roots.files_dir, rel)),
        text::trimmed(spelling::spelled(rel)) == spelling::spelled(rel),
        content.len() <= n.roots.max_file_bytes,
        ({
            let (after, r) = disk::run(
                d,
                faults,
                store_task::started(OpView::Write(content), n.roots.files_dir, rel),
            );
            r is Ok && shows(after.nodes, (after.canon)(n.roots.files_dir), files)
        }),
        rebuild::reloads(n.roots, pages, Some(files), (n.routes, None)),
        budget::admits(n.budget, now),
    ensures
        ({
            let after = disk::run(
                d,
                faults,
                store_task::started(OpView::Write(content), n.roots.files_dir, rel),
            ).0;
            let route = FILE_PREFIX@ + spelling::spelled(rel);
            serve_laws::answered(
                n,
                after,
                disk::no_faults(),
                paths::route_hash(route),
                now,
                now_ms,
            ) == (
                node::released(node::file_served(node::admitted(n, now, now_ms))),
                after,
                OutcomeView::Reply(content),
            )
        }),
{
    let root = n.roots.files_dir;
    let after = disk::run(d, faults, store_task::started(OpView::Write(content), root, rel)).0;
    let path = spelling::spelled(rel);
    let route = FILE_PREFIX@ + path;
    lemma_written_content_is_there(d, faults, root, rel, content);
    spelling::law_spelled_paths_are_accepted(rel);
    route_laws::law_stored_file_has_its_route(path);
    law_stored_content_is_listed(after, root, rel, content, files);
    rebuild::law_rebuild_ends_are_listings(n.roots, pages, Some(files), (n.routes, None));
    let found = listing_laws::listed(Some(files))->Ok_0;
    let others = listing_laws::listed(pages)->Ok_0;
    let e = choose|e: EntryView| #[trigger] found.contains(e) && e.path == path;
    let i = choose|i: int| 0 <= i < found.len() && found[i] == e;
    assert(routes::file_routes(found)[i] == Ok::<Seq<char>, ErrorView>(route));
    assert(rebuild::is_among(routes::file_routes(found), route));
    rebuild::law_rebuilt_tables_serve_the_listings(others, found, route);
    assert(route.skip(FILE_PREFIX@.len() as int) =~= path);
    serve_laws::lemma_laid_out_file_is_served(n, after, path, content, now, now_ms);
}

} // verus!
