//! What an operation on the store comes to, from the call that begins it.

use vstd::prelude::*;

use crate::components;
use crate::disk;
use crate::disk::Disk;
use crate::disk::Faults;
use crate::disk::Node;
use crate::error::ErrorView;
use crate::error::IoFailureView;
use crate::error::IoKind;
use crate::fs::ReplyView;
use crate::fs::RequestView;
use crate::paths;
use crate::resolve_laws;
use crate::route_laws;
use crate::storage;
use crate::storage::OpenStepView;
use crate::storage::RootsView;
use crate::store_laws;
use crate::store_task;
use crate::store_task::OpView;
use crate::store_task::OutputView;
use crate::store_task::PhaseView;
use crate::store_task::StoreStepView;
use crate::store_task::StoreView;

verus! {

/// An operation is begun exactly if its path is acceptable, and then as what it was
/// asked for: the path as given, all of the content, the cap. A write whose content is
/// over the cap is refused; what is at the cap is not.
pub proof fn law_operations_are_begun_as_asked(
    root: Seq<char>,
    max: usize,
    rel: Seq<char>,
    content: Seq<u8>,
    op: OpView,
)
    ensures
        paths::content_path_error(rel) matches Some(e) ==> {
            &&& storage::begun(op, root, rel) == Err::<StoreView, ErrorView>(e)
            &&& storage::write_begun(root, max, rel, content) == Err::<StoreView, ErrorView>(e)
        },
        paths::content_path_error(rel) is None ==> {
            &&& storage::begun(op, root, rel) matches Ok(s) && s.op == op && s.rel == rel && s
                == store_task::started(op, root, rel)
            &&& content.len() <= max ==> (storage::write_begun(root, max, rel, content) matches Ok(s)
                && s.op == OpView::Write(content) && s.rel == rel && s == store_task::started(
                OpView::Write(content),
                root,
                rel,
            ))
            &&& content.len() > max ==> storage::write_begun(root, max, rel, content) == Err::<
                StoreView,
                ErrorView,
            >(ErrorView::TooLarge { size: content.len(), max: max as nat })
        },
{
}

/// A read by route is the read of the path behind the prefix, under the cap; a route
/// that is none is refused with its error.
pub proof fn law_routes_are_read_by_their_paths(
    root: Seq<char>,
    max: usize,
    rel: Seq<char>,
    e: ErrorView,
)
    ensures
        storage::route_begun(root, max, Err(e)) == Err::<StoreView, ErrorView>(e),
        paths::content_path_error(rel) is None ==> storage::route_begun(root, max, Ok(rel)) == Ok::<
            StoreView,
            ErrorView,
        >(store_task::started(OpView::Read(max), root, rel)),
{
}

/// Content directories are those under the base, with a slash between, and the caps
/// are half a megabyte for a page and four megabytes for a file.
pub proof fn law_roots_are_under_the_base(base: Seq<char>)
    requires
        base.len() > 0,
        base.last() != '/',
    ensures
        storage::roots_under(base).pages_dir == base + "/pages"@,
        storage::roots_under(base).files_dir == base + "/files"@,
        storage::roots_under(base).max_page_bytes == 524_288,
        storage::roots_under(base).max_file_bytes == 4_194_304,
{
    reveal_strlit("pages");
    reveal_strlit("files");
    reveal_strlit("/pages");
    reveal_strlit("/files");
    components::law_joining_puts_a_slash_between(base, "pages"@);
    components::law_joining_puts_a_slash_between(base, "files"@);
    assert(base + seq!['/'] + "pages"@ =~= base + "/pages"@);
    assert(base + seq!['/'] + "files"@ =~= base + "/files"@);
}

/// What is stored reads back: where a write was begun under a cap and has succeeded,
/// a read under the same cap is begun and gives back all of the content and nothing
/// else.
pub proof fn law_stored_content_reads_back(
    d: Disk,
    faults: Faults,
    root: Seq<char>,
    max: usize,
    rel: Seq<char>,
    content: Seq<u8>,
    write: StoreView,
)
    requires
        disk::is_disk(d),
        store_laws::names_of(rel).len() <= usize::MAX,
        store_laws::links_above_are_told(d, faults, root, rel),
        !disk::is_link(d.nodes, store_laws::temp_place(d, root, rel)),
        storage::write_begun(root, max, rel, content) == Ok::<StoreView, ErrorView>(write),
        disk::run(d, faults, write).1 is Ok,
    ensures
        storage::begun(OpView::Read(max), root, rel) matches Ok(read) && disk::run(
            disk::run(d, faults, write).0,
            disk::no_faults(),
            read,
        ) == (disk::run(d, faults, write).0, Ok::<OutputView, ErrorView>(OutputView::Body(content))),
{
    store_laws::law_read_gives_back_what_was_written(d, faults, root, rel, content, max);
}

/// Is there no symbolic link on the way down to the content, its root and itself
/// included?
pub open spec fn is_clear(d: Disk, root: Seq<char>, rel: Seq<char>) -> bool {
    &&& !disk::is_link(d.nodes, (d.canon)(components::without_trailing(root)))
    &&& forall|i: nat|
        i <= store_laws::names_of(rel).len() ==> !disk::is_link(
            d.nodes,
            #[trigger] resolve_laws::descended((d.canon)(root), store_laws::names_of(rel), i),
        )
}

proof fn lemma_clear_walk(
    d: Disk,
    root: Seq<char>,
    rel: Seq<char>,
    base: Seq<char>,
    k: nat,
)
    requires
        disk::is_disk(d),
        paths::content_path_error(rel) is None,
        is_clear(d, root, rel),
        (d.canon)(base) == (d.canon)(root),
        k <= store_laws::names_of(rel).len(),
    ensures
        resolve_laws::obstacle(
            disk::snapshot(d, disk::no_faults()),
            base,
            store_laws::names_of(rel),
            k,
        ) is None,
    decreases store_laws::names_of(rel).len() - k,
{
    let names = store_laws::names_of(rel);
    store_laws::lemma_names(rel);
    if k < names.len() {
        assert(route_laws::is_plain(names[k as int]));
        store_laws::lemma_canon_of_descended(d, base, names, k + 1);
        let below = resolve_laws::descended(base, names, k + 1);
        assert(!disk::is_link(d.nodes, resolve_laws::descended((d.canon)(root), names, k + 1)));
        assert(resolve_laws::presence(disk::snapshot(d, disk::no_faults()), below) is Ok);
        lemma_clear_walk(d, root, rel, base, k + 1);
    }
}

/// A path on a clear way resolves, whatever is missing on it.
proof fn lemma_clear_paths_resolve(d: Disk, root: Seq<char>, rel: Seq<char>)
    requires
        disk::is_disk(d),
        paths::content_path_error(rel) is None,
        is_clear(d, root, rel),
    ensures
        resolve_laws::resolved(disk::snapshot(d, disk::no_faults()), root, rel) is Ok,
{
    let fs = disk::snapshot(d, disk::no_faults());
    let names = store_laws::names_of(rel);
    let n = names.len();
    let c = (d.canon)(root);
    store_laws::lemma_names(rel);
    assert(!disk::is_link(d.nodes, resolve_laws::descended(c, names, 0)));
    assert(resolve_laws::descended(c, names, 0) == c);
    let base = resolve_laws::real_root(fs, root)->Ok_0;
    assert(resolve_laws::real_root(fs, root) is Ok);
    assert(base == if d.nodes.dom().contains(c) {
        c
    } else {
        root
    });
    lemma_clear_walk(d, root, rel, base, 0);
    store_laws::lemma_canon_of_descended(d, base, names, n);
    store_laws::lemma_canon_of_descended(d, base, names, (n - 1) as nat);
    let cur = resolve_laws::descended(base, names, n);
    let place = resolve_laws::descended(c, names, n);
    let folder = resolve_laws::descended(c, names, (n - 1) as nat);
    assert(!disk::is_link(d.nodes, place) && !disk::is_link(d.nodes, folder));
    if d.nodes.dom().contains(place) {
        store_laws::lemma_directories_above(d, d.nodes, root, names, n, 0);
        resolve_laws::lemma_descended_stays_under(c, names, n);
        assert(resolve_laws::concluded(fs, base, cur) is Ok);
    } else {
        let above = resolve_laws::descended(base, names, (n - 1) as nat);
        assert(route_laws::is_plain(names[n - 1]));
        components::lemma_parent_of_join(above, resolve_laws::name_of(names[n - 1]));
        let plain = components::without_trailing(above);
        assert((d.canon)(plain) == folder) by {
            if n > 1 {
                assert(route_laws::is_plain(names[n - 2]));
                components::lemma_end_of_join(
                    resolve_laws::descended(base, names, (n - 2) as nat),
                    resolve_laws::name_of(names[n - 2]),
                );
            }
        }
        if d.nodes.dom().contains(folder) {
            if n > 1 {
                store_laws::lemma_directories_above(d, d.nodes, root, names, (n - 1) as nat, 0);
            }
            assert(base == c);
            resolve_laws::lemma_descended_stays_under(c, names, (n - 1) as nat);
        }
        assert(resolve_laws::concluded(fs, base, cur) is Ok);
    }
}

/// A task on a clear way goes on from a path that is spelled as the content's place.
proof fn lemma_clear_start(d: Disk, op: OpView, root: Seq<char>, rel: Seq<char>) -> (r: (
    Seq<char>,
    Seq<char>,
))
    requires
        disk::is_disk(d),
        store_laws::is_request(rel),
        is_clear(d, root, rel),
    ensures
        disk::run(d, disk::no_faults(), store_task::started(op, root, rel)) == disk::run_from(
            d,
            disk::no_faults(),
            store_task::after_resolution(store_task::started(op, root, rel), r.0),
        ),
        r.0 == components::join(r.1, store_laws::last_name(rel)),
        (d.canon)(r.0) == store_laws::place(d, root, rel),
        store_laws::is_directory_path(d, r.1, store_laws::folder(d, root, rel)),
        components::parent(r.0) is Some,
        !disk::is_link(d.nodes, (d.canon)(components::without_trailing(r.1))),
        !disk::is_link(d.nodes, store_laws::folder(d, root, rel)),
        !disk::is_link(d.nodes, store_laws::place(d, root, rel)),
{
    let faults = disk::no_faults();
    lemma_clear_paths_resolve(d, root, rel);
    let path = resolve_laws::resolved(disk::snapshot(d, faults), root, rel)->Ok_0;
    store_laws::lemma_run_start(d, faults, op, root, rel);
    let dir = store_laws::lemma_resolved_place(d, faults, root, rel, path);
    store_laws::lemma_names(rel);
    components::lemma_parent_of_join(dir, store_laws::last_name(rel));
    (path, dir)
}

/// The part of a run that writes, where nothing is in its way.
proof fn lemma_run_write_succeeds(
    d: Disk,
    s: StoreView,
    root: Seq<char>,
    rel: Seq<char>,
    path: Seq<char>,
    dir: Seq<char>,
)
    requires
        disk::is_disk(d),
        paths::content_path_error(rel) is None,
        s.phase == PhaseView::MakeParent(path),
        path == components::join(dir, store_laws::last_name(rel)),
        store_laws::is_directory_path(d, dir, store_laws::folder(d, root, rel)),
        !disk::is_link(d.nodes, (d.canon)(components::without_trailing(dir))),
        !disk::is_link(d.nodes, store_laws::folder(d, root, rel)),
        !disk::blocked(d.nodes, store_laws::folder(d, root, rel)),
        !disk::is_directory(d.nodes, store_laws::place(d, root, rel)),
        is_free(d, store_laws::temp_place(d, root, rel)),
    ensures
        disk::run(d, disk::no_faults(), s) == (
            Disk {
                nodes: store_laws::written(d, root, rel, store_task::content_of(s.op)),
                ..d
            },
            Ok::<OutputView, ErrorView>(OutputView::Unit),
        ),
{
    let faults = disk::no_faults();
    let name = store_laws::last_name(rel);
    let folder = store_laws::folder(d, root, rel);
    let place = store_laws::place(d, root, rel);
    let temp = store_laws::temp_place(d, root, rel);
    let tname = store_laws::temp_name(name, d.clock as nat);
    store_laws::lemma_names(rel);
    store_laws::lemma_temp_name(name, d.clock as nat);
    store_laws::lemma_temp_is_elsewhere(d, root, rel);
    components::lemma_parent_of_join(dir, name);
    components::lemma_parent_of_join(folder, name);
    components::lemma_parent_of_join(folder, tname);
    let plain = components::without_trailing(dir);
    let tmp = components::join(plain, tname);
    assert((d.canon)(components::join(dir, tname)) == temp);
    assert((d.canon)(tmp) == temp);
    assert((d.canon)(path) == place);
    assert(components::without_trailing(folder) == folder);
    assert(place.len() > folder.len() && temp.len() > folder.len());
    disk::lemma_run_step(d, faults, s);
    let d1 = disk::changed(d, faults, store_task::request_of(s));
    disk::lemma_made(d.nodes, folder);
    assert(d1.nodes == disk::made(d.nodes, folder));
    let s2 = StoreView { phase: PhaseView::Clock(path), ..s };
    disk::lemma_run_step(d1, faults, s2);
    assert(tmp == store_task::temp_path(path, name, d.clock as nat));
    let s3 = StoreView { phase: PhaseView::WriteTemp(path, tmp), ..s };
    disk::lemma_run_step(d1, faults, s3);
    assert(is_free(d1, temp));
    assert(!disk::is_directory(d1.nodes, place));
    let d3 = disk::changed(d1, faults, store_task::request_of(s3));
    let s4 = StoreView { phase: PhaseView::Swap(path, tmp), ..s };
    disk::lemma_run_step(d3, faults, s4);
    let d4 = disk::changed(d3, faults, store_task::request_of(s4));
    assert(d4.nodes =~= store_laws::written(d, root, rel, store_task::content_of(s.op)));
}

/// Does nothing stand at the canonical path, or a file?
pub open spec fn is_free(d: Disk, p: Seq<char>) -> bool {
    d.nodes.dom().contains(p) ==> d.nodes[p] is File
}

/// Can the content be written: on a clear way, with no other thing than directories
/// above it, no directory in its place, and the temporary name free?
pub open spec fn is_writable(d: Disk, root: Seq<char>, rel: Seq<char>) -> bool {
    &&& is_clear(d, root, rel)
    &&& !disk::blocked(d.nodes, store_laws::folder(d, root, rel))
    &&& !disk::is_directory(d.nodes, store_laws::place(d, root, rel))
    &&& is_free(d, store_laws::temp_place(d, root, rel))
}

/// Writing makes what directories are missing and succeeds: all of the content is then
/// in its place, whatever file stood there, and no temporary file is left.
pub proof fn law_writing_makes_directories(
    d: Disk,
    root: Seq<char>,
    rel: Seq<char>,
    content: Seq<u8>,
)
    requires
        disk::is_disk(d),
        store_laws::is_request(rel),
        is_writable(d, root, rel),
    ensures
        ({
            let (after, r) = disk::run(
                d,
                disk::no_faults(),
                store_task::started(OpView::Write(content), root, rel),
            );
            let place = store_laws::place(d, root, rel);
            let temp = store_laws::temp_place(d, root, rel);
            &&& r == Ok::<OutputView, ErrorView>(OutputView::Unit)
            &&& after.nodes.dom().contains(place) && after.nodes[place] == Node::File(content)
            &&& disk::is_directory(after.nodes, store_laws::folder(d, root, rel))
            &&& !after.nodes.dom().contains(temp)
            &&& forall|p: Seq<char>| #[trigger]
                d.nodes.dom().contains(p) && p != place && p != temp ==> after.nodes.dom().contains(p)
                    && after.nodes[p] == d.nodes[p]
        }),
{
    let op = OpView::Write(content);
    let s = store_task::started(op, root, rel);
    let (path, dir) = lemma_clear_start(d, op, root, rel);
    let s1 = StoreView { phase: PhaseView::MakeParent(path), ..s };
    lemma_run_write_succeeds(d, s1, root, rel, path, dir);
    disk::lemma_made(d.nodes, store_laws::folder(d, root, rel));
    store_laws::lemma_names(rel);
    store_laws::lemma_temp_is_elsewhere(d, root, rel);
    store_laws::lemma_temp_name(store_laws::last_name(rel), d.clock as nat);
}

/// What is written only if missing is written where nothing is.
pub proof fn law_missing_content_is_written(
    d: Disk,
    root: Seq<char>,
    rel: Seq<char>,
    content: Seq<u8>,
)
    requires
        disk::is_disk(d),
        store_laws::is_request(rel),
        is_writable(d, root, rel),
        !d.nodes.dom().contains(store_laws::place(d, root, rel)),
    ensures
        ({
            let (after, r) = disk::run(
                d,
                disk::no_faults(),
                store_task::started(OpView::WriteIfMissing(content), root, rel),
            );
            let place = store_laws::place(d, root, rel);
            &&& r == Ok::<OutputView, ErrorView>(OutputView::Unit)
            &&& after.nodes.dom().contains(place) && after.nodes[place] == Node::File(content)
        }),
{
    let op = OpView::WriteIfMissing(content);
    let s = store_task::started(op, root, rel);
    let (path, dir) = lemma_clear_start(d, op, root, rel);
    let s0 = StoreView { phase: PhaseView::Check(path), ..s };
    disk::lemma_run_step(d, disk::no_faults(), s0);
    let s1 = StoreView { phase: PhaseView::MakeParent(path), ..s };
    lemma_run_write_succeeds(d, s1, root, rel, path, dir);
}

/// What is written only if missing leaves alone what is there, be it content or a
/// directory.
pub proof fn law_present_content_is_left_alone(
    d: Disk,
    root: Seq<char>,
    rel: Seq<char>,
    content: Seq<u8>,
)
    requires
        disk::is_disk(d),
        store_laws::is_request(rel),
        is_clear(d, root, rel),
        d.nodes.dom().contains(store_laws::place(d, root, rel)),
    ensures
        disk::run(
            d,
            disk::no_faults(),
            store_task::started(OpView::WriteIfMissing(content), root, rel),
        ) == (d, Ok::<OutputView, ErrorView>(OutputView::Unit)),
{
    let op = OpView::WriteIfMissing(content);
    let s = store_task::started(op, root, rel);
    let (path, dir) = lemma_clear_start(d, op, root, rel);
    let s0 = StoreView { phase: PhaseView::Check(path), ..s };
    disk::lemma_run_step(d, disk::no_faults(), s0);
}

/// Deleting a file that is there succeeds, and removes it and nothing else.
pub proof fn law_deleting_succeeds(d: Disk, root: Seq<char>, rel: Seq<char>)
    requires
        disk::is_disk(d),
        store_laws::is_request(rel),
        is_clear(d, root, rel),
        d.nodes.dom().contains(store_laws::place(d, root, rel)),
        d.nodes[store_laws::place(d, root, rel)] is File,
    ensures
        disk::run(d, disk::no_faults(), store_task::started(OpView::Delete, root, rel)) == (
            Disk { nodes: d.nodes.remove(store_laws::place(d, root, rel)), ..d },
            Ok::<OutputView, ErrorView>(OutputView::Unit),
        ),
{
    let s = store_task::started(OpView::Delete, root, rel);
    let (path, dir) = lemma_clear_start(d, OpView::Delete, root, rel);
    let s0 = StoreView { phase: PhaseView::Check(path), ..s };
    disk::lemma_run_step(d, disk::no_faults(), s0);
    let s1 = StoreView { phase: PhaseView::Remove(path), ..s };
    disk::lemma_run_step(d, disk::no_faults(), s1);
}

/// What is not there, its directories included, or is no file, is not found, be it to
/// read or to delete; and nothing changes.
pub proof fn law_only_files_are_found(d: Disk, root: Seq<char>, rel: Seq<char>, op: OpView)
    requires
        disk::is_disk(d),
        store_laws::is_request(rel),
        is_clear(d, root, rel),
        op is Read || op is Delete,
        d.nodes.dom().contains(store_laws::place(d, root, rel)) ==> !(d.nodes[store_laws::place(
            d,
            root,
            rel,
        )] is File),
    ensures
        disk::run(d, disk::no_faults(), store_task::started(op, root, rel)) == (
            d,
            Err::<OutputView, ErrorView>(ErrorView::NotFound(rel)),
        ),
{
    let s = store_task::started(op, root, rel);
    let (path, dir) = lemma_clear_start(d, op, root, rel);
    let s0 = StoreView { phase: PhaseView::Check(path), ..s };
    disk::lemma_run_step(d, disk::no_faults(), s0);
}

/// A read that succeeds, whatever fails, gives all of the file in the content's place
/// and nothing else; so it is no longer than the cap.
pub proof fn law_reads_give_only_what_is_there(
    d: Disk,
    faults: Faults,
    root: Seq<char>,
    rel: Seq<char>,
    max: usize,
    r: OutputView,
)
    requires
        disk::is_disk(d),
        store_laws::is_request(rel),
        store_laws::links_above_are_told(d, faults, root, rel),
        disk::run(d, faults, store_task::started(OpView::Read(max), root, rel)).1 == Ok::<
            OutputView,
            ErrorView,
        >(r),
    ensures
        ({
            let place = store_laws::place(d, root, rel);
            &&& d.nodes.dom().contains(place)
            &&& d.nodes[place] matches Node::File(content) && (content.len() <= u64::MAX ==> r
                == OutputView::Body(content) && content.len() <= max)
        }),
{
    let op = OpView::Read(max);
    let s = store_task::started(op, root, rel);
    store_laws::lemma_run_start(d, faults, op, root, rel);
    let path = resolve_laws::resolved(disk::snapshot(d, faults), root, rel)->Ok_0;
    let dir = store_laws::lemma_resolved_place(d, faults, root, rel, path);
    let s1 = StoreView { phase: PhaseView::Check(path), ..s };
    disk::lemma_run_step(d, faults, s1);
    let s2 = StoreView { phase: PhaseView::Measure(path), ..s };
    disk::lemma_run_step(d, faults, s2);
    let s3 = StoreView { phase: PhaseView::Body(path), ..s };
    disk::lemma_run_step(d, faults, s3);
}

/// A failure of the file system is told as it is, in whatever step it comes. Only that
/// nothing is in the content's place is told as such; and where the finished content
/// cannot be put in place, that is told whatever becomes of the temporary file.
pub proof fn law_failures_are_told(
    s: StoreView,
    e: IoFailureView,
    path: Seq<char>,
    tmp: Seq<char>,
    reply: ReplyView,
)
    ensures
        ({
            let told = StoreStepView::Done(Err::<OutputView, ErrorView>(ErrorView::Io(e)));
            let failed = ReplyView::Failed(e);
            &&& e.kind != IoKind::NotFound ==> store_task::next(
                StoreView { phase: PhaseView::Check(path), ..s },
                failed,
            ) == told
            &&& e.kind == IoKind::NotFound && (s.op is Read || s.op is Delete) ==> store_task::next(
                StoreView { phase: PhaseView::Check(path), ..s },
                failed,
            ) == StoreStepView::Done(Err(ErrorView::NotFound(s.rel)))
            &&& store_task::next(StoreView { phase: PhaseView::Measure(path), ..s }, failed) == told
            &&& store_task::next(StoreView { phase: PhaseView::Body(path), ..s }, failed) == told
            &&& store_task::next(StoreView { phase: PhaseView::Remove(path), ..s }, failed) == told
            &&& store_task::next(StoreView { phase: PhaseView::MakeParent(path), ..s }, failed) == told
            &&& store_task::next(
                StoreView { phase: PhaseView::WriteTemp(path, tmp), ..s },
                failed,
            ) == told
            &&& store_task::next(StoreView { phase: PhaseView::Swap(path, tmp), ..s }, failed)
                == StoreStepView::Ask(StoreView { phase: PhaseView::Cleanup(tmp, e), ..s })
            &&& store_task::next(StoreView { phase: PhaseView::Cleanup(tmp, e), ..s }, reply) == told
        }),
{
}

/// The first directory that cannot be created ends the opening of a store, with the
/// failure; the second is asked for only once the first is there.
pub proof fn law_failures_to_open_are_told(roots: RootsView, e: IoFailureView)
    ensures
        ({
            let first = storage::open_started(roots);
            let failed = ReplyView::Failed(e);
            let told = OpenStepView::Done(Err::<RootsView, ErrorView>(ErrorView::Io(e)));
            &&& storage::dirs_request(first.dirs) == RequestView::MakeDirs(roots.pages_dir)
            &&& storage::open_next(first, failed) == told
            &&& storage::open_next(first, ReplyView::Done) matches OpenStepView::Ask(second) && {
                &&& storage::dirs_request(second.dirs) == RequestView::MakeDirs(roots.files_dir)
                &&& storage::open_next(second, failed) == told
                &&& storage::open_next(second, ReplyView::Done) == OpenStepView::Done(
                    Ok::<RootsView, ErrorView>(roots),
                )
            }
        }),
{
}

} // verus!
