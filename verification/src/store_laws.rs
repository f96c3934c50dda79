//! What holds of every operation on the content store, carried out to its end.

use vstd::prelude::*;

use crate::components;
use crate::components::ComponentView;
use crate::decimal;
use crate::disk;
use crate::disk::Disk;
use crate::disk::Faults;
use crate::disk::Node;
use crate::error::ErrorView;
use crate::fs;
use crate::fs::ReplyView;
use crate::fs::RequestView;
use crate::paths;
use crate::resolve;
use crate::resolve::ResolveStepView;
use crate::resolve::ResolveView;
use crate::resolve_laws;
use crate::route_laws;
use crate::storage;
use crate::storage::OpenStepView;
use crate::storage::RootsView;
use crate::store_task;
use crate::store_task::OpView;
use crate::store_task::OutputView;
use crate::store_task::PhaseView;
use crate::store_task::StoreStepView;
use crate::store_task::StoreView;
use crate::text;

verus! {

/// The names that lead from the content root to the content.
pub open spec fn names_of(rel: Seq<char>) -> Seq<ComponentView> {
    components::components(text::without_leading_slashes(rel))
}

/// The canonical path of the content `rel` under `root`.
pub open spec fn place(d: Disk, root: Seq<char>, rel: Seq<char>) -> Seq<char> {
    resolve_laws::descended((d.canon)(root), names_of(rel), names_of(rel).len())
}

/// The canonical path of the directory that the content is in.
pub open spec fn folder(d: Disk, root: Seq<char>, rel: Seq<char>) -> Seq<char> {
    resolve_laws::descended((d.canon)(root), names_of(rel), (names_of(rel).len() - 1) as nat)
}

/// The name of the content in its directory.
pub open spec fn last_name(rel: Seq<char>) -> Seq<char> {
    resolve_laws::name_of(names_of(rel).last())
}

/// The name of the temporary file that content is first written to.
pub open spec fn temp_name(name: Seq<char>, nanos: nat) -> Seq<char> {
    "."@ + name + "."@ + decimal::decimal(nanos) + ".tmp"@
}

/// A task on the content `rel` under `root` that can be carried out: the path is
/// accepted, and its components can be counted.
pub open spec fn is_request(rel: Seq<char>) -> bool {
    paths::content_path_error(rel) is None && names_of(rel).len() <= usize::MAX
}

pub proof fn lemma_names(rel: Seq<char>)
    requires
        paths::content_path_error(rel) is None,
    ensures
        names_of(rel).len() > 0,
        forall|i: int|
            0 <= i < names_of(rel).len() ==> route_laws::is_plain(#[trigger] names_of(rel)[i]),
        components::is_plain_name(last_name(rel)),
{
    route_laws::law_accepted_paths_are_walked_by_plain_names(rel);
    let w = text::without_leading_slashes(rel);
    let n = text::lemma_without_leading_slashes(rel);
    if w.len() == 0 {
        text::lemma_trimmed_unchanged(rel);
    }
    components::lemma_first_slash(w);
    assert(names_of(rel).len() > 0);
    assert(route_laws::is_plain(names_of(rel)[names_of(rel).len() - 1]));
}

/// Is each path on the way down from the canonical root to the content its own
/// spelling?
pub open spec fn is_straight(d: Disk, root: Seq<char>, rel: Seq<char>) -> bool {
    forall|k: nat|
        k <= names_of(rel).len() ==> (d.canon)(
            #[trigger] resolve_laws::descended((d.canon)(root), names_of(rel), k),
        ) == resolve_laws::descended((d.canon)(root), names_of(rel), k)
}

/// A tree of nodes in which the way down to the content is straight.
pub open spec fn is_laid_out(d: Disk, root: Seq<char>, rel: Seq<char>) -> bool {
    disk::is_spelling(d.canon) && disk::is_tree(d.nodes) && is_straight(d, root, rel)
}

/// Walking down by plain names past no symbolic link, the canonical path is
/// walked down the same way.
pub proof fn lemma_canon_of_descended(
    d: Disk,
    base: Seq<char>,
    names: Seq<ComponentView>,
    k: nat,
)
    requires
        disk::is_disk(d),
        k <= names.len(),
        forall|i: int| 0 <= i < names.len() ==> route_laws::is_plain(#[trigger] names[i]),
        forall|i: nat|
            i < k ==> !disk::is_link(
                d.nodes,
                #[trigger] resolve_laws::descended((d.canon)(base), names, i),
            ),
    ensures
        (d.canon)(resolve_laws::descended(base, names, k)) == resolve_laws::descended(
            (d.canon)(base),
            names,
            k,
        ),
    decreases k,
{
    if k > 0 {
        let above = (k - 1) as nat;
        lemma_canon_of_descended(d, base, names, above);
        assert(route_laws::is_plain(names[k - 1]));
        assert(!disk::is_link(d.nodes, resolve_laws::descended((d.canon)(base), names, above)));
    }
}

/// A way down on which no symbolic link stands above the content is straight.
pub proof fn lemma_straight(d: Disk, root: Seq<char>, rel: Seq<char>)
    requires
        disk::is_disk(d),
        paths::content_path_error(rel) is None,
        forall|i: nat|
            i < names_of(rel).len() ==> !disk::is_link(
                d.nodes,
                #[trigger] resolve_laws::descended((d.canon)(root), names_of(rel), i),
            ),
    ensures
        is_straight(d, root, rel),
{
    let names = names_of(rel);
    let c = (d.canon)(root);
    lemma_names(rel);
    assert forall|k: nat| k <= names.len() implies (d.canon)(
        #[trigger] resolve_laws::descended(c, names, k),
    ) == resolve_laws::descended(c, names, k) by {
        lemma_canon_of_descended(d, c, names, k);
    }
}

/// The directory above the last step down.
proof fn lemma_folder(d: Disk, base: Seq<char>, names: Seq<ComponentView>, k: nat)
    requires
        disk::is_spelling(d.canon),
        0 < k <= names.len(),
        forall|i: int| 0 <= i < names.len() ==> route_laws::is_plain(#[trigger] names[i]),
    ensures
        ({
            let c = (d.canon)(base);
            let below = resolve_laws::descended(c, names, k);
            let above = resolve_laws::descended(c, names, (k - 1) as nat);
            &&& components::parent(below) == Some(above)
            &&& below.len() > above.len()
        }),
{
    let c = (d.canon)(base);
    let above = resolve_laws::descended(c, names, (k - 1) as nat);
    assert(route_laws::is_plain(names[k - 1]));
    components::lemma_parent_of_join(above, resolve_laws::name_of(names[k - 1]));
    assert(components::without_trailing(above) == above) by {
        if k > 1 {
            assert(route_laws::is_plain(names[k - 2]));
            components::lemma_end_of_join(
                resolve_laws::descended(c, names, (k - 2) as nat),
                resolve_laws::name_of(names[k - 2]),
            );
        }
    }
}

/// Where there is something, everything above it is a directory.
pub proof fn lemma_directories_above(
    d: Disk,
    nodes: Map<Seq<char>, Node>,
    base: Seq<char>,
    names: Seq<ComponentView>,
    k: nat,
    j: nat,
)
    requires
        disk::is_spelling(d.canon),
        disk::is_tree(nodes),
        j < k <= names.len(),
        forall|i: int| 0 <= i < names.len() ==> route_laws::is_plain(#[trigger] names[i]),
        nodes.dom().contains(resolve_laws::descended((d.canon)(base), names, k)),
    ensures
        disk::is_directory(nodes, resolve_laws::descended((d.canon)(base), names, j)),
    decreases k,
{
    let above = resolve_laws::descended((d.canon)(base), names, (k - 1) as nat);
    lemma_folder(d, base, names, k);
    assert(disk::is_directory(nodes, above));
    if j < k - 1 {
        lemma_directories_above(d, nodes, base, names, (k - 1) as nat, j);
    }
}

/// The part of a run that resolves the path.
proof fn lemma_run_resolution(d: Disk, faults: Faults, s: StoreView, t: ResolveView)
    requires
        s.phase == PhaseView::Resolve(t),
        store_task::is_well_formed(s),
    ensures
        disk::run(d, faults, s) == match resolve_laws::run(disk::snapshot(d, faults), t) {
            Err(e) => (d, Err(e)),
            Ok(path) => disk::run_from(d, faults, store_task::after_resolution(s, path)),
        },
    decreases resolve::remaining(t),
{
    let fs = disk::snapshot(d, faults);
    let request = resolve::request_of(t);
    disk::lemma_run_step(d, faults, s);
    resolve::lemma_resolution_ends(t, fs(request));
    assert(disk::changed(d, faults, request) == d) by {
        disk::lemma_answers_fit(d, faults);
        assert(fs::answers(fs(request), request));
    }
    match resolve::next(t, fs(request)) {
        ResolveStepView::Ask(u) => {
            lemma_run_resolution(d, faults, StoreView { phase: PhaseView::Resolve(u), ..s }, u);
        },
        ResolveStepView::Done(_) => {},
    }
}

/// A run from the start of a task: either the path does not resolve, or the task
/// goes on from what it resolves to.
pub proof fn lemma_run_start(d: Disk, faults: Faults, op: OpView, root: Seq<char>, rel: Seq<char>)
    requires
        names_of(rel).len() <= usize::MAX,
    ensures
        disk::run(d, faults, store_task::started(op, root, rel)) == match resolve_laws::resolved(
            disk::snapshot(d, faults),
            root,
            rel,
        ) {
            Err(e) => (d, Err(e)),
            Ok(path) => disk::run_from(
                d,
                faults,
                store_task::after_resolution(store_task::started(op, root, rel), path),
            ),
        },
{
    disk::lemma_answers_fit(d, faults);
    lemma_run_resolution(
        d,
        faults,
        store_task::started(op, root, rel),
        resolve::started(root, rel),
    );
    resolve_laws::law_resolution_is_exact(disk::snapshot(d, faults), root, rel);
}

/// Does the file system tell of the path that it is a symbolic link, if it is one?
pub open spec fn is_told(d: Disk, faults: Faults, p: Seq<char>) -> bool {
    disk::is_link(d.nodes, (d.canon)(p)) ==> !faults(RequestView::Stat(p))
}

/// Does the file system tell of each symbolic link among the root and the first
/// `k` steps down from it that it is one? A link that cannot be looked at counts
/// as missing, and what is below it is then not where it seems to be.
pub open spec fn links_are_told(
    d: Disk,
    faults: Faults,
    root: Seq<char>,
    rel: Seq<char>,
    k: nat,
) -> bool {
    forall|j: nat|
        j <= k ==> is_told(d, faults, #[trigger] resolve_laws::descended(root, names_of(rel), j))
            && is_told(
            d,
            faults,
            resolve_laws::descended((d.canon)(root), names_of(rel), j),
        )
}

/// Does the file system tell of each symbolic link above the content, the root
/// among them?
pub open spec fn links_above_are_told(
    d: Disk,
    faults: Faults,
    root: Seq<char>,
    rel: Seq<char>,
) -> bool {
    links_are_told(d, faults, root, rel, (names_of(rel).len() - 1) as nat)
}

/// What was walked through is no symbolic link.
proof fn lemma_way_is_clear(
    d: Disk,
    faults: Faults,
    root: Seq<char>,
    rel: Seq<char>,
    base: Seq<char>,
    k: nat,
)
    requires
        disk::is_disk(d),
        paths::content_path_error(rel) is None,
        k <= names_of(rel).len(),
        links_are_told(d, faults, root, rel, k),
        resolve_laws::real_root(disk::snapshot(d, faults), root) == Ok::<Seq<char>, ErrorView>(
            base,
        ),
        resolve_laws::obstacle(disk::snapshot(d, faults), base, names_of(rel), 0) is None,
    ensures
        (d.canon)(base) == (d.canon)(root),
        forall|i: nat|
            i <= k ==> !disk::is_link(
                d.nodes,
                #[trigger] resolve_laws::descended((d.canon)(root), names_of(rel), i),
            ),
    decreases k,
{
    let fs = disk::snapshot(d, faults);
    let names = names_of(rel);
    let c = (d.canon)(root);
    lemma_names(rel);
    assert(base == root || base == c);
    if k > 0 {
        lemma_way_is_clear(d, faults, root, rel, base, (k - 1) as nat);
        resolve_laws::lemma_no_obstacle(fs, base, names, 0, k);
    }
    lemma_canon_of_descended(d, base, names, k);
    let p = resolve_laws::descended(base, names, k);
    assert(is_told(d, faults, resolve_laws::descended(root, names, k)));
    assert(is_told(d, faults, p));
    if disk::is_link(d.nodes, (d.canon)(p)) {
        assert(resolve_laws::presence(fs, p) is Err);
    }
}

/// Is `dir`, whatever counts for nothing at its end, spelled as `folder`, unless a
/// symbolic link stands there?
pub open spec fn is_directory_path(d: Disk, dir: Seq<char>, folder: Seq<char>) -> bool {
    let plain = (d.canon)(components::without_trailing(dir));
    (d.canon)(dir) == folder && (plain == folder || disk::is_link(d.nodes, plain))
}

/// What is handed out for an accepted path: the last name in a directory whose
/// canonical path is that of the content's directory.
pub proof fn lemma_resolved_place(
    d: Disk,
    faults: Faults,
    root: Seq<char>,
    rel: Seq<char>,
    path: Seq<char>,
) -> (dir: Seq<char>)
    requires
        disk::is_disk(d),
        paths::content_path_error(rel) is None,
        links_above_are_told(d, faults, root, rel),
        resolve_laws::resolved(disk::snapshot(d, faults), root, rel) == Ok::<Seq<char>, ErrorView>(
            path,
        ),
    ensures
        is_straight(d, root, rel),
        path == components::join(dir, last_name(rel)),
        (d.canon)(path) == place(d, root, rel),
        place(d, root, rel) == components::join(folder(d, root, rel), last_name(rel)),
        !disk::is_link(d.nodes, folder(d, root, rel)),
        is_directory_path(d, dir, folder(d, root, rel)),
        dir == root || (d.canon)(components::without_trailing(dir)) == folder(d, root, rel),
        links_are_told(d, faults, root, rel, names_of(rel).len()) ==> !disk::is_link(
            d.nodes,
            place(d, root, rel),
        ),
{
    let fs = disk::snapshot(d, faults);
    let names = names_of(rel);
    let n = names.len();
    lemma_names(rel);
    let base = resolve_laws::real_root(fs, root)->Ok_0;
    lemma_way_is_clear(d, faults, root, rel, base, (n - 1) as nat);
    if links_are_told(d, faults, root, rel, n) {
        lemma_way_is_clear(d, faults, root, rel, base, n);
    }
    lemma_straight(d, root, rel);
    lemma_canon_of_descended(d, base, names, n);
    lemma_canon_of_descended(d, base, names, (n - 1) as nat);
    let above = resolve_laws::descended(base, names, (n - 1) as nat);
    let cur = resolve_laws::descended(base, names, n);
    resolve_laws::lemma_no_obstacle(fs, base, names, 0, n);
    if n > 1 {
        assert(route_laws::is_plain(names[n - 2]));
        components::lemma_end_of_join(
            resolve_laws::descended(base, names, (n - 2) as nat),
            resolve_laws::name_of(names[n - 2]),
        );
    }
    if resolve_laws::presence(fs, cur) == Ok::<bool, ErrorView>(true) {
        assert(path == (d.canon)(cur));
        (d.canon)(above)
    } else {
        assert(path == cur);
        above
    }
}

/// The temporary name is a plain name, and not the name itself.
pub proof fn lemma_temp_name(name: Seq<char>, nanos: nat)
    requires
        components::is_plain_name(name),
    ensures
        components::is_plain_name(temp_name(name, nanos)),
        temp_name(name, nanos).len() > name.len(),
{
    reveal_strlit(".");
    reveal_strlit(".tmp");
    decimal::lemma_decimal_digits(nanos);
    let t = temp_name(name, nanos);
    let digits = decimal::decimal(nanos);
    let a = "."@ + name + "."@;
    let b = a + digits;
    assert(t =~= b + ".tmp"@);
    assert(t.len() > 2);
    if t.contains('/') {
        let i = choose|i: int| 0 <= i < t.len() && t[i] == '/';
        if i < a.len() {
            assert(t[i] == a[i]);
            if 1 <= i && i < 1 + name.len() {
                assert(a[i] == name[i - 1]);
                assert(name.contains('/'));
            }
        } else if i < b.len() {
            assert(t[i] == digits[i - a.len()]);
        } else {
            assert(t[i] == ".tmp"@[i - b.len()]);
        }
    }
}

/// The nodes after a write that succeeded.
pub open spec fn written(
    d: Disk,
    root: Seq<char>,
    rel: Seq<char>,
    content: Seq<u8>,
) -> Map<Seq<char>, Node> {
    let dir = folder(d, root, rel);
    disk::made(d.nodes, dir).remove(temp_place(d, root, rel)).insert(
        place(d, root, rel),
        Node::File(content),
    )
}

/// The canonical path of the temporary file that content is first written to.
pub open spec fn temp_place(d: Disk, root: Seq<char>, rel: Seq<char>) -> Seq<char> {
    components::join(folder(d, root, rel), temp_name(last_name(rel), d.clock as nat))
}

/// Does everything that was there stand as it was, apart from what stood at
/// `spare`?
pub open spec fn is_kept(
    before: Map<Seq<char>, Node>,
    after: Map<Seq<char>, Node>,
    spare: Seq<char>,
) -> bool {
    forall|p: Seq<char>| #[trigger]
        before.dom().contains(p) && p != spare ==> after.dom().contains(p) && after[p] == before[p]
}

/// Does the removal of a file that is there never fail?
pub open spec fn removals_work(faults: Faults) -> bool {
    forall|p: Seq<char>| !#[trigger] faults(RequestView::Remove(p))
}

/// The part of a run that writes: `path` is what was resolved, the last name in
/// a directory `dir`.
proof fn lemma_run_write(
    d: Disk,
    faults: Faults,
    s: StoreView,
    root: Seq<char>,
    rel: Seq<char>,
    path: Seq<char>,
    dir: Seq<char>,
)
    requires
        disk::is_disk(d),
        paths::content_path_error(rel) is None,
        s.phase == PhaseView::MakeParent(path),
        path == components::join(dir, last_name(rel)),
        !disk::is_link(d.nodes, folder(d, root, rel)),
        !disk::is_link(d.nodes, temp_place(d, root, rel)),
        is_directory_path(d, dir, folder(d, root, rel)),
        place(d, root, rel) == components::join(folder(d, root, rel), last_name(rel)),
    ensures
        ({
            let (after, r) = disk::run(d, faults, s);
            &&& after.canon == d.canon && after.clock == d.clock
            &&& r is Ok ==> {
                &&& r == Ok::<OutputView, ErrorView>(OutputView::Unit)
                &&& after.nodes == written(d, root, rel, store_task::content_of(s.op))
                &&& !disk::blocked(d.nodes, folder(d, root, rel))
                &&& !disk::is_directory(
                    disk::made(d.nodes, folder(d, root, rel)),
                    temp_place(d, root, rel),
                )
                &&& !disk::is_directory(
                    disk::made(d.nodes, folder(d, root, rel)),
                    place(d, root, rel),
                )
            }
            &&& r is Err ==> {
                let place = place(d, root, rel);
                let temp = temp_place(d, root, rel);
                &&& is_kept(d.nodes, after.nodes, temp)
                &&& after.nodes.dom().contains(place) ==> d.nodes.dom().contains(place)
                &&& removals_work(faults) && after.nodes.dom().contains(temp)
                    ==> d.nodes.dom().contains(temp)
            }
        }),
{
    let name = last_name(rel);
    let folder = folder(d, root, rel);
    let place = place(d, root, rel);
    let tname = temp_name(name, d.clock as nat);
    lemma_names(rel);
    lemma_temp_name(name, d.clock as nat);
    components::lemma_parent_of_join(dir, name);
    let plain = components::without_trailing(dir);
    let tmp = components::join(plain, tname);
    assert(tmp == store_task::temp_path(path, name, d.clock as nat));
    assert((d.canon)(path) == place);
    assert((d.canon)(components::join(dir, tname)) == temp_place(d, root, rel));
    assert((d.canon)(tmp) == temp_place(d, root, rel));
    assert(temp_place(d, root, rel) != place);
    assert(place.len() > folder.len() && temp_place(d, root, rel).len() > folder.len());
    // Make the directory.
    disk::lemma_run_step(d, faults, s);
    let req1 = store_task::request_of(s);
    assert(req1 == RequestView::MakeDirs(plain));
    let d1 = disk::changed(d, faults, req1);
    if disk::answer(d, faults, req1) == ReplyView::Done {
        components::lemma_parent_of_join(folder, tname);
        if disk::is_link(d.nodes, (d.canon)(plain)) {
            assert(d1.nodes == d.nodes);
        } else {
            disk::lemma_made(d.nodes, folder);
            assert(d1.nodes == disk::made(d.nodes, folder));
        }
        // Ask for the time.
        let s2 = StoreView { phase: PhaseView::Clock(path), ..s };
        disk::lemma_run_step(d1, faults, s2);
        // Write the temporary file.
        let s3 = StoreView { phase: PhaseView::WriteTemp(path, tmp), ..s };
        disk::lemma_run_step(d1, faults, s3);
        let req3 = store_task::request_of(s3);
        let d3 = disk::changed(d1, faults, req3);
        if disk::answer(d1, faults, req3) == ReplyView::Done {
            // Put it in place.
            let s4 = StoreView { phase: PhaseView::Swap(path, tmp), ..s };
            disk::lemma_run_step(d3, faults, s4);
            let req4 = store_task::request_of(s4);
            let d4 = disk::changed(d3, faults, req4);
            if disk::answer(d3, faults, req4) == ReplyView::Done {
                assert(d4.nodes =~= written(d, root, rel, store_task::content_of(s.op)));
            } else {
                let e = disk::answer(d3, faults, req4)->Failed_0;
                let s5 = StoreView { phase: PhaseView::Cleanup(tmp, e), ..s };
                disk::lemma_run_step(d3, faults, s5);
            }
        }
    }
}

/// Are the content root and everything down to the content's directory
/// directories?
spec fn is_reachable(d: Disk, root: Seq<char>, rel: Seq<char>) -> bool {
    forall|j: nat|
        j < names_of(rel).len() ==> disk::is_directory(
            d.nodes,
            #[trigger] resolve_laws::descended((d.canon)(root), names_of(rel), j),
        )
}

/// Where the directories are all there, the way down is straight.
proof fn lemma_reachable_is_straight(d: Disk, root: Seq<char>, rel: Seq<char>)
    requires
        disk::is_disk(d),
        paths::content_path_error(rel) is None,
        is_reachable(d, root, rel),
    ensures
        is_straight(d, root, rel),
{
    assert forall|i: nat| i < names_of(rel).len() implies !disk::is_link(
        d.nodes,
        #[trigger] resolve_laws::descended((d.canon)(root), names_of(rel), i),
    ) by {
        assert(disk::is_directory(
            d.nodes,
            resolve_laws::descended((d.canon)(root), names_of(rel), i),
        ));
    }
    lemma_straight(d, root, rel);
}

proof fn lemma_reachable(d: Disk, root: Seq<char>, rel: Seq<char>)
    requires
        disk::is_spelling(d.canon),
        disk::is_tree(d.nodes),
        paths::content_path_error(rel) is None,
        d.nodes.dom().contains(place(d, root, rel)),
    ensures
        is_reachable(d, root, rel),
{
    lemma_names(rel);
    assert forall|j: nat| j < names_of(rel).len() implies disk::is_directory(
        d.nodes,
        #[trigger] resolve_laws::descended((d.canon)(root), names_of(rel), j),
    ) by {
        lemma_directories_above(d, d.nodes, root, names_of(rel), names_of(rel).len(), j);
    }
}

/// What stops the walk down to content whose directories are all there: only a
/// symbolic link in place of the content.
proof fn lemma_walk(d: Disk, root: Seq<char>, rel: Seq<char>, k: nat)
    requires
        disk::is_spelling(d.canon),
        is_straight(d, root, rel),
        paths::content_path_error(rel) is None,
        is_reachable(d, root, rel),
        k < names_of(rel).len(),
    ensures
        ({
            let c = (d.canon)(root);
            resolve_laws::obstacle(
                disk::snapshot(d, disk::no_faults()),
                c,
                names_of(rel),
                k,
            ) == if disk::node_at(d, place(d, root, rel)) matches Some(Node::Link(_)) {
                Some(ErrorView::PathTraversal)
            } else {
                None
            }
        }),
    decreases names_of(rel).len() - k,
{
    let names = names_of(rel);
    let c = (d.canon)(root);
    let fs = disk::snapshot(d, disk::no_faults());
    lemma_names(rel);
    assert(route_laws::is_plain(names[k as int]));
    let below = resolve_laws::descended(c, names, k + 1);
    assert((d.canon)(below) == below);
    if k + 1 < names.len() {
        assert(disk::is_directory(d.nodes, below));
        assert(resolve_laws::presence(fs, below) is Ok);
        lemma_walk(d, root, rel, k + 1);
    } else {
        assert(resolve_laws::obstacle(fs, c, names, k + 1) is None);
    }
}

/// What content resolves to when its directories are all there.
proof fn lemma_resolved(d: Disk, root: Seq<char>, rel: Seq<char>)
    requires
        disk::is_spelling(d.canon),
        is_straight(d, root, rel),
        paths::content_path_error(rel) is None,
        is_reachable(d, root, rel),
    ensures
        (d.canon)(place(d, root, rel)) == place(d, root, rel),
        resolve_laws::resolved(disk::snapshot(d, disk::no_faults()), root, rel) == if disk::node_at(
            d,
            place(d, root, rel),
        ) matches Some(Node::Link(_)) {
            Err(ErrorView::PathTraversal)
        } else {
            Ok(place(d, root, rel))
        },
{
    let names = names_of(rel);
    let n = names.len();
    let c = (d.canon)(root);
    let fs = disk::snapshot(d, disk::no_faults());
    lemma_names(rel);
    assert((d.canon)(resolve_laws::descended(c, names, n)) == place(d, root, rel));
    assert((d.canon)(folder(d, root, rel)) == folder(d, root, rel));
    assert(disk::is_directory(d.nodes, resolve_laws::descended(c, names, 0)));
    assert(resolve_laws::real_root(fs, root) == Ok::<Seq<char>, ErrorView>(c));
    lemma_walk(d, root, rel, 0);
    lemma_folder(d, root, names, n);
    assert(disk::is_directory(
        d.nodes,
        resolve_laws::descended(c, names, (n - 1) as nat),
    ));
    resolve_laws::lemma_descended_stays_under(c, names, n);
    resolve_laws::lemma_descended_stays_under(c, names, (n - 1) as nat);
}

/// The reading of a file whose directories are all there.
proof fn lemma_run_read(
    d: Disk,
    root: Seq<char>,
    rel: Seq<char>,
    content: Seq<u8>,
    max: usize,
)
    requires
        disk::is_spelling(d.canon),
        is_straight(d, root, rel),
        is_request(rel),
        is_reachable(d, root, rel),
        d.nodes.dom().contains(place(d, root, rel)),
        d.nodes[place(d, root, rel)] == Node::File(content),
        content.len() <= u64::MAX,
    ensures
        disk::run(d, disk::no_faults(), store_task::started(OpView::Read(max), root, rel)) == (
            d,
            if content.len() <= max {
                Ok(OutputView::Body(content))
            } else {
                Err(store_task::oversize(content.len() as u64, max))
            },
        ),
{
    let faults = disk::no_faults();
    let s = store_task::started(OpView::Read(max), root, rel);
    let path = place(d, root, rel);
    lemma_resolved(d, root, rel);
    lemma_run_start(d, faults, OpView::Read(max), root, rel);
    let s1 = StoreView { phase: PhaseView::Check(path), ..s };
    disk::lemma_run_step(d, faults, s1);
    let s2 = StoreView { phase: PhaseView::Measure(path), ..s };
    disk::lemma_run_step(d, faults, s2);
    let s3 = StoreView { phase: PhaseView::Body(path), ..s };
    disk::lemma_run_step(d, faults, s3);
}

/// After a write that succeeded the directories are all there.
proof fn lemma_written_is_reachable(
    d: Disk,
    root: Seq<char>,
    rel: Seq<char>,
    content: Seq<u8>,
)
    requires
        disk::is_disk(d),
        paths::content_path_error(rel) is None,
        !disk::blocked(d.nodes, folder(d, root, rel)),
        !disk::is_directory(
            disk::made(d.nodes, folder(d, root, rel)),
            temp_place(d, root, rel),
        ),
        !disk::is_directory(
            disk::made(d.nodes, folder(d, root, rel)),
            place(d, root, rel),
        ),
    ensures
        is_reachable(
            (Disk { nodes: written(d, root, rel, content), ..d }),
            root,
            rel,
        ),
{
    let names = names_of(rel);
    let n = names.len();
    let c = (d.canon)(root);
    let nodes = disk::made(d.nodes, folder(d, root, rel));
    let after = Disk { nodes: written(d, root, rel, content), ..d };
    lemma_names(rel);
    disk::lemma_made(d.nodes, folder(d, root, rel));
    assert forall|j: nat| j < n implies disk::is_directory(
        after.nodes,
        #[trigger] resolve_laws::descended((after.canon)(root), names, j),
    ) by {
        if j < n - 1 {
            lemma_directories_above(d, nodes, root, names, (n - 1) as nat, j);
        }
        assert(disk::is_directory(nodes, resolve_laws::descended(c, names, j)));
    }
}

/// A read gives back what was written: once a write has succeeded, whatever
/// failed before or stood there, a read under a cap that admits the content
/// gives back exactly the content. The directories above the root may be reached
/// through symbolic links. Left out are a link with the name of the temporary file,
/// through which the content would go elsewhere, and a link above the content that
/// could not be looked at, which would have been taken for a missing directory.
pub proof fn law_read_gives_back_what_was_written(
    d: Disk,
    faults: Faults,
    root: Seq<char>,
    rel: Seq<char>,
    content: Seq<u8>,
    max: usize,
)
    requires
        disk::is_disk(d),
        is_request(rel),
        links_above_are_told(d, faults, root, rel),
        !disk::is_link(d.nodes, temp_place(d, root, rel)),
        content.len() <= max,
        disk::run(
            d,
            faults,
            store_task::started(OpView::Write(content), root, rel),
        ).1 is Ok,
    ensures
        ({
            let after = disk::run(
                d,
                faults,
                store_task::started(OpView::Write(content), root, rel),
            ).0;
            disk::run(
                after,
                disk::no_faults(),
                store_task::started(OpView::Read(max), root, rel),
            ) == (after, Ok::<OutputView, ErrorView>(OutputView::Body(content)))
        }),
{
    let op = OpView::Write(content);
    let s = store_task::started(op, root, rel);
    lemma_run_start(d, faults, op, root, rel);
    let path = resolve_laws::resolved(disk::snapshot(d, faults), root, rel)->Ok_0;
    let dir = lemma_resolved_place(d, faults, root, rel, path);
    lemma_names(rel);
    components::lemma_parent_of_join(dir, last_name(rel));
    let s1 = StoreView { phase: PhaseView::MakeParent(path), ..s };
    lemma_run_write(d, faults, s1, root, rel, path, dir);
    let after = disk::run(d, faults, s).0;
    lemma_written_is_reachable(d, root, rel, content);
    assert(after == Disk { nodes: written(d, root, rel, content), ..d });
    lemma_run_read(after, root, rel, content, max);
}

/// Reading changes nothing.
pub proof fn law_reading_changes_nothing(
    d: Disk,
    faults: Faults,
    root: Seq<char>,
    rel: Seq<char>,
    max: usize,
)
    requires
        names_of(rel).len() <= usize::MAX,
    ensures
        disk::run(d, faults, store_task::started(OpView::Read(max), root, rel)).0 == d,
{
    let s = store_task::started(OpView::Read(max), root, rel);
    lemma_run_start(d, faults, OpView::Read(max), root, rel);
    match resolve_laws::resolved(disk::snapshot(d, faults), root, rel) {
        Err(_) => {},
        Ok(path) => {
            let s1 = StoreView { phase: PhaseView::Check(path), ..s };
            disk::lemma_run_step(d, faults, s1);
            let s2 = StoreView { phase: PhaseView::Measure(path), ..s };
            disk::lemma_run_step(d, faults, s2);
            let s3 = StoreView { phase: PhaseView::Body(path), ..s };
            disk::lemma_run_step(d, faults, s3);
        },
    }
}

/// A body is never longer than the cap, whatever the file system answers.
pub proof fn law_bodies_are_capped(s: StoreView, reply: ReplyView, max: usize)
    requires
        s.op == OpView::Read(max),
        fs::answers(reply, store_task::request_of(s)),
    ensures
        store_task::next(s, reply) matches StoreStepView::Done(Ok(OutputView::Body(b)))
            ==> b.len() <= max,
{
}

/// What is longer than the cap is refused, without its body being read.
pub proof fn law_oversize_content_is_refused(
    d: Disk,
    root: Seq<char>,
    rel: Seq<char>,
    content: Seq<u8>,
    max: usize,
)
    requires
        disk::is_disk(d),
        is_request(rel),
        d.nodes.dom().contains(place(d, root, rel)),
        d.nodes[place(d, root, rel)] == Node::File(content),
        max < content.len() <= u64::MAX,
    ensures
        disk::run(d, disk::no_faults(), store_task::started(OpView::Read(max), root, rel)) == (
            d,
            Err::<OutputView, ErrorView>(store_task::oversize(content.len() as u64, max)),
        ),
{
    lemma_reachable(d, root, rel);
    lemma_reachable_is_straight(d, root, rel);
    lemma_run_read(d, root, rel, content, max);
}

/// What is there is at the end of a straight way.
pub proof fn lemma_content_is_laid_out(d: Disk, root: Seq<char>, rel: Seq<char>)
    requires
        disk::is_disk(d),
        paths::content_path_error(rel) is None,
        d.nodes.dom().contains(place(d, root, rel)),
    ensures
        is_laid_out(d, root, rel),
{
    lemma_reachable(d, root, rel);
    lemma_reachable_is_straight(d, root, rel);
}

/// A file that is there, at the end of a straight way, is read as it is.
pub proof fn lemma_laid_out_content_is_read(
    d: Disk,
    root: Seq<char>,
    rel: Seq<char>,
    content: Seq<u8>,
    max: usize,
)
    requires
        is_laid_out(d, root, rel),
        is_request(rel),
        d.nodes.dom().contains(place(d, root, rel)),
        d.nodes[place(d, root, rel)] == Node::File(content),
        content.len() <= max,
    ensures
        disk::run(d, disk::no_faults(), store_task::started(OpView::Read(max), root, rel)) == (
            d,
            Ok::<OutputView, ErrorView>(OutputView::Body(content)),
        ),
{
    lemma_reachable(d, root, rel);
    lemma_run_read(d, root, rel, content, max);
}

/// A file that is there is read as it is.
pub proof fn law_content_is_read_as_it_is(
    d: Disk,
    root: Seq<char>,
    rel: Seq<char>,
    content: Seq<u8>,
    max: usize,
)
    requires
        disk::is_disk(d),
        is_request(rel),
        d.nodes.dom().contains(place(d, root, rel)),
        d.nodes[place(d, root, rel)] == Node::File(content),
        content.len() <= max,
    ensures
        disk::run(d, disk::no_faults(), store_task::started(OpView::Read(max), root, rel)) == (
            d,
            Ok::<OutputView, ErrorView>(OutputView::Body(content)),
        ),
{
    lemma_content_is_laid_out(d, root, rel);
    lemma_laid_out_content_is_read(d, root, rel, content, max);
}

/// A write that succeeds leaves everything else as it was, but for a file that
/// has the name of its temporary file.
pub proof fn law_writing_touches_nothing_else(
    d: Disk,
    faults: Faults,
    root: Seq<char>,
    rel: Seq<char>,
    content: Seq<u8>,
    p: Seq<char>,
)
    requires
        disk::is_disk(d),
        is_request(rel),
        links_above_are_told(d, faults, root, rel),
        !disk::is_link(d.nodes, temp_place(d, root, rel)),
        d.nodes.dom().contains(p),
        p != place(d, root, rel),
        p != temp_place(d, root, rel),
    ensures
        ({
            let after = disk::run(
                d,
                faults,
                store_task::started(OpView::Write(content), root, rel),
            ).0;
            after.nodes.dom().contains(p) && after.nodes[p] == d.nodes[p]
        }),
{
    let op = OpView::Write(content);
    let s = store_task::started(op, root, rel);
    lemma_run_start(d, faults, op, root, rel);
    match resolve_laws::resolved(disk::snapshot(d, faults), root, rel) {
        Err(_) => {},
        Ok(path) => {
            let dir = lemma_resolved_place(d, faults, root, rel, path);
            lemma_names(rel);
            components::lemma_parent_of_join(dir, last_name(rel));
            let s1 = StoreView { phase: PhaseView::MakeParent(path), ..s };
            lemma_run_write(d, faults, s1, root, rel, path, dir);
            if disk::run(d, faults, s).1 is Ok {
                disk::lemma_made(d.nodes, folder(d, root, rel));
            }
        },
    }
}

/// Writing is atomic: a write that fails, at whatever point, leaves the content
/// as it was, and nothing where nothing was.
pub proof fn law_failed_write_keeps_the_content(
    d: Disk,
    faults: Faults,
    root: Seq<char>,
    rel: Seq<char>,
    content: Seq<u8>,
)
    requires
        disk::is_disk(d),
        is_request(rel),
        links_above_are_told(d, faults, root, rel),
        !disk::is_link(d.nodes, temp_place(d, root, rel)),
        disk::run(
            d,
            faults,
            store_task::started(OpView::Write(content), root, rel),
        ).1 is Err,
    ensures
        ({
            let after = disk::run(
                d,
                faults,
                store_task::started(OpView::Write(content), root, rel),
            ).0;
            let p = place(d, root, rel);
            &&& after.nodes.dom().contains(p) <==> d.nodes.dom().contains(p)
            &&& d.nodes.dom().contains(p) ==> after.nodes[p] == d.nodes[p]
        }),
{
    lemma_write_ends(d, faults, root, rel, content);
    lemma_temp_is_elsewhere(d, root, rel);
}

/// A write leaves no temporary file: none once it has succeeded, whatever failed
/// on the way; and none of its own once it has failed, where removing files works.
pub proof fn law_no_temporary_file_is_left(
    d: Disk,
    faults: Faults,
    root: Seq<char>,
    rel: Seq<char>,
    content: Seq<u8>,
)
    requires
        disk::is_disk(d),
        is_request(rel),
        links_above_are_told(d, faults, root, rel),
        !disk::is_link(d.nodes, temp_place(d, root, rel)),
    ensures
        ({
            let (after, r) = disk::run(
                d,
                faults,
                store_task::started(OpView::Write(content), root, rel),
            );
            let temp = temp_place(d, root, rel);
            &&& r is Ok ==> !after.nodes.dom().contains(temp)
            &&& r is Err && removals_work(faults) && !d.nodes.dom().contains(temp)
                ==> !after.nodes.dom().contains(temp)
        }),
{
    lemma_write_ends(d, faults, root, rel, content);
    lemma_temp_is_elsewhere(d, root, rel);
}

/// The temporary file does not stand in place of the content.
pub proof fn lemma_temp_is_elsewhere(d: Disk, root: Seq<char>, rel: Seq<char>)
    requires
        paths::content_path_error(rel) is None,
    ensures
        temp_place(d, root, rel) != place(d, root, rel),
        place(d, root, rel) == components::join(folder(d, root, rel), last_name(rel)),
{
    lemma_names(rel);
    lemma_temp_name(last_name(rel), d.clock as nat);
    assert(place(d, root, rel) == components::join(folder(d, root, rel), last_name(rel)));
    assert(temp_place(d, root, rel).len() > place(d, root, rel).len());
}

/// How a write ends, from its start.
pub proof fn lemma_write_ends(
    d: Disk,
    faults: Faults,
    root: Seq<char>,
    rel: Seq<char>,
    content: Seq<u8>,
)
    requires
        disk::is_disk(d),
        is_request(rel),
        links_above_are_told(d, faults, root, rel),
        !disk::is_link(d.nodes, temp_place(d, root, rel)),
    ensures
        ({
            let (after, r) = disk::run(
                d,
                faults,
                store_task::started(OpView::Write(content), root, rel),
            );
            let place = place(d, root, rel);
            let temp = temp_place(d, root, rel);
            &&& r is Ok ==> {
                &&& after == Disk { nodes: written(d, root, rel, content), ..d }
                &&& is_straight(d, root, rel)
            }
            &&& r is Err ==> {
                &&& is_kept(d.nodes, after.nodes, temp)
                &&& after.nodes.dom().contains(place) ==> d.nodes.dom().contains(place)
                &&& removals_work(faults) && after.nodes.dom().contains(temp)
                    ==> d.nodes.dom().contains(temp)
            }
        }),
{
    let op = OpView::Write(content);
    let s = store_task::started(op, root, rel);
    lemma_names(rel);
    lemma_run_start(d, faults, op, root, rel);
    match resolve_laws::resolved(disk::snapshot(d, faults), root, rel) {
        Err(_) => {},
        Ok(path) => {
            let dir = lemma_resolved_place(d, faults, root, rel, path);
            components::lemma_parent_of_join(dir, last_name(rel));
            let s1 = StoreView { phase: PhaseView::MakeParent(path), ..s };
            lemma_run_write(d, faults, s1, root, rel, path, dir);
        },
    }
}

/// Writing succeeds where it can: the directory is there, neither a directory
/// nor a symbolic link stands in place of the content, and the temporary name is
/// free or a file's.
pub proof fn law_writing_succeeds(
    d: Disk,
    root: Seq<char>,
    rel: Seq<char>,
    content: Seq<u8>,
)
    requires
        disk::is_disk(d),
        is_request(rel),
        disk::is_directory(d.nodes, folder(d, root, rel)),
        !disk::is_directory(d.nodes, place(d, root, rel)),
        !disk::is_link(d.nodes, place(d, root, rel)),
        d.nodes.dom().contains(temp_place(d, root, rel)) ==> d.nodes[temp_place(d, root, rel)] is File,
    ensures
        ({
            let (after, r) = disk::run(
                d,
                disk::no_faults(),
                store_task::started(OpView::Write(content), root, rel),
            );
            &&& r == Ok::<OutputView, ErrorView>(OutputView::Unit)
            &&& after.nodes == d.nodes.remove(temp_place(d, root, rel)).insert(
                place(d, root, rel),
                Node::File(content),
            )
        }),
{
    let op = OpView::Write(content);
    let faults = disk::no_faults();
    let s = store_task::started(op, root, rel);
    let names = names_of(rel);
    let n = names.len();
    let path = place(d, root, rel);
    let dir = folder(d, root, rel);
    let name = last_name(rel);
    let tname = temp_name(name, d.clock as nat);
    lemma_names(rel);
    lemma_reachable_folder(d, root, rel);
    lemma_reachable_is_straight(d, root, rel);
    lemma_resolved(d, root, rel);
    lemma_run_start(d, faults, op, root, rel);
    lemma_folder(d, root, names, n);
    assert((d.canon)(dir) == dir);
    assert(components::without_trailing((d.canon)(dir)) == (d.canon)(dir));
    assert(path == components::join(dir, name));
    components::lemma_parent_of_join(dir, name);
    lemma_temp_name(name, d.clock as nat);
    components::lemma_parent_of_join(dir, tname);
    let tmp = components::join(dir, tname);
    assert((d.canon)(tmp) == tmp);
    let s1 = StoreView { phase: PhaseView::MakeParent(path), ..s };
    disk::lemma_run_step(d, faults, s1);
    let s2 = StoreView { phase: PhaseView::Clock(path), ..s };
    disk::lemma_run_step(d, faults, s2);
    assert(tmp == store_task::temp_path(path, name, d.clock as nat));
    let s3 = StoreView { phase: PhaseView::WriteTemp(path, tmp), ..s };
    disk::lemma_run_step(d, faults, s3);
    let d3 = disk::changed(d, faults, store_task::request_of(s3));
    let s4 = StoreView { phase: PhaseView::Swap(path, tmp), ..s };
    assert(dir.len() < path.len() && dir.len() < tmp.len());
    disk::lemma_run_step(d3, faults, s4);
    let d4 = disk::changed(d3, faults, store_task::request_of(s4));
    assert(d4.nodes =~= d.nodes.remove(tmp).insert(path, Node::File(content)));
}

proof fn lemma_reachable_folder(d: Disk, root: Seq<char>, rel: Seq<char>)
    requires
        disk::is_disk(d),
        paths::content_path_error(rel) is None,
        disk::is_directory(d.nodes, folder(d, root, rel)),
    ensures
        is_reachable(d, root, rel),
{
    let names = names_of(rel);
    let n = names.len();
    lemma_names(rel);
    assert forall|j: nat| j < n implies disk::is_directory(
        d.nodes,
        #[trigger] resolve_laws::descended((d.canon)(root), names, j),
    ) by {
        if j < n - 1 {
            lemma_directories_above(d, d.nodes, root, names, (n - 1) as nat, j);
        }
    }
}

/// Content that is not there is not found, be it to read or to delete.
pub proof fn law_missing_content_is_not_found(
    d: Disk,
    root: Seq<char>,
    rel: Seq<char>,
    op: OpView,
)
    requires
        disk::is_disk(d),
        is_request(rel),
        op is Read || op is Delete,
        disk::is_directory(d.nodes, folder(d, root, rel)),
        !d.nodes.dom().contains(place(d, root, rel)),
    ensures
        disk::run(d, disk::no_faults(), store_task::started(op, root, rel)) == (
            d,
            Err::<OutputView, ErrorView>(ErrorView::NotFound(rel)),
        ),
{
    let faults = disk::no_faults();
    lemma_reachable_folder(d, root, rel);
    lemma_reachable_is_straight(d, root, rel);
    lemma_resolved(d, root, rel);
    lemma_run_start(d, faults, op, root, rel);
    let s = store_task::started(op, root, rel);
    let s1 = StoreView { phase: PhaseView::Check(place(d, root, rel)), ..s };
    disk::lemma_run_step(d, faults, s1);
}

/// Deleting removes the content and nothing else; after that it is not found.
pub proof fn law_deleted_content_is_gone(
    d: Disk,
    faults: Faults,
    root: Seq<char>,
    rel: Seq<char>,
    op: OpView,
)
    requires
        disk::is_disk(d),
        is_request(rel),
        links_above_are_told(d, faults, root, rel),
        op is Read || op is Delete,
        disk::run(d, faults, store_task::started(OpView::Delete, root, rel)).1 is Ok,
    ensures
        ({
            let after = disk::run(d, faults, store_task::started(OpView::Delete, root, rel)).0;
            &&& after == Disk { nodes: d.nodes.remove(place(d, root, rel)), ..d }
            &&& disk::run(after, disk::no_faults(), store_task::started(op, root, rel)) == (
                after,
                Err::<OutputView, ErrorView>(ErrorView::NotFound(rel)),
            )
        }),
{
    let s = store_task::started(OpView::Delete, root, rel);
    lemma_run_start(d, faults, OpView::Delete, root, rel);
    let path = resolve_laws::resolved(disk::snapshot(d, faults), root, rel)->Ok_0;
    let dir = lemma_resolved_place(d, faults, root, rel, path);
    let s1 = StoreView { phase: PhaseView::Check(path), ..s };
    disk::lemma_run_step(d, faults, s1);
    let s2 = StoreView { phase: PhaseView::Remove(path), ..s };
    disk::lemma_run_step(d, faults, s2);
    let p = place(d, root, rel);
    let after = disk::run(d, faults, s).0;
    assert(after == Disk { nodes: d.nodes.remove(p), ..d });
    assert(d.nodes.dom().contains(p) && d.nodes[p] is File);
    lemma_reachable(d, root, rel);
    assert forall|j: nat| j < names_of(rel).len() implies disk::is_directory(
        after.nodes,
        #[trigger] resolve_laws::descended((after.canon)(root), names_of(rel), j),
    ) by {
        assert(disk::is_directory(
            d.nodes,
            resolve_laws::descended((d.canon)(root), names_of(rel), j),
        ));
    }
    lemma_resolved(after, root, rel);
    lemma_run_start(after, disk::no_faults(), op, root, rel);
    let t = store_task::started(op, root, rel);
    let t1 = StoreView { phase: PhaseView::Check(p), ..t };
    disk::lemma_run_step(after, disk::no_faults(), t1);
}

/// What is written only if missing is written once: after it has succeeded,
/// doing it again, whatever the content, succeeds and changes nothing.
pub proof fn law_default_content_is_written_once(
    d: Disk,
    faults: Faults,
    root: Seq<char>,
    rel: Seq<char>,
    content: Seq<u8>,
    other: Seq<u8>,
)
    requires
        disk::is_disk(d),
        is_request(rel),
        links_above_are_told(d, faults, root, rel),
        !disk::is_link(d.nodes, temp_place(d, root, rel)),
        disk::run(
            d,
            faults,
            store_task::started(OpView::WriteIfMissing(content), root, rel),
        ).1 is Ok,
    ensures
        ({
            let after = disk::run(
                d,
                faults,
                store_task::started(OpView::WriteIfMissing(content), root, rel),
            ).0;
            disk::run(
                after,
                disk::no_faults(),
                store_task::started(OpView::WriteIfMissing(other), root, rel),
            ) == (after, Ok::<OutputView, ErrorView>(OutputView::Unit))
        }),
{
    let op = OpView::WriteIfMissing(content);
    let s = store_task::started(op, root, rel);
    let p = place(d, root, rel);
    lemma_run_start(d, faults, op, root, rel);
    let path = resolve_laws::resolved(disk::snapshot(d, faults), root, rel)->Ok_0;
    let dir = lemma_resolved_place(d, faults, root, rel, path);
    lemma_names(rel);
    components::lemma_parent_of_join(dir, last_name(rel));
    let s1 = StoreView { phase: PhaseView::Check(path), ..s };
    disk::lemma_run_step(d, faults, s1);
    let after = disk::run(d, faults, s).0;
    if d.nodes.dom().contains(p) {
        assert(after == d);
        lemma_reachable(d, root, rel);
    } else {
        let s2 = StoreView { phase: PhaseView::MakeParent(path), ..s };
        lemma_run_write(d, faults, s2, root, rel, path, dir);
        lemma_written_is_reachable(d, root, rel, content);
        assert(after == Disk { nodes: written(d, root, rel, content), ..d });
    }
    lemma_resolved(after, root, rel);
    let again = OpView::WriteIfMissing(other);
    lemma_run_start(after, disk::no_faults(), again, root, rel);
    let t = store_task::started(again, root, rel);
    let t1 = StoreView { phase: PhaseView::Check(p), ..t };
    disk::lemma_run_step(after, disk::no_faults(), t1);
}

/// Default content is written where nothing is: a read then gives it back.
pub proof fn law_default_content_is_readable(
    d: Disk,
    faults: Faults,
    root: Seq<char>,
    rel: Seq<char>,
    content: Seq<u8>,
    max: usize,
)
    requires
        disk::is_disk(d),
        is_request(rel),
        links_above_are_told(d, faults, root, rel),
        !disk::is_link(d.nodes, temp_place(d, root, rel)),
        content.len() <= max,
        !d.nodes.dom().contains(place(d, root, rel)),
        disk::run(
            d,
            faults,
            store_task::started(OpView::WriteIfMissing(content), root, rel),
        ).1 is Ok,
    ensures
        ({
            let after = disk::run(
                d,
                faults,
                store_task::started(OpView::WriteIfMissing(content), root, rel),
            ).0;
            disk::run(
                after,
                disk::no_faults(),
                store_task::started(OpView::Read(max), root, rel),
            ) == (after, Ok::<OutputView, ErrorView>(OutputView::Body(content)))
        }),
{
    let op = OpView::WriteIfMissing(content);
    let s = store_task::started(op, root, rel);
    lemma_run_start(d, faults, op, root, rel);
    let path = resolve_laws::resolved(disk::snapshot(d, faults), root, rel)->Ok_0;
    let dir = lemma_resolved_place(d, faults, root, rel, path);
    lemma_names(rel);
    components::lemma_parent_of_join(dir, last_name(rel));
    let s1 = StoreView { phase: PhaseView::Check(path), ..s };
    disk::lemma_run_step(d, faults, s1);
    let s2 = StoreView { phase: PhaseView::MakeParent(path), ..s };
    lemma_run_write(d, faults, s2, root, rel, path, dir);
    lemma_written_is_reachable(d, root, rel, content);
    let after = disk::run(d, faults, s).0;
    assert(after == Disk { nodes: written(d, root, rel, content), ..d });
    lemma_run_read(after, root, rel, content, max);
}

/// No operation goes through a symbolic link, be it dangling: where the root, a
/// directory on the way or the content itself is one, nothing is read, written or
/// deleted, and nothing changes.
pub proof fn law_links_are_not_followed(
    d: Disk,
    root: Seq<char>,
    rel: Seq<char>,
    op: OpView,
    j: nat,
    target: Option<Seq<char>>,
)
    requires
        disk::is_disk(d),
        is_request(rel),
        j <= names_of(rel).len(),
        ({
            let p = resolve_laws::descended((d.canon)(root), names_of(rel), j);
            d.nodes.dom().contains(p) && d.nodes[p] == Node::Link(target)
        }),
    ensures
        disk::run(d, disk::no_faults(), store_task::started(op, root, rel)) == (
            d,
            Err::<OutputView, ErrorView>(ErrorView::PathTraversal),
        ),
{
    let faults = disk::no_faults();
    let fs = disk::snapshot(d, faults);
    let names = names_of(rel);
    let c = (d.canon)(root);
    lemma_names(rel);
    lemma_run_start(d, faults, op, root, rel);
    disk::lemma_answers_fit(d, faults);
    if j == 0 {
        resolve_laws::law_symbolic_link_roots_are_rejected(fs, root, rel);
    } else {
        assert forall|i: nat| i < j implies disk::is_directory(
            d.nodes,
            #[trigger] resolve_laws::descended(c, names, i),
        ) by {
            lemma_directories_above(d, d.nodes, root, names, j, i);
        }
        assert(disk::is_directory(d.nodes, resolve_laws::descended(c, names, 0)));
        assert(resolve_laws::real_root(fs, root) == Ok::<Seq<char>, ErrorView>(c));
        lemma_canon_of_descended(d, c, names, j);
        resolve_laws::law_symbolic_links_are_rejected(fs, root, rel, c, j);
    }
}

/// Whatever a task does, and whatever fails, the file system stays a tree.
pub proof fn law_tasks_keep_the_tree(d: Disk, faults: Faults, s: StoreView)
    requires
        disk::is_tree(d.nodes),
        store_task::is_well_formed(s),
    ensures
        disk::is_tree(disk::run(d, faults, s).0.nodes),
    decreases store_task::remaining(s),
{
    let request = store_task::request_of(s);
    let reply = disk::answer(d, faults, request);
    disk::lemma_run_step(d, faults, s);
    disk::lemma_tree_is_kept(d, faults, request);
    store_task::lemma_task_ends(s, reply);
    match store_task::next(s, reply) {
        StoreStepView::Ask(t) => law_tasks_keep_the_tree(
            disk::changed(d, faults, request),
            faults,
            t,
        ),
        StoreStepView::Done(_) => {},
    }
}

/// Is neither the path nor that of the temporary file a symbolic link?
spec fn is_free_of_links(d: Disk, path: Seq<char>) -> bool {
    &&& !disk::is_link(d.nodes, (d.canon)(path))
    &&& components::file_name(path) matches Some(name) ==> !disk::is_link(
        d.nodes,
        (d.canon)(store_task::temp_path(path, name, d.clock as nat)),
    )
}

/// Is what a task is about to touch, its path resolved, no symbolic link?
spec fn spares_links(d: Disk, s: StoreView) -> bool {
    match s.phase {
        PhaseView::Resolve(_) => false,
        PhaseView::Check(p) | PhaseView::Measure(p) | PhaseView::Body(p) | PhaseView::Remove(p)
        | PhaseView::MakeParent(p) | PhaseView::Clock(p) => is_free_of_links(d, p),
        PhaseView::WriteTemp(p, tmp) | PhaseView::Swap(p, tmp) => {
            !disk::is_link(d.nodes, (d.canon)(p)) && !disk::is_link(d.nodes, (d.canon)(tmp))
        },
        PhaseView::Cleanup(tmp, _) => !disk::is_link(d.nodes, (d.canon)(tmp)),
    }
}

proof fn lemma_links_stay(d: Disk, faults: Faults, s: StoreView)
    requires
        disk::is_tree(d.nodes),
        spares_links(d, s),
    ensures
        disk::has_same_links(d.nodes, disk::run(d, faults, s).0.nodes),
        disk::run(d, faults, s).0.canon == d.canon,
    decreases store_task::remaining(s),
{
    let request = store_task::request_of(s);
    let reply = disk::answer(d, faults, request);
    let after = disk::changed(d, faults, request);
    disk::lemma_run_step(d, faults, s);
    disk::lemma_tree_is_kept(d, faults, request);
    disk::lemma_links_stay(d, faults, request);
    store_task::lemma_task_ends(s, reply);
    match store_task::next(s, reply) {
        StoreStepView::Ask(t) => {
            assert(spares_links(after, t));
            lemma_links_stay(after, faults, t);
        },
        StoreStepView::Done(_) => {},
    }
}

/// No operation adds, replaces or removes a symbolic link, whatever fails, as long
/// as the links on its way are told: the file system stays one in which the next
/// operation can be carried out.
pub proof fn law_operations_leave_links_alone(
    d: Disk,
    faults: Faults,
    root: Seq<char>,
    rel: Seq<char>,
    op: OpView,
)
    requires
        disk::is_disk(d),
        is_request(rel),
        links_are_told(d, faults, root, rel, names_of(rel).len()),
        !disk::is_link(d.nodes, temp_place(d, root, rel)),
    ensures
        ({
            let after = disk::run(d, faults, store_task::started(op, root, rel)).0;
            disk::is_disk(after) && disk::has_same_links(d.nodes, after.nodes)
        }),
{
    let s = store_task::started(op, root, rel);
    lemma_names(rel);
    lemma_run_start(d, faults, op, root, rel);
    law_tasks_keep_the_tree(d, faults, s);
    let after = disk::run(d, faults, s).0;
    match resolve_laws::resolved(disk::snapshot(d, faults), root, rel) {
        Err(_) => {},
        Ok(path) => {
            let dir = lemma_resolved_place(d, faults, root, rel, path);
            let tname = temp_name(last_name(rel), d.clock as nat);
            lemma_temp_name(last_name(rel), d.clock as nat);
            components::lemma_parent_of_join(dir, last_name(rel));
            assert((d.canon)(components::join(dir, tname)) == temp_place(d, root, rel));
            assert(is_free_of_links(d, path));
            match store_task::after_resolution(s, path) {
                StoreStepView::Ask(t) => lemma_links_stay(d, faults, t),
                StoreStepView::Done(_) => {},
            }
        },
    }
    disk::lemma_disk_is_kept(d, after);
}

/// The opening of a store carried out to its end: the file system it leaves and
/// its result.
pub open spec fn opened(d: Disk, faults: Faults, roots: RootsView) -> (
    Disk,
    Result<RootsView, ErrorView>,
) {
    let s = storage::open_started(roots);
    let first = storage::dirs_request(s.dirs);
    let d1 = disk::changed(d, faults, first);
    match storage::open_next(s, disk::answer(d, faults, first)) {
        OpenStepView::Done(r) => (d1, r),
        OpenStepView::Ask(t) => {
            let second = storage::dirs_request(t.dirs);
            let d2 = disk::changed(d1, faults, second);
            match storage::open_next(t, disk::answer(d1, faults, second)) {
                OpenStepView::Done(r) => (d2, r),
                OpenStepView::Ask(_) => (d2, Ok(roots)),
            }
        },
    }
}

/// A store that is open has both its directories, themselves or by a link; what
/// was there stays.
pub proof fn law_open_stores_have_their_directories(d: Disk, faults: Faults, roots: RootsView)
    requires
        disk::is_disk(d),
        opened(d, faults, roots).1 is Ok,
    ensures
        opened(d, faults, roots).1 == Ok::<RootsView, ErrorView>(roots),
        ({
            let after = opened(d, faults, roots).0;
            &&& disk::is_disk(after)
            &&& disk::is_directory(after.nodes, disk::reached(after, roots.pages_dir))
            &&& disk::is_directory(after.nodes, disk::reached(after, roots.files_dir))
            &&& forall|p: Seq<char>| #[trigger]
                d.nodes.dom().contains(p) ==> after.nodes.dom().contains(p) && after.nodes[p]
                    == d.nodes[p]
        }),
{
    let first = RequestView::MakeDirs(roots.pages_dir);
    let second = RequestView::MakeDirs(roots.files_dir);
    let d1 = disk::changed(d, faults, first);
    let pages = (d.canon)(roots.pages_dir);
    disk::lemma_tree_is_kept(d, faults, first);
    disk::lemma_tree_is_kept(d1, faults, second);
    disk::lemma_links_stay(d, faults, first);
    disk::lemma_links_stay(d1, faults, second);
    disk::lemma_disk_is_kept(d, d1);
    disk::lemma_disk_is_kept(d1, disk::changed(d1, faults, second));
    assert(disk::answer(d, faults, first) == ReplyView::Done);
    lemma_made_dirs(d, faults, roots.pages_dir);
    assert(disk::answer(d1, faults, second) == ReplyView::Done);
    lemma_made_dirs(d1, faults, roots.files_dir);
    let after = opened(d, faults, roots).0;
    assert(d1.nodes.dom().contains(pages));
    assert(after.nodes.dom().contains(pages) && after.nodes[pages] == d1.nodes[pages]);
    let end = disk::reached(d1, roots.pages_dir);
    assert(d1.nodes.dom().contains(end));
    assert forall|p: Seq<char>| #[trigger] d.nodes.dom().contains(p) implies after.nodes.dom().contains(
        p,
    ) && after.nodes[p] == d.nodes[p] by {
        assert(d1.nodes.dom().contains(p));
    }
}

/// A directory that was asked for is there, itself or by a link, and what was
/// there stays.
proof fn lemma_made_dirs(d: Disk, faults: Faults, p: Seq<char>)
    requires
        disk::is_tree(d.nodes),
        disk::answer(d, faults, RequestView::MakeDirs(p)) == ReplyView::Done,
    ensures
        ({
            let after = disk::changed(d, faults, RequestView::MakeDirs(p));
            &&& after.canon == d.canon
            &&& after.nodes.dom().contains((d.canon)(p))
            &&& disk::is_directory(after.nodes, disk::reached(after, p))
            &&& forall|x: Seq<char>| #[trigger]
                d.nodes.dom().contains(x) ==> after.nodes.dom().contains(x) && after.nodes[x]
                    == d.nodes[x]
        }),
{
    if !disk::is_link(d.nodes, (d.canon)(p)) {
        disk::lemma_made(d.nodes, (d.canon)(p));
    }
}

} // verus!
