//! Which files of a directory tree a listing holds.

use vstd::prelude::*;

use crate::components;
use crate::error::ErrorView;
use crate::listing;
use crate::listing::EntryView;
use crate::listing::MAX_LISTED_ENTRIES;
use crate::listing::MAX_LIST_DEPTH;
use crate::listing_laws;
use crate::listing_laws::Tree;
use crate::listing_laws::TreeEntry;
use crate::order;
use crate::paths;

verus! {

/// Do the names lead from the entries, one directory after another, to the node?
pub open spec fn reaches(entries: Seq<TreeEntry>, names: Seq<Seq<char>>, node: Tree) -> bool
    decreases names.len(),
{
    names.len() > 0 && exists|i: int|
        0 <= i < entries.len() && (#[trigger] entries[i]).name == names[0] && if names.len() == 1 {
            entries[i].node == node
        } else {
            match entries[i].node {
                Tree::Directory(sub) => reaches(sub, names.skip(1), node),
                _ => false,
            }
        }
}

/// Do the names lead to the node by way of the entry at position `i`?
pub open spec fn reaches_by(
    entries: Seq<TreeEntry>,
    names: Seq<Seq<char>>,
    node: Tree,
    i: int,
) -> bool {
    &&& names.len() > 0
    &&& 0 <= i < entries.len()
    &&& entries[i].name == names[0]
    &&& if names.len() == 1 {
        entries[i].node == node
    } else {
        match entries[i].node {
            Tree::Directory(sub) => reaches(sub, names.skip(1), node),
            _ => false,
        }
    }
}

/// The entry that names which lead somewhere go by.
pub proof fn lemma_way(entries: Seq<TreeEntry>, names: Seq<Seq<char>>, node: Tree) -> (i: int)
    requires
        reaches(entries, names, node),
    ensures
        reaches_by(entries, names, node, i),
{
    reveal_with_fuel(reaches, 2);
    choose|i: int|
        0 <= i < entries.len() && (#[trigger] entries[i]).name == names[0] && if names.len() == 1 {
            entries[i].node == node
        } else {
            match entries[i].node {
                Tree::Directory(sub) => reaches(sub, names.skip(1), node),
                _ => false,
            }
        }
}

/// The path that the names spell.
pub open spec fn path_of(names: Seq<Seq<char>>) -> Seq<char> {
    listing::relative_path(names.drop_last(), names.last())
}

/// Is none of the names hidden?
pub open spec fn none_hidden(names: Seq<Seq<char>>) -> bool {
    forall|i: int| 0 <= i < names.len() ==> !paths::is_hidden(#[trigger] names[i])
}

/// Is the entry that of the regular file which the names lead to, with its size
/// and its time, under an acceptable path and no hidden name?
pub open spec fn is_file_at(
    dirs: Seq<Seq<char>>,
    entries: Seq<TreeEntry>,
    names: Seq<Seq<char>>,
    e: EntryView,
) -> bool {
    &&& names.len() > 0
    &&& none_hidden(names)
    &&& reaches(entries, names, Tree::File(e.size, e.modified_ms))
    &&& e.path == path_of(dirs + names)
    &&& paths::content_path_error(e.path) is None
}

/// Is the entry that of some file among the entries, or below them?
pub open spec fn has_file(dirs: Seq<Seq<char>>, entries: Seq<TreeEntry>, e: EntryView) -> bool {
    exists|names: Seq<Seq<char>>| is_file_at(dirs, entries, names, e)
}

/// Is the entry that of the one entry `x`, or of a file below it?
spec fn is_in(dirs: Seq<Seq<char>>, x: TreeEntry, e: EntryView) -> bool {
    !paths::is_hidden(x.name) && match x.node {
        Tree::File(size, modified_ms) => {
            &&& e == EntryView { path: path_of(dirs.push(x.name)), size, modified_ms }
            &&& paths::content_path_error(e.path) is None
        },
        Tree::Directory(sub) => has_file(dirs.push(x.name), sub, e),
        _ => false,
    }
}

proof fn lemma_file_splits(
    dirs: Seq<Seq<char>>,
    entries: Seq<TreeEntry>,
    names: Seq<Seq<char>>,
    e: EntryView,
)
    requires
        is_file_at(dirs, entries, names, e),
    ensures
        entries.len() > 0,
        is_in(dirs, entries[0], e) || has_file(dirs, entries.skip(1), e),
{
    let node = Tree::File(e.size, e.modified_ms);
    let i = lemma_way(entries, names, node);
    let rest = entries.skip(1);
    if i > 0 {
        assert(rest[i - 1] == entries[i]);
        assert(reaches_by(rest, names, node, i - 1));
        assert(is_file_at(dirs, rest, names, e));
    } else {
        let x = entries[0];
        assert(x.name == names[0]);
        assert(!paths::is_hidden(names[0]));
        if names.len() == 1 {
            assert(dirs + names =~= dirs.push(x.name));
        } else {
            match x.node {
                Tree::Directory(sub) => {
                    let more = names.skip(1);
                    assert(dirs.push(x.name) + more =~= dirs + names);
                    assert forall|k: int| 0 <= k < more.len() implies !paths::is_hidden(
                        #[trigger] more[k],
                    ) by {
                        assert(more[k] == names[k + 1]);
                    }
                    assert(is_file_at(dirs.push(x.name), sub, more, e));
                },
                _ => {},
            }
        }
    }
}

proof fn lemma_files_of_first(dirs: Seq<Seq<char>>, entries: Seq<TreeEntry>, e: EntryView)
    requires
        entries.len() > 0,
        is_in(dirs, entries[0], e),
    ensures
        has_file(dirs, entries, e),
{
    let x = entries[0];
    let node = Tree::File(e.size, e.modified_ms);
    match x.node {
        Tree::File(_, _) => {
            let names = seq![x.name];
            assert(dirs + names =~= dirs.push(x.name));
            assert(reaches_by(entries, names, node, 0));
            assert(is_file_at(dirs, entries, names, e));
        },
        Tree::Directory(sub) => {
            let more = choose|names: Seq<Seq<char>>| is_file_at(dirs.push(x.name), sub, names, e);
            let names = seq![x.name] + more;
            assert(names.skip(1) =~= more);
            assert(dirs.push(x.name) + more =~= dirs + names);
            assert forall|k: int| 0 <= k < names.len() implies !paths::is_hidden(
                #[trigger] names[k],
            ) by {
                if k > 0 {
                    assert(names[k] == more[k - 1]);
                }
            }
            assert(reaches_by(entries, names, node, 0));
            assert(is_file_at(dirs, entries, names, e));
        },
        _ => {},
    }
}

proof fn lemma_files_of_rest(dirs: Seq<Seq<char>>, entries: Seq<TreeEntry>, e: EntryView)
    requires
        entries.len() > 0,
        has_file(dirs, entries.skip(1), e),
    ensures
        has_file(dirs, entries, e),
{
    let rest = entries.skip(1);
    let node = Tree::File(e.size, e.modified_ms);
    let names = choose|names: Seq<Seq<char>>| is_file_at(dirs, rest, names, e);
    let i = lemma_way(rest, names, node);
    assert(entries[i + 1] == rest[i]);
    assert(reaches_by(entries, names, node, i + 1));
    assert(is_file_at(dirs, entries, names, e));
}

/// The files among the entries are those of the first entry and of the others.
proof fn lemma_files_split(dirs: Seq<Seq<char>>, entries: Seq<TreeEntry>, e: EntryView)
    ensures
        has_file(dirs, entries, e) <==> entries.len() > 0 && (is_in(dirs, entries[0], e)
            || has_file(dirs, entries.skip(1), e)),
{
    if has_file(dirs, entries, e) {
        let names = choose|names: Seq<Seq<char>>| is_file_at(dirs, entries, names, e);
        lemma_file_splits(dirs, entries, names, e);
    }
    if entries.len() > 0 {
        if is_in(dirs, entries[0], e) {
            lemma_files_of_first(dirs, entries, e);
        }
        if has_file(dirs, entries.skip(1), e) {
            lemma_files_of_rest(dirs, entries, e);
        }
    }
}

/// What the walk through one entry finds.
spec fn found_in(dirs: Seq<Seq<char>>, x: TreeEntry, out: Seq<EntryView>) -> Result<
    Seq<EntryView>,
    ErrorView,
> {
    if paths::is_hidden(x.name) {
        Ok(out)
    } else {
        match x.node {
            Tree::Directory(sub) => if dirs.len() + 1 > MAX_LIST_DEPTH {
                Err(ErrorView::InvalidPath("directory tree too deep"@))
            } else {
                listing_laws::walked(dirs.push(x.name), sub, out)
            },
            Tree::File(size, modified_ms) => {
                let path = listing::relative_path(dirs, x.name);
                if paths::content_path_error(path) is None {
                    Ok(out.push(EntryView { path, size, modified_ms }))
                } else {
                    Ok(out)
                }
            },
            _ => Ok(out),
        }
    }
}

proof fn lemma_walked_step(dirs: Seq<Seq<char>>, entries: Seq<TreeEntry>, out: Seq<EntryView>)
    requires
        entries.len() > 0,
        out.len() < MAX_LISTED_ENTRIES,
    ensures
        listing_laws::walked(dirs, entries, out) == match found_in(dirs, entries[0], out) {
            Err(e) => Err(e),
            Ok(more) => listing_laws::walked(dirs, entries.skip(1), more),
        },
{
}

proof fn lemma_path_of_push(dirs: Seq<Seq<char>>, name: Seq<char>)
    ensures
        path_of(dirs.push(name)) == listing::relative_path(dirs, name),
{
    assert(dirs.push(name).drop_last() =~= dirs);
}

/// A walk without an error adds the entries of the files, and nothing else.
proof fn lemma_walked_files(
    dirs: Seq<Seq<char>>,
    entries: Seq<TreeEntry>,
    out: Seq<EntryView>,
    e: EntryView,
)
    ensures
        listing_laws::walked(dirs, entries, out) matches Ok(found) ==> (found.contains(e)
            <==> out.contains(e) || has_file(dirs, entries, e)),
    decreases entries,
{
    lemma_files_split(dirs, entries, e);
    if entries.len() > 0 && out.len() < MAX_LISTED_ENTRIES {
        let x = entries[0];
        let rest = entries.skip(1);
        lemma_walked_step(dirs, entries, out);
        lemma_path_of_push(dirs, x.name);
        match found_in(dirs, x, out) {
            Err(_) => {},
            Ok(more) => {
                assert(more.contains(e) <==> out.contains(e) || is_in(dirs, x, e)) by {
                    if !paths::is_hidden(x.name) {
                        match x.node {
                            Tree::Directory(sub) => {
                                assert(decreases_to!(entries => entries[0]));
                                lemma_walked_files(dirs.push(x.name), sub, out, e);
                            },
                            Tree::File(size, modified_ms) => {
                                let path = listing::relative_path(dirs, x.name);
                                let f = EntryView { path, size, modified_ms };
                                lemma_push_contains(out, f, e);
                            },
                            _ => {},
                        }
                    }
                }
                lemma_walked_files(dirs, rest, more, e);
            },
        }
    }
}

proof fn lemma_push_contains(s: Seq<EntryView>, f: EntryView, e: EntryView)
    ensures
        s.push(f).contains(e) <==> s.contains(e) || e == f,
{
    if s.contains(e) {
        let i = choose|i: int| 0 <= i < s.len() && s[i] == e;
        assert(s.push(f)[i] == e);
    }
    assert(s.push(f)[s.len() as int] == f);
    if s.push(f).contains(e) {
        let i = choose|i: int| 0 <= i < s.push(f).len() && s.push(f)[i] == e;
        if i < s.len() {
            assert(s[i] == e);
        }
    }
}

/// A listing is complete: it holds exactly the regular files of the tree that can
/// be reached by names none of which is hidden and whose path is acceptable, each
/// with its size and its time.
pub proof fn law_listings_are_complete(entries: Seq<TreeEntry>, e: EntryView)
    ensures
        listing_laws::listed(Some(Tree::Directory(entries))) matches Ok(found) ==> (found.contains(
            e,
        ) <==> has_file(Seq::empty(), entries, e)),
{
    let none = Seq::<Seq<char>>::empty();
    match listing_laws::walked(none, entries, Seq::empty()) {
        Ok(found) => {
            lemma_walked_files(none, entries, Seq::empty(), e);
            order::lemma_sorted_contains(found, e);
        },
        Err(_) => {},
    }
}

/// A name without a slash or a backslash.
pub open spec fn is_clean_name(name: Seq<char>) -> bool {
    !name.contains('/') && !name.contains('\\')
}

/// Do the names in each directory differ, and are they free of slashes and
/// backslashes?
pub open spec fn is_clean(entries: Seq<TreeEntry>) -> bool
    decreases entries,
{
    &&& forall|i: int| 0 <= i < entries.len() ==> is_clean_entry(#[trigger] entries[i])
    &&& forall|i: int, j: int|
        0 <= i < j < entries.len() ==> (#[trigger] entries[i]).name != (#[trigger] entries[j]).name
}

/// Is the name clean, and are those below it?
pub open spec fn is_clean_entry(x: TreeEntry) -> bool
    decreases x,
{
    is_clean_name(x.name) && match x.node {
        Tree::Directory(sub) => is_clean(sub),
        _ => true,
    }
}

/// Are all the names clean?
pub open spec fn are_clean(names: Seq<Seq<char>>) -> bool {
    forall|i: int| 0 <= i < names.len() ==> is_clean_name(#[trigger] names[i])
}

proof fn lemma_dir_prefix(dirs: Seq<Seq<char>>)
    requires
        are_clean(dirs),
    ensures
        !listing::dir_prefix(dirs).contains('\\'),
        dirs.len() > 0 ==> listing::dir_prefix(dirs).len() > 0 && listing::dir_prefix(dirs).last()
            == '/',
        dirs.len() == 0 ==> listing::dir_prefix(dirs).len() == 0,
    decreases dirs.len(),
{
    reveal_strlit("/");
    if dirs.len() > 0 {
        let t = dirs.drop_last();
        assert forall|i: int| 0 <= i < t.len() implies is_clean_name(#[trigger] t[i]) by {
            assert(t[i] == dirs[i]);
        }
        lemma_dir_prefix(t);
        let p = listing::dir_prefix(dirs);
        let q = listing::dir_prefix(t);
        assert(is_clean_name(dirs[dirs.len() - 1]));
        if p.contains('\\') {
            let i = choose|i: int| 0 <= i < p.len() && p[i] == '\\';
            if i < q.len() {
                assert(q[i] == '\\');
            } else if i < q.len() + dirs.last().len() {
                assert(dirs.last()[i - q.len()] == '\\');
            }
        }
    }
}

/// The path that clean names spell, with nothing to replace in it.
pub proof fn lemma_clean_path(names: Seq<Seq<char>>)
    requires
        names.len() > 0,
        are_clean(names),
    ensures
        path_of(names) == listing::dir_prefix(names.drop_last()) + names.last(),
        components::after_last_slash(path_of(names)) == listing::dir_prefix(
            names.drop_last(),
        ).len(),
{
    let t = names.drop_last();
    assert forall|i: int| 0 <= i < t.len() implies is_clean_name(#[trigger] t[i]) by {
        assert(t[i] == names[i]);
    }
    lemma_dir_prefix(t);
    let p = listing::dir_prefix(t);
    let name = names.last();
    let whole = p + name;
    assert(is_clean_name(names[names.len() - 1]));
    assert forall|i: int| 0 <= i < whole.len() implies #[trigger] whole[i] != '\\' && (i
        >= p.len() ==> whole[i] != '/') by {
        if i < p.len() {
            assert(p.contains(p[i]));
        } else {
            assert(name.contains(name[i - p.len()]));
        }
    }
    assert(path_of(names) =~= whole);
    components::lemma_after_last_slash(whole);
    let k = components::after_last_slash(whole);
    if k > p.len() {
        assert(whole[k - 1] != '/');
    } else if k < p.len() {
        assert(whole[p.len() - 1] == '/');
    }
}

/// Clean names are told by the path they spell.
pub proof fn lemma_paths_tell_names(a: Seq<Seq<char>>, b: Seq<Seq<char>>)
    requires
        a.len() > 0,
        b.len() > 0,
        are_clean(a),
        are_clean(b),
        path_of(a) == path_of(b),
    ensures
        a == b,
    decreases a.len(),
{
    lemma_clean_path(a);
    lemma_clean_path(b);
    let p = path_of(a);
    let k = components::after_last_slash(p) as int;
    let x = a.drop_last();
    let y = b.drop_last();
    assert(a.last() =~= p.skip(k));
    assert(b.last() =~= p.skip(k));
    assert(listing::dir_prefix(x) =~= p.take(k));
    assert(listing::dir_prefix(y) =~= p.take(k));
    assert forall|i: int| 0 <= i < x.len() implies is_clean_name(#[trigger] x[i]) by {
        assert(x[i] == a[i]);
    }
    assert forall|i: int| 0 <= i < y.len() implies is_clean_name(#[trigger] y[i]) by {
        assert(y[i] == b[i]);
    }
    lemma_dir_prefix(x);
    lemma_dir_prefix(y);
    if x.len() > 0 {
        reveal_strlit("/");
        lemma_clean_path(x);
        lemma_clean_path(y);
        assert(path_of(x) =~= listing::dir_prefix(x).drop_last());
        assert(path_of(y) =~= listing::dir_prefix(y).drop_last());
        lemma_paths_tell_names(x, y);
    } else {
        assert(x =~= y);
    }
    assert(a =~= x.push(a.last()));
    assert(b =~= y.push(b.last()));
}

/// Names that lead somewhere in a clean tree are clean, and begin with the name
/// of an entry.
proof fn lemma_reached_names(entries: Seq<TreeEntry>, names: Seq<Seq<char>>, node: Tree)
    requires
        is_clean(entries),
        reaches(entries, names, node),
    ensures
        are_clean(names),
        exists|i: int| 0 <= i < entries.len() && (#[trigger] entries[i]).name == names[0],
    decreases names.len(),
{
    let i = lemma_way(entries, names, node);
    assert(is_clean_entry(entries[i]));
    if names.len() > 1 {
        match entries[i].node {
            Tree::Directory(sub) => {
                let more = names.skip(1);
                lemma_reached_names(sub, more, node);
                assert forall|k: int| 0 <= k < names.len() implies is_clean_name(
                    #[trigger] names[k],
                ) by {
                    if k > 0 {
                        assert(more[k - 1] == names[k]);
                    }
                }
            },
            _ => {},
        }
    }
}

/// Does no entry found so far have the path of a file still to come?
spec fn is_apart(out: Seq<EntryView>, dirs: Seq<Seq<char>>, entries: Seq<TreeEntry>) -> bool {
    forall|e: EntryView, f: EntryView| #[trigger]
        out.contains(e) && #[trigger] has_file(dirs, entries, f) ==> e.path != f.path
}

/// Files by way of one name and files by way of others have different paths.
proof fn lemma_ways_differ(
    dirs: Seq<Seq<char>>,
    entries: Seq<TreeEntry>,
    e: EntryView,
    f: EntryView,
)
    requires
        are_clean(dirs),
        is_clean(entries),
        entries.len() > 0,
        is_in(dirs, entries[0], e),
        has_file(dirs, entries.skip(1), f),
    ensures
        e.path != f.path,
{
    let x = entries[0];
    let rest = entries.skip(1);
    lemma_clean_rest(entries);
    let b = choose|names: Seq<Seq<char>>| is_file_at(dirs, rest, names, f);
    lemma_reached_names(rest, b, Tree::File(f.size, f.modified_ms));
    let i = choose|i: int| 0 <= i < rest.len() && (#[trigger] rest[i]).name == b[0];
    assert(entries[i + 1] == rest[i]);
    assert(entries[0].name != entries[i + 1].name);
    assert(is_clean_entry(entries[0]));
    let a = match x.node {
        Tree::Directory(sub) => {
            let more = choose|names: Seq<Seq<char>>| is_file_at(dirs.push(x.name), sub, names, e);
            lemma_reached_names(sub, more, Tree::File(e.size, e.modified_ms));
            dirs.push(x.name) + more
        },
        _ => dirs.push(x.name),
    };
    let c = dirs + b;
    assert(e.path == path_of(a));
    assert(a[dirs.len() as int] == x.name);
    assert(c[dirs.len() as int] == b[0]);
    assert forall|k: int| 0 <= k < a.len() implies is_clean_name(#[trigger] a[k]) by {
        if k < dirs.len() {
            assert(a[k] == dirs[k]);
        } else if k > dirs.len() {
            match x.node {
                Tree::Directory(sub) => {
                    let more = choose|names: Seq<Seq<char>>|
                        is_file_at(dirs.push(x.name), sub, names, e);
                    assert(a[k] == more[k - dirs.len() - 1]);
                },
                _ => {},
            }
        }
    }
    assert forall|k: int| 0 <= k < c.len() implies is_clean_name(#[trigger] c[k]) by {
        if k < dirs.len() {
            assert(c[k] == dirs[k]);
        } else {
            assert(c[k] == b[k - dirs.len()]);
        }
    }
    if e.path == f.path {
        lemma_paths_tell_names(a, c);
    }
}

proof fn lemma_clean_rest(entries: Seq<TreeEntry>)
    requires
        is_clean(entries),
        entries.len() > 0,
    ensures
        is_clean(entries.skip(1)),
{
    let rest = entries.skip(1);
    assert forall|i: int| 0 <= i < rest.len() implies is_clean_entry(#[trigger] rest[i]) by {
        assert(rest[i] == entries[i + 1]);
    }
    assert forall|i: int, j: int| 0 <= i < j < rest.len() implies (#[trigger] rest[i]).name != (
    #[trigger] rest[j]).name by {
        assert(entries[i + 1].name != entries[j + 1].name);
    }
}

/// A walk through a clean tree finds no path twice.
proof fn lemma_walked_distinct(
    dirs: Seq<Seq<char>>,
    entries: Seq<TreeEntry>,
    out: Seq<EntryView>,
)
    requires
        are_clean(dirs),
        is_clean(entries),
        order::is_distinct(out),
        is_apart(out, dirs, entries),
    ensures
        listing_laws::walked(dirs, entries, out) matches Ok(found) ==> order::is_distinct(found),
    decreases entries, 1int,
{
    if entries.len() > 0 && out.len() < MAX_LISTED_ENTRIES {
        let x = entries[0];
        let rest = entries.skip(1);
        lemma_walked_step(dirs, entries, out);
        lemma_path_of_push(dirs, x.name);
        lemma_clean_rest(entries);
        assert(is_clean_entry(entries[0]));
        match found_in(dirs, x, out) {
            Err(_) => {},
            Ok(more) => {
                lemma_found_distinct(dirs, entries, out, more);
                lemma_walked_distinct(dirs, rest, more);
            },
        }
    }
}

/// The same of the walk through the first entry; what it finds stays apart from
/// the files of the others.
proof fn lemma_found_distinct(
    dirs: Seq<Seq<char>>,
    entries: Seq<TreeEntry>,
    out: Seq<EntryView>,
    more: Seq<EntryView>,
)
    requires
        entries.len() > 0,
        are_clean(dirs),
        is_clean(entries),
        order::is_distinct(out),
        is_apart(out, dirs, entries),
        found_in(dirs, entries[0], out) == Ok::<Seq<EntryView>, ErrorView>(more),
    ensures
        order::is_distinct(more),
        is_apart(more, dirs, entries.skip(1)),
    decreases entries, 0int,
{
    let x = entries[0];
    let rest = entries.skip(1);
    lemma_path_of_push(dirs, x.name);
    assert(is_clean_entry(entries[0]));
    assert forall|e: EntryView, f: EntryView| #[trigger]
        more.contains(e) && #[trigger] has_file(dirs, rest, f) implies e.path != f.path by {
        lemma_files_of_rest(dirs, entries, f);
        if !out.contains(e) {
            assert(is_in(dirs, x, e)) by {
                match x.node {
                    Tree::Directory(sub) => lemma_walked_files(dirs.push(x.name), sub, out, e),
                    Tree::File(size, modified_ms) => {
                        let path = listing::relative_path(dirs, x.name);
                        lemma_push_contains(out, EntryView { path, size, modified_ms }, e);
                    },
                    _ => {},
                }
            }
            lemma_ways_differ(dirs, entries, e, f);
        }
    }
    if !paths::is_hidden(x.name) {
        match x.node {
            Tree::Directory(sub) => {
                let deeper = dirs.push(x.name);
                assert forall|k: int| 0 <= k < deeper.len() implies is_clean_name(
                    #[trigger] deeper[k],
                ) by {
                    if k < dirs.len() {
                        assert(deeper[k] == dirs[k]);
                    }
                }
                assert forall|e: EntryView, f: EntryView| #[trigger]
                    out.contains(e) && #[trigger] has_file(deeper, sub, f) implies e.path
                    != f.path by {
                    assert(is_in(dirs, x, f));
                    lemma_files_of_first(dirs, entries, f);
                }
                assert(decreases_to!(entries => entries[0]));
                lemma_walked_distinct(deeper, sub, out);
            },
            Tree::File(size, modified_ms) => {
                let path = listing::relative_path(dirs, x.name);
                let f = EntryView { path, size, modified_ms };
                if paths::content_path_error(path) is None {
                    assert(is_in(dirs, x, f));
                    lemma_files_of_first(dirs, entries, f);
                    assert forall|i: int, j: int| 0 <= i < j < more.len() implies (
                    #[trigger] more[i]).path != (#[trigger] more[j]).path by {
                        if j == out.len() {
                            assert(out.contains(out[i]));
                        } else {
                            assert(out[i].path != out[j].path);
                        }
                    }
                }
            },
            _ => {},
        }
    }
}

/// In a listing of a directory whose names differ and hold no slash or backslash,
/// the paths go strictly up: no path comes twice.
pub proof fn law_listings_go_strictly_up(entries: Seq<TreeEntry>)
    requires
        is_clean(entries),
    ensures
        listing_laws::listed(Some(Tree::Directory(entries))) matches Ok(found)
            ==> order::is_sorted(found) && order::is_distinct(found),
{
    let none = Seq::<Seq<char>>::empty();
    lemma_walked_distinct(none, entries, Seq::empty());
    match listing_laws::walked(none, entries, Seq::empty()) {
        Ok(found) => {
            order::law_sorted_entries(found);
            order::lemma_sorted_distinct(found);
        },
        Err(_) => {},
    }
}

/// How many entries there are, those below them included.
pub open spec fn entry_count(entries: Seq<TreeEntry>) -> nat
    decreases entries,
{
    if entries.len() == 0 {
        0
    } else {
        1 + entry_count(entries.skip(1)) + match entries[0].node {
            Tree::Directory(sub) => entry_count(sub),
            _ => 0,
        }
    }
}

/// Are directories nested no deeper than so many?
pub open spec fn is_shallow(entries: Seq<TreeEntry>, room: int) -> bool
    decreases entries,
{
    entries.len() == 0 || {
        &&& is_shallow(entries.skip(1), room)
        &&& match entries[0].node {
            Tree::Directory(sub) => room > 0 && is_shallow(sub, room - 1),
            _ => true,
        }
    }
}

proof fn lemma_small_trees_are_walked(
    dirs: Seq<Seq<char>>,
    entries: Seq<TreeEntry>,
    out: Seq<EntryView>,
)
    requires
        out.len() + entry_count(entries) <= MAX_LISTED_ENTRIES,
        is_shallow(entries, MAX_LIST_DEPTH - dirs.len()),
    ensures
        listing_laws::walked(dirs, entries, out) matches Ok(found) && found.len() <= out.len()
            + entry_count(entries),
    decreases entries,
{
    if entries.len() > 0 {
        let x = entries[0];
        let rest = entries.skip(1);
        lemma_walked_step(dirs, entries, out);
        assert(found_in(dirs, x, out) matches Ok(more) && more.len() + entry_count(rest) <= out.len()
            + entry_count(entries)) by {
            if !paths::is_hidden(x.name) {
                match x.node {
                    Tree::Directory(sub) => {
                        assert(decreases_to!(entries => entries[0]));
                        lemma_small_trees_are_walked(dirs.push(x.name), sub, out);
                    },
                    _ => {},
                }
            }
        }
        lemma_small_trees_are_walked(dirs, rest, found_in(dirs, x, out)->Ok_0);
    }
}

/// A directory with at most ten thousand entries in all, nested at most thirty-two
/// deep, is listed without an error.
pub proof fn law_small_trees_are_listed(entries: Seq<TreeEntry>)
    requires
        entry_count(entries) <= 10_000,
        is_shallow(entries, 32),
    ensures
        listing_laws::listed(Some(Tree::Directory(entries))) is Ok,
{
    lemma_small_trees_are_walked(Seq::empty(), entries, Seq::empty());
}

proof fn lemma_walked_depth(
    dirs: Seq<Seq<char>>,
    entries: Seq<TreeEntry>,
    out: Seq<EntryView>,
    names: Seq<Seq<char>>,
    sub: Seq<TreeEntry>,
)
    requires
        listing_laws::walked(dirs, entries, out) is Ok,
        reaches(entries, names, Tree::Directory(sub)),
        none_hidden(names),
    ensures
        dirs.len() + names.len() <= MAX_LIST_DEPTH,
    decreases entries,
{
    let node = Tree::Directory(sub);
    let i = lemma_way(entries, names, node);
    let x = entries[0];
    let rest = entries.skip(1);
    lemma_walked_step(dirs, entries, out);
    let more = found_in(dirs, x, out)->Ok_0;
    if i > 0 {
        assert(rest[i - 1] == entries[i]);
        assert(reaches_by(rest, names, node, i - 1));
        lemma_walked_depth(dirs, rest, more, names, sub);
    } else {
        assert(!paths::is_hidden(names[0]));
        if names.len() > 1 {
            match x.node {
                Tree::Directory(below) => {
                    let deeper = names.skip(1);
                    assert forall|k: int| 0 <= k < deeper.len() implies !paths::is_hidden(
                        #[trigger] deeper[k],
                    ) by {
                        assert(deeper[k] == names[k + 1]);
                    }
                    assert(decreases_to!(entries => entries[0]));
                    lemma_walked_depth(dirs.push(x.name), below, out, deeper, sub);
                },
                _ => {},
            }
        }
    }
}

/// A directory that is nested deeper than thirty-two, and not hidden, makes a listing
/// fail.
pub proof fn law_deep_trees_are_refused(
    entries: Seq<TreeEntry>,
    names: Seq<Seq<char>>,
    sub: Seq<TreeEntry>,
)
    requires
        reaches(entries, names, Tree::Directory(sub)),
        none_hidden(names),
        names.len() > 32,
    ensures
        listing_laws::listed(Some(Tree::Directory(entries))) is Err,
{
    if listing_laws::walked(Seq::empty(), entries, Seq::empty()) is Ok {
        lemma_walked_depth(Seq::empty(), entries, Seq::empty(), names, sub);
    }
}

proof fn lemma_walked_errors(dirs: Seq<Seq<char>>, entries: Seq<TreeEntry>, out: Seq<EntryView>)
    ensures
        listing_laws::walked(dirs, entries, out) matches Err(e) ==> e == ErrorView::Message(
            "content listing exceeds limit"@,
        ) || e == ErrorView::InvalidPath("directory tree too deep"@),
    decreases entries,
{
    if entries.len() > 0 && out.len() < MAX_LISTED_ENTRIES {
        let x = entries[0];
        lemma_walked_step(dirs, entries, out);
        match x.node {
            Tree::Directory(sub) => {
                assert(decreases_to!(entries => entries[0]));
                lemma_walked_errors(dirs.push(x.name), sub, out);
            },
            _ => {},
        }
        match found_in(dirs, x, out) {
            Ok(more) => lemma_walked_errors(dirs, entries.skip(1), more),
            Err(_) => {},
        }
    }
}

/// What a listing comes to where it is no list of files: nothing where the directory
/// is missing or a symbolic link, and an error where it is something else, is nested
/// too deep or holds too much.
pub proof fn law_listings_without_files(entries: Seq<TreeEntry>, size: u64, time: Option<u64>)
    ensures
        listing_laws::listed(None) == Ok::<Seq<EntryView>, ErrorView>(Seq::empty()),
        listing_laws::listed(Some(Tree::Link)) == Ok::<Seq<EntryView>, ErrorView>(Seq::empty()),
        listing_laws::listed(Some(Tree::File(size, time))) matches Err(e) && e is Io,
        listing_laws::listed(Some(Tree::Other)) matches Err(e) && e is Io,
        listing_laws::listed(Some(Tree::Directory(entries))) matches Err(e) ==> e
            == ErrorView::Message("content listing exceeds limit"@) || e == ErrorView::InvalidPath(
            "directory tree too deep"@,
        ),
{
    lemma_walked_errors(Seq::empty(), entries, Seq::empty());
}

} // verus!
