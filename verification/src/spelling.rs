//! The path that the names of a content path spell, with one slash between each
//! two of them.

use vstd::prelude::*;

use crate::components;
use crate::components::ComponentView;
use crate::listing;
use crate::paths;
use crate::resolve_laws;
use crate::route_laws;
use crate::store_laws;
use crate::text;
use crate::tree_laws;

verus! {

/// The names that the components have.
pub open spec fn plain_names(comps: Seq<ComponentView>) -> Seq<Seq<char>> {
    comps.map_values(|c: ComponentView| resolve_laws::name_of(c))
}

/// The path that the names of `rel` spell: that under which a listing shows what
/// is stored as `rel`.
pub open spec fn spelled(rel: Seq<char>) -> Seq<char> {
    tree_laws::path_of(plain_names(store_laws::names_of(rel)))
}

/// Are all the components plain names without a backslash?
pub open spec fn are_plain(comps: Seq<ComponentView>) -> bool {
    forall|i: int|
        0 <= i < comps.len() ==> route_laws::is_plain(#[trigger] comps[i])
            && !resolve_laws::name_of(comps[i]).contains('\\')
}

proof fn lemma_plain_names_are_clean(comps: Seq<ComponentView>)
    requires
        are_plain(comps),
    ensures
        tree_laws::are_clean(plain_names(comps)),
{
    let names = plain_names(comps);
    assert forall|i: int| 0 <= i < names.len() implies tree_laws::is_clean_name(
        #[trigger] names[i],
    ) by {
        assert(route_laws::is_plain(comps[i]));
    }
}

/// The path that plain names spell has these names, and begins and ends as they
/// do.
proof fn lemma_spelling(comps: Seq<ComponentView>)
    requires
        comps.len() > 0,
        are_plain(comps),
    ensures
        ({
            let path = tree_laws::path_of(plain_names(comps));
            &&& components::components(path) == comps
            &&& path.len() > 0
            &&& path[0] == resolve_laws::name_of(comps[0])[0]
            &&& path.last() == resolve_laws::name_of(comps.last()).last()
            &&& listing::dir_prefix(plain_names(comps)) == path.push('/')
        }),
    decreases comps.len(),
{
    let names = plain_names(comps);
    let name = resolve_laws::name_of(comps.last());
    let above = comps.drop_last();
    let empty = Seq::<char>::empty();
    reveal_strlit("/");
    lemma_plain_names_are_clean(comps);
    tree_laws::lemma_clean_path(names);
    assert(route_laws::is_plain(comps[comps.len() - 1]));
    assert(names.last() == name);
    assert(names.drop_last() =~= plain_names(above));
    let path = tree_laws::path_of(names);
    assert(listing::dir_prefix(names) =~= path.push('/'));
    if above.len() == 0 {
        assert(path =~= components::join(empty, name));
        components::lemma_components_of_join(empty, name);
        assert(components::components(empty) =~= Seq::<ComponentView>::empty()) by {
            assert(components::first_slash(empty) == 0);
        }
    } else {
        assert forall|i: int| 0 <= i < above.len() implies route_laws::is_plain(
            #[trigger] above[i],
        ) && !resolve_laws::name_of(above[i]).contains('\\') by {
            assert(above[i] == comps[i]);
        }
        lemma_spelling(above);
        let dir = tree_laws::path_of(plain_names(above));
        assert(dir.last() != '/') by {
            let last = resolve_laws::name_of(above.last());
            assert(route_laws::is_plain(above[above.len() - 1]));
            assert(last.contains(last[last.len() - 1]));
        }
        assert(path =~= components::join(dir, name));
        components::lemma_components_of_join(dir, name);
    }
    assert(components::components(path) =~= comps);
}

/// What a spelled path is made of.
proof fn lemma_spelled_chars(comps: Seq<ComponentView>, c: char)
    requires
        comps.len() > 0,
        are_plain(comps),
        tree_laws::path_of(plain_names(comps)).contains(c),
        c != '/',
    ensures
        exists|i: int|
            0 <= i < comps.len() && resolve_laws::name_of(#[trigger] comps[i]).contains(c),
    decreases comps.len(),
{
    let names = plain_names(comps);
    let name = resolve_laws::name_of(comps.last());
    let above = comps.drop_last();
    lemma_plain_names_are_clean(comps);
    tree_laws::lemma_clean_path(names);
    assert(names.drop_last() =~= plain_names(above));
    let path = tree_laws::path_of(names);
    let prefix = listing::dir_prefix(plain_names(above));
    let k = choose|k: int| 0 <= k < path.len() && path[k] == c;
    if k >= prefix.len() {
        assert(name[k - prefix.len()] == c);
        assert(resolve_laws::name_of(comps[comps.len() - 1]).contains(c));
    } else {
        assert(prefix[k] == c);
        assert(above.len() > 0);
        assert forall|i: int| 0 <= i < above.len() implies route_laws::is_plain(
            #[trigger] above[i],
        ) && !resolve_laws::name_of(above[i]).contains('\\') by {
            assert(above[i] == comps[i]);
        }
        lemma_spelling(above);
        let dir = tree_laws::path_of(plain_names(above));
        assert(dir[k] == c);
        lemma_spelled_chars(above, c);
        let i = choose|i: int|
            0 <= i < above.len() && resolve_laws::name_of(#[trigger] above[i]).contains(c);
        assert(above[i] == comps[i]);
    }
}

/// The bytes that the names take, each with a slash behind it.
spec fn bytes_of(comps: Seq<ComponentView>) -> nat
    decreases comps.len(),
{
    if comps.len() == 0 {
        0
    } else {
        bytes_of(comps.drop_last()) + match comps.last() {
            ComponentView::Normal(name) => text::utf8_len(name) + 1,
            _ => 0,
        }
    }
}

proof fn lemma_bytes_concat(a: Seq<ComponentView>, b: Seq<ComponentView>)
    ensures
        bytes_of(a + b) == bytes_of(a) + bytes_of(b),
    decreases b.len(),
{
    if b.len() == 0 {
        assert(a + b =~= a);
    } else {
        assert((a + b).drop_last() =~= a + b.drop_last());
        lemma_bytes_concat(a, b.drop_last());
    }
}

proof fn lemma_bytes_of_spelling(comps: Seq<ComponentView>)
    requires
        are_plain(comps),
    ensures
        text::utf8_len(listing::dir_prefix(plain_names(comps))) == bytes_of(comps),
    decreases comps.len(),
{
    let names = plain_names(comps);
    if comps.len() == 0 {
        text::lemma_utf8_len_bound(listing::dir_prefix(names));
    } else {
        let above = comps.drop_last();
        assert forall|i: int| 0 <= i < above.len() implies route_laws::is_plain(
            #[trigger] above[i],
        ) && !resolve_laws::name_of(above[i]).contains('\\') by {
            assert(above[i] == comps[i]);
        }
        lemma_bytes_of_spelling(above);
        reveal_strlit("/");
        assert(names.drop_last() =~= plain_names(above));
        assert(route_laws::is_plain(comps[comps.len() - 1]));
        let a = listing::dir_prefix(plain_names(above));
        let name = resolve_laws::name_of(comps.last());
        assert(names.last() == name);
        assert(listing::dir_prefix(names) =~= (a + name).push('/'));
        text::lemma_encode_concat(a, name);
        text::lemma_utf8_len_push(a + name, '/');
    }
}

/// A path takes at least the bytes that its names and the slashes between them
/// take.
proof fn lemma_bytes_of_path(s: Seq<char>, leading: bool)
    ensures
        bytes_of(components::piece_components(s, leading)) <= text::utf8_len(s) + 1,
    decreases s.len(),
{
    components::lemma_first_slash(s);
    let n = components::first_slash(s) as int;
    let piece = s.take(n);
    let head = components::as_seq(components::piece_component(piece, leading));
    assert(bytes_of(head) <= text::utf8_len(piece) + 1) by {
        if head.len() > 0 {
            assert(head.drop_last() =~= Seq::<ComponentView>::empty());
            assert(bytes_of(head.drop_last()) == 0);
        }
    }
    if n < s.len() {
        let rest = s.skip(n + 1);
        lemma_bytes_of_path(rest, false);
        lemma_bytes_concat(head, components::piece_components(rest, false));
        assert(s =~= piece.push('/') + rest);
        text::lemma_encode_concat(piece.push('/'), rest);
        text::lemma_utf8_len_push(piece, '/');
    } else {
        assert(piece =~= s);
    }
}

/// What the components of a path are made of is in the path.
proof fn lemma_component_chars(s: Seq<char>, leading: bool, i: int, c: char)
    requires
        0 <= i < components::piece_components(s, leading).len(),
        components::piece_components(s, leading)[i] matches ComponentView::Normal(name)
            && name.contains(c),
    ensures
        s.contains(c),
    decreases s.len(),
{
    components::lemma_first_slash(s);
    let n = components::first_slash(s) as int;
    let piece = s.take(n);
    let head = components::as_seq(components::piece_component(piece, leading));
    if i < head.len() {
        let k = choose|k: int| 0 <= k < piece.len() && piece[k] == c;
        assert(s[k] == c);
    } else {
        let rest = s.skip(n + 1);
        lemma_component_chars(rest, false, i - head.len(), c);
        let k = choose|k: int| 0 <= k < rest.len() && rest[k] == c;
        assert(s[k + n + 1] == c);
    }
}

/// A path that ends in a blank has a last name that does.
proof fn lemma_blank_end(s: Seq<char>, leading: bool)
    requires
        s.len() > 0,
        text::is_white_space(s.last()),
    ensures
        ({
            let comps = components::piece_components(s, leading);
            comps.len() > 0 && (comps.last() matches ComponentView::Normal(name) && name.len() > 0
                && name.last() == s.last())
        }),
    decreases s.len(),
{
    components::lemma_first_slash(s);
    let n = components::first_slash(s) as int;
    let piece = s.take(n);
    if n < s.len() {
        let rest = s.skip(n + 1);
        assert(rest.last() == s.last());
        lemma_blank_end(rest, false);
    } else {
        assert(piece =~= s);
        assert(piece.last() == s.last());
    }
}

/// A path that begins with a blank has a first name that does.
proof fn lemma_blank_start(s: Seq<char>)
    requires
        s.len() > 0,
        text::is_white_space(s[0]),
    ensures
        ({
            let comps = components::components(s);
            comps.len() > 0 && (comps[0] matches ComponentView::Normal(name) && name.len() > 0
                && name[0] == s[0])
        }),
{
    components::lemma_first_slash(s);
    let n = components::first_slash(s) as int;
    let piece = s.take(n);
    assert(n > 0);
    assert(piece[0] == s[0]);
    assert(components::components(s)[0] == components::as_seq(
        components::piece_component(piece, true),
    )[0]);
}

/// The names of an accepted path hold no backslash.
pub proof fn lemma_names_are_plain(rel: Seq<char>)
    requires
        paths::content_path_error(rel) is None,
    ensures
        store_laws::names_of(rel).len() > 0,
        are_plain(store_laws::names_of(rel)),
        tree_laws::are_clean(plain_names(store_laws::names_of(rel))),
{
    let comps = store_laws::names_of(rel);
    store_laws::lemma_names(rel);
    route_laws::law_accepted_content_paths(rel);
    assert forall|i: int| 0 <= i < comps.len() implies route_laws::is_plain(#[trigger] comps[i])
        && !resolve_laws::name_of(comps[i]).contains('\\') by {
        assert(route_laws::is_plain(comps[i]));
        if resolve_laws::name_of(comps[i]).contains('\\') {
            lemma_name_chars(rel, i, '\\');
        }
    }
    lemma_plain_names_are_clean(comps);
}

/// What the names of a path are made of is in the path.
proof fn lemma_name_chars(rel: Seq<char>, i: int, c: char)
    requires
        0 <= i < store_laws::names_of(rel).len(),
        route_laws::is_plain(store_laws::names_of(rel)[i]),
        resolve_laws::name_of(store_laws::names_of(rel)[i]).contains(c),
    ensures
        rel.contains(c),
{
    let w = text::without_leading_slashes(rel);
    let n = text::lemma_without_leading_slashes(rel);
    lemma_component_chars(w, true, i, c);
    let k = choose|k: int| 0 <= k < w.len() && w[k] == c;
    assert(rel[k + n] == c);
}

/// The names of an accepted path spell an accepted path with the same names,
/// none of them hidden, unless it has blanks at an end.
pub proof fn law_spelled_paths_are_accepted(rel: Seq<char>)
    requires
        paths::content_path_error(rel) is None,
        text::trimmed(spelled(rel)) == spelled(rel),
    ensures
        paths::content_path_error(spelled(rel)) is None,
        spelled(rel)[0] != '/',
        store_laws::names_of(spelled(rel)) == store_laws::names_of(rel),
        tree_laws::none_hidden(plain_names(store_laws::names_of(rel))),
{
    let comps = store_laws::names_of(rel);
    let path = spelled(rel);
    let w = text::without_leading_slashes(rel);
    let n = text::lemma_without_leading_slashes(rel);
    lemma_names_are_plain(rel);
    lemma_spelling(comps);
    assert(route_laws::is_plain(comps[0]));
    assert(path[0] != '/') by {
        let first = resolve_laws::name_of(comps[0]);
        assert(first.contains(first[0]));
    }
    text::lemma_trimmed_idempotent(path);
    assert(w.len() > 0) by {
        if w.len() == 0 {
            components::lemma_first_slash(w);
        }
    }
    if text::is_white_space(w[0]) {
        lemma_blank_start(w);
    }
    if text::is_white_space(w.last()) {
        lemma_blank_end(w, true);
    }
    assert(rel.last() == w.last());
    assert(rel[0] == '/' || rel[0] == w[0]);
    text::lemma_trimmed_unchanged(rel);
    assert(paths::cleaned(rel) == w);
    assert(paths::cleaned(path) == path);
    route_laws::law_accepted_content_paths(rel);
    lemma_bytes_of_path(w, true);
    lemma_bytes_of_spelling(comps);
    text::lemma_utf8_len_push(path, '/');
    assert forall|c: char| path.contains(c) && c != '/' implies rel.contains(c) by {
        lemma_spelled_chars(comps, c);
        let i = choose|i: int|
            0 <= i < comps.len() && resolve_laws::name_of(#[trigger] comps[i]).contains(c);
        lemma_name_chars(rel, i, c);
    }
    assert(!text::has_control(path)) by {
        assert forall|i: int| 0 <= i < path.len() implies !text::is_control(#[trigger] path[i]) by {
            assert(path.contains(path[i]));
            if path[i] != '/' {
                let k = choose|k: int| 0 <= k < rel.len() && rel[k] == path[i];
                assert(!text::is_control(rel[k]));
            }
        }
    }
    route_laws::law_accepted_content_paths(path);
    let names = plain_names(comps);
    assert forall|i: int| 0 <= i < names.len() implies !paths::is_hidden(#[trigger] names[i]) by {
        assert(route_laws::is_servable_name(comps[i]));
    }
}

/// Names are spelled with one slash between each two: a single name as it is, one
/// more name behind a slash.
pub proof fn law_names_are_joined_by_slashes(comps: Seq<ComponentView>, name: Seq<char>)
    requires
        are_plain(comps),
        components::is_plain_name(name),
        !name.contains('\\'),
    ensures
        comps.len() == 0 ==> tree_laws::path_of(
            plain_names(comps.push(ComponentView::Normal(name))),
        ) == name,
        comps.len() > 0 ==> tree_laws::path_of(
            plain_names(comps.push(ComponentView::Normal(name))),
        ) == tree_laws::path_of(plain_names(comps)) + seq!['/'] + name,
{
    let all = comps.push(ComponentView::Normal(name));
    let names = plain_names(all);
    assert forall|i: int| 0 <= i < all.len() implies route_laws::is_plain(#[trigger] all[i])
        && !resolve_laws::name_of(all[i]).contains('\\') by {
        if i < comps.len() {
            assert(all[i] == comps[i]);
        }
    }
    lemma_plain_names_are_clean(all);
    tree_laws::lemma_clean_path(names);
    assert(names.drop_last() =~= plain_names(comps));
    assert(names.last() == name);
    if comps.len() == 0 {
        assert(tree_laws::path_of(names) =~= name);
    } else {
        lemma_spelling(comps);
        assert(tree_laws::path_of(names) =~= tree_laws::path_of(plain_names(comps)) + seq!['/']
            + name);
    }
}

/// A path that is spelled with one slash between each two of its names is the path
/// its names spell.
pub proof fn law_spelled_paths_spell_themselves(rel: Seq<char>)
    requires
        paths::content_path_error(rel) is None,
        text::trimmed(spelled(rel)) == spelled(rel),
    ensures
        spelled(spelled(rel)) == spelled(rel),
{
    law_spelled_paths_are_accepted(rel);
}

} // verus!
