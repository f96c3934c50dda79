//! What holds of routes and content paths as a whole.

use vstd::prelude::*;
use vstd::utf8::*;

use crate::components;
use crate::components::ComponentView;
use crate::error::ErrorView;
use crate::paths;
use crate::paths::DEFAULT_INDEX_ROUTE;
use crate::paths::FILE_PREFIX;
use crate::paths::MAX_COMPONENT_BYTES;
use crate::paths::MAX_PATH_COMPONENTS;
use crate::paths::MAX_REL_PATH_BYTES;
use crate::paths::PAGE_PREFIX;
use crate::text;

verus! {

/// A prefix that starts and ends with a slash, and a default name that ends in
/// something other than white space.
spec fn well_shaped(prefix: Seq<char>, index: Option<Seq<char>>) -> bool {
    &&& prefix.len() > 0
    &&& prefix[0] == '/'
    &&& prefix.last() == '/'
    &&& forall|i: int| 0 <= i < prefix.len() ==> !text::is_white_space(#[trigger] prefix[i])
    &&& forall|i: int| 0 <= i < prefix.len() ==> !text::is_control(#[trigger] prefix[i])
    &&& !prefix.contains('\0')
    &&& !prefix.contains('\\')
    &&& match index {
        Some(name) => name.len() > 0 && !text::is_white_space(name.last()),
        None => true,
    }
}

proof fn lemma_page_shape()
    ensures
        well_shaped(PAGE_PREFIX@, Some("index.mu"@)),
{
    reveal_strlit("/page/");
    reveal_strlit("index.mu");
    assert(PAGE_PREFIX@ =~= seq!['/', 'p', 'a', 'g', 'e', '/']);
}

proof fn lemma_file_shape()
    ensures
        well_shaped(FILE_PREFIX@, None),
{
    reveal_strlit("/file/");
    assert(FILE_PREFIX@ =~= seq!['/', 'f', 'i', 'l', 'e', '/']);
}

/// A normal form is trimmed and starts with its prefix.
proof fn lemma_normal_form(
    path: Seq<char>,
    prefix: Seq<char>,
    index: Option<Seq<char>>,
    kind: Seq<char>,
)
    requires
        well_shaped(prefix, index),
        paths::normalized(path, prefix, index, kind) is Ok,
    ensures
        ({
            let route = paths::normalized(path, prefix, index, kind)->Ok_0;
            &&& text::trimmed(route) == route
            &&& prefix.is_prefix_of(route)
            &&& route.len() > prefix.len()
            &&& paths::stripped(route, prefix, kind) == Ok::<Seq<char>, ErrorView>(
                route.skip(prefix.len() as int),
            )
            &&& paths::content_path_error(route.skip(prefix.len() as int)) is None
            &&& paths::character_error(route, "route"@) is None
            &&& route == prefix + route.skip(prefix.len() as int)
        }),
{
    let given = text::trimmed(path);
    text::lemma_trimmed_idempotent(path);
    let route = paths::normalized(path, prefix, index, kind)->Ok_0;
    assert(prefix =~= route.subrange(0, prefix.len() as int)) by {
        if prefix.is_prefix_of(given) {
        } else {
            assert(route.len() >= prefix.len());
        }
    }
    assert(route[0] == prefix[0]) by {
        assert(prefix[0] == route.subrange(0, prefix.len() as int)[0]);
    }
    if route.len() == prefix.len() {
        assert(route =~= prefix);
        text::lemma_trimmed_unchanged(route);
        assert(false);
    }
    assert(!text::is_white_space(route.last()));
    text::lemma_trimmed_unchanged(route);
    assert(route =~= prefix + route.skip(prefix.len() as int));
}

proof fn lemma_normal_form_is_fixed(
    path: Seq<char>,
    prefix: Seq<char>,
    index: Option<Seq<char>>,
    kind: Seq<char>,
)
    requires
        well_shaped(prefix, index),
        paths::normalized(path, prefix, index, kind) is Ok,
    ensures
        paths::normalized(
            paths::normalized(path, prefix, index, kind)->Ok_0,
            prefix,
            index,
            kind,
        ) == paths::normalized(path, prefix, index, kind),
{
    lemma_normal_form(path, prefix, index, kind);
}

/// Normalizing a normalized page route changes nothing.
pub proof fn law_page_route_is_stable(path: Seq<char>)
    requires
        paths::page_route(path) is Ok,
    ensures
        paths::page_route(paths::page_route(path)->Ok_0) == paths::page_route(path),
{
    lemma_page_shape();
    lemma_normal_form_is_fixed(path, PAGE_PREFIX@, Some("index.mu"@), "page"@);
}

/// Normalizing a normalized file route changes nothing.
pub proof fn law_file_route_is_stable(path: Seq<char>)
    requires
        paths::file_route(path) is Ok,
    ensures
        paths::file_route(paths::file_route(path)->Ok_0) == paths::file_route(path),
{
    lemma_file_shape();
    lemma_normal_form_is_fixed(path, FILE_PREFIX@, None, "file"@);
}

/// Every normalized page route is `/page/` followed by a valid relative path,
/// and stripping the prefix gives that path back.
pub proof fn law_page_route_strips_to_its_path(path: Seq<char>)
    requires
        paths::page_route(path) is Ok,
    ensures
        ({
            let route = paths::page_route(path)->Ok_0;
            let rel = route.skip(PAGE_PREFIX@.len() as int);
            &&& paths::page_relative(route) == Ok::<Seq<char>, ErrorView>(rel)
            &&& route == PAGE_PREFIX@ + rel
            &&& paths::content_path_error(rel) is None
        }),
{
    lemma_page_shape();
    lemma_normal_form(path, PAGE_PREFIX@, Some("index.mu"@), "page"@);
}

/// Every normalized file route is `/file/` followed by a valid relative path,
/// and stripping the prefix gives that path back.
pub proof fn law_file_route_strips_to_its_path(path: Seq<char>)
    requires
        paths::file_route(path) is Ok,
    ensures
        ({
            let route = paths::file_route(path)->Ok_0;
            let rel = route.skip(FILE_PREFIX@.len() as int);
            &&& paths::file_relative(route) == Ok::<Seq<char>, ErrorView>(rel)
            &&& route == FILE_PREFIX@ + rel
            &&& paths::content_path_error(rel) is None
        }),
{
    lemma_file_shape();
    lemma_normal_form(path, FILE_PREFIX@, None, "file"@);
}

proof fn lemma_stored_path_route(
    rel: Seq<char>,
    prefix: Seq<char>,
    index: Option<Seq<char>>,
    kind: Seq<char>,
)
    requires
        well_shaped(prefix, index),
        paths::content_path_error(rel) is None,
        text::trimmed(rel) == rel,
        rel[0] != '/',
    ensures
        paths::normalized(rel, prefix, index, kind) == Ok::<Seq<char>, ErrorView>(prefix + rel),
{
    assert(rel.len() > 0) by {
        if rel.len() == 0 {
            assert(text::without_leading_slashes(rel) == rel);
        }
    }
    text::lemma_trimmed_idempotent(rel);
    let route = prefix + rel;
    if prefix.is_prefix_of(rel) {
        assert(rel.subrange(0, prefix.len() as int)[0] == rel[0]);
        assert(false);
    }
    let bare = text::without_end_slashes(prefix);
    assert(rel != bare) by {
        lemma_end_slashes_keep_start(prefix);
        if rel == bare {
            assert(bare[0] == '/');
        }
    }
    assert(route[0] == '/');
    assert(route.last() == rel.last());
    text::lemma_trimmed_unchanged(route);
    assert(paths::cleaned(rel) == rel);
    assert(paths::character_error(rel, "path"@) is None);
    assert(!route.contains('\0') && !route.contains('\\')) by {
        assert forall|c: char| route.contains(c) implies prefix.contains(c) || rel.contains(c) by {
            let i = choose|i: int| 0 <= i < route.len() && route[i] == c;
            if i < prefix.len() {
                assert(prefix[i] == c);
            } else {
                assert(rel[i - prefix.len()] == c);
            }
        }
    }
    assert(!text::has_control(route)) by {
        assert forall|i: int| 0 <= i < route.len() implies !text::is_control(
            #[trigger] route[i],
        ) by {
            if i < prefix.len() {
                assert(!text::is_control(prefix[i]));
            } else {
                assert(route[i] == rel[i - prefix.len()]);
                assert(!text::is_control(rel[i - prefix.len()]));
            }
        }
    }
    assert(route.subrange(0, prefix.len() as int) =~= prefix);
    assert(route.skip(prefix.len() as int) =~= rel);
}

proof fn lemma_end_slashes_keep_start(s: Seq<char>)
    ensures
        text::without_end_slashes(s).is_prefix_of(s),
    decreases s.len(),
{
    if s.len() > 0 && s.last() == '/' {
        lemma_end_slashes_keep_start(s.drop_last());
        let t = text::without_end_slashes(s.drop_last());
        assert(s.subrange(0, t.len() as int) =~= s.drop_last().subrange(0, t.len() as int));
    } else {
        assert(s.subrange(0, s.len() as int) =~= s);
    }
}

/// A page stored as `rel` is served as `/page/rel`.
pub proof fn law_stored_page_has_its_route(rel: Seq<char>)
    requires
        paths::content_path_error(rel) is None,
        text::trimmed(rel) == rel,
        rel[0] != '/',
    ensures
        paths::page_route(rel) == Ok::<Seq<char>, ErrorView>(PAGE_PREFIX@ + rel),
{
    lemma_page_shape();
    lemma_stored_path_route(rel, PAGE_PREFIX@, Some("index.mu"@), "page"@);
}

/// A file stored as `rel` is served as `/file/rel`.
pub proof fn law_stored_file_has_its_route(rel: Seq<char>)
    requires
        paths::content_path_error(rel) is None,
        text::trimmed(rel) == rel,
        rel[0] != '/',
    ensures
        paths::file_route(rel) == Ok::<Seq<char>, ErrorView>(FILE_PREFIX@ + rel),
{
    lemma_file_shape();
    lemma_stored_path_route(rel, FILE_PREFIX@, None, "file"@);
}

/// A name that may be served: not too long, no control codes, not hidden.
pub open spec fn is_servable_name(c: ComponentView) -> bool {
    match c {
        ComponentView::Normal(name) => {
            &&& text::utf8_len(name) <= MAX_COMPONENT_BYTES
            &&& !text::has_control(name)
            &&& !paths::is_hidden(name)
        },
        _ => false,
    }
}

spec fn servable_at(comps: Seq<ComponentView>, j: int) -> bool {
    j < MAX_PATH_COMPONENTS && is_servable_name(comps[j])
}

proof fn lemma_no_component_error(comps: Seq<ComponentView>, i: nat)
    ensures
        paths::first_component_error(comps, i) is None <==> (forall|j: int|
            i <= j < comps.len() ==> #[trigger] servable_at(comps, j)),
    decreases comps.len() - i,
{
    if i < comps.len() {
        lemma_no_component_error(comps, i + 1);
        let here = paths::component_error(comps[i as int], i + 1) is None;
        let rest = paths::first_component_error(comps, i + 1) is None;
        assert(here <==> servable_at(comps, i as int));
        assert(paths::first_component_error(comps, i) is None <==> here && rest);
        if here && rest {
            assert forall|j: int| i <= j < comps.len() implies #[trigger] servable_at(comps, j) by {
                if j > i {
                    assert(i + 1 <= j);
                }
            }
        } else if here {
            let j = choose|j: int| i + 1 <= j < comps.len() && !servable_at(comps, j);
            assert(!servable_at(comps, j));
        }
    }
}

/// Exactly these content paths are accepted: free of NUL, backslash and control
/// codes from end to end, and, blanks around them and leading slashes aside, not
/// empty, at most `MAX_REL_PATH_BYTES` long, with at most `MAX_PATH_COMPONENTS` components,
/// all of them servable names. In particular no `..`, no `.` at the start, no
/// dotfile and no `*.allowed`.
pub proof fn law_accepted_content_paths(rel: Seq<char>)
    ensures
        paths::content_path_error(rel) is None <==> ({
            let path = paths::cleaned(rel);
            let comps = components::components(path);
            &&& path.len() > 0
            &&& text::utf8_len(path) <= MAX_REL_PATH_BYTES
            &&& !rel.contains('\0')
            &&& !rel.contains('\\')
            &&& !text::has_control(rel)
            &&& comps.len() <= MAX_PATH_COMPONENTS
            &&& forall|j: int| 0 <= j < comps.len() ==> is_servable_name(#[trigger] comps[j])
        }),
{
    let comps = components::components(paths::cleaned(rel));
    lemma_no_component_error(comps, 0);
    if paths::first_component_error(comps, 0) is None {
        if comps.len() > MAX_PATH_COMPONENTS {
            assert(servable_at(comps, MAX_PATH_COMPONENTS as int));
        }
        assert forall|j: int| 0 <= j < comps.len() implies is_servable_name(
            #[trigger] comps[j],
        ) by {
            assert(servable_at(comps, j));
        }
    }
    if comps.len() <= MAX_PATH_COMPONENTS && (forall|j: int|
        0 <= j < comps.len() ==> is_servable_name(#[trigger] comps[j])) {
        assert forall|j: int| 0 <= j < comps.len() implies #[trigger] servable_at(comps, j) by {
            assert(is_servable_name(comps[j]));
        }
    }
}

/// All components of the pieces of `s` are normal.
spec fn all_normal(s: Seq<char>, leading: bool) -> bool {
    let comps = components::piece_components(s, leading);
    forall|i: int| 0 <= i < comps.len() ==> (#[trigger] comps[i]) is Normal
}

proof fn lemma_all_normal_unfold(s: Seq<char>, leading: bool)
    ensures
        ({
            let n = components::first_slash(s) as int;
            let head = components::piece_component(s.take(n), leading);
            all_normal(s, leading) <==> ((head matches Some(c) ==> c is Normal) && (n < s.len()
                ==> all_normal(s.skip(n + 1), false)))
        }),
{
    let n = components::first_slash(s) as int;
    let head = components::as_seq(components::piece_component(s.take(n), leading));
    let comps = components::piece_components(s, leading);
    let rest = components::piece_components(s.skip(n + 1), false);
    components::lemma_first_slash(s);
    if n < s.len() {
        assert(comps == head + rest);
        if all_normal(s, leading) {
            if head.len() > 0 {
                assert(comps[0] == head[0]);
            }
            assert forall|i: int| 0 <= i < rest.len() implies (#[trigger] rest[i]) is Normal by {
                assert(comps[i + head.len()] == rest[i]);
            }
        }
        if (head.len() > 0 ==> head[0] is Normal) && all_normal(s.skip(n + 1), false) {
            assert forall|i: int| 0 <= i < comps.len() implies (#[trigger] comps[i]) is Normal by {
                if i < head.len() {
                    assert(comps[i] == head[i]);
                } else {
                    assert(comps[i] == rest[i - head.len()]);
                }
            }
        }
    } else {
        assert(comps == head);
        if all_normal(s, leading) && head.len() > 0 {
            assert(comps[0] == head[0]);
        }
    }
}

proof fn lemma_white_space_pieces(piece: Seq<char>)
    requires
        piece.len() > 0,
        text::is_white_space(piece[0]) || text::is_white_space(piece.last()),
    ensures
        components::piece_component(piece, true) == Some(ComponentView::Normal(piece)),
        components::piece_component(piece, false) == Some(ComponentView::Normal(piece)),
{
    if piece == seq!['.'] {
        assert(piece[0] == '.' && piece.last() == '.');
    }
    if piece == seq!['.', '.'] {
        assert(piece[0] == '.' && piece.last() == '.');
    }
}

/// White space behind a path adds no component but a name.
proof fn lemma_tail_keeps_normal(s: Seq<char>, tail: Seq<char>, leading: bool)
    requires
        all_normal(s, leading),
        forall|i: int| 0 <= i < tail.len() ==> text::is_white_space(#[trigger] tail[i]),
    ensures
        all_normal(s + tail, leading),
    decreases s.len(),
{
    let whole = s + tail;
    if tail.len() == 0 {
        assert(whole =~= s);
    } else {
        components::lemma_first_slash(s);
        lemma_all_normal_unfold(s, leading);
        lemma_all_normal_unfold(whole, leading);
        let n = components::first_slash(s);
        if n < s.len() {
            components::lemma_first_slash_is(whole, n);
            assert(whole.take(n as int) =~= s.take(n as int));
            lemma_tail_keeps_normal(s.skip(n as int + 1), tail, false);
            assert(whole.skip(n as int + 1) =~= s.skip(n as int + 1) + tail);
        } else {
            components::lemma_first_slash_is(whole, whole.len());
            assert(whole.take(whole.len() as int) =~= whole);
            assert(whole.last() == tail.last());
            lemma_white_space_pieces(whole);
        }
    }
}

/// White space before a path turns its first piece into a name.
proof fn lemma_head_keeps_normal(head: Seq<char>, s: Seq<char>, leading: bool)
    requires
        all_normal(s, leading),
        head.len() > 0,
        forall|i: int| 0 <= i < head.len() ==> text::is_white_space(#[trigger] head[i]),
    ensures
        all_normal(head + s, true),
{
    let whole = head + s;
    components::lemma_first_slash(s);
    let n = components::first_slash(s);
    assert forall|i: int| 0 <= i < head.len() + n implies #[trigger] whole[i] != '/' by {
        if i < head.len() {
            assert(text::is_white_space(head[i]));
        } else {
            assert(whole[i] == s[i - head.len()]);
        }
    }
    components::lemma_first_slash_is(whole, head.len() + n);
    lemma_all_normal_unfold(s, leading);
    lemma_all_normal_unfold(whole, true);
    let piece = whole.take((head.len() + n) as int);
    assert(piece[0] == head[0]);
    lemma_white_space_pieces(piece);
    if n < s.len() {
        assert(whole.skip(head.len() as int + n + 1) =~= s.skip(n as int + 1));
    }
}

/// A path that is normal at the start is normal anywhere.
proof fn lemma_normal_anywhere(s: Seq<char>)
    requires
        all_normal(s, true),
    ensures
        all_normal(s, false),
{
    lemma_all_normal_unfold(s, true);
    lemma_all_normal_unfold(s, false);
}

proof fn lemma_slashes_keep_normal(s: Seq<char>)
    requires
        all_normal(text::without_leading_slashes(s), true),
    ensures
        all_normal(s, false),
    decreases s.len(),
{
    if s.len() > 0 && s[0] == '/' {
        lemma_slashes_keep_normal(s.skip(1));
        lemma_all_normal_unfold(s, false);
        components::lemma_first_slash_is(s, 0);
        assert(s.take(0).len() == 0);
    } else {
        lemma_normal_anywhere(s);
    }
}

/// An accepted path has normal components only, also where white space and
/// slashes still stand around it.
proof fn lemma_walked_components_are_normal(rel: Seq<char>)
    requires
        paths::content_path_error(rel) is None,
    ensures
        all_normal(text::without_leading_slashes(rel), true),
        text::without_leading_slashes(rel).len() > 0,
        text::without_leading_slashes(rel)[0] != '/',
{
    law_accepted_content_paths(rel);
    let t = text::trimmed(rel);
    let u = paths::cleaned(rel);
    let w = text::without_leading_slashes(rel);
    let (a, b) = text::lemma_trimmed_range(rel);
    let k = text::lemma_without_leading_slashes(t);
    let m = text::lemma_without_leading_slashes(rel);
    let tail = rel.skip(b);
    assert forall|i: int| 0 <= i < tail.len() implies text::is_white_space(#[trigger] tail[i]) by {
        assert(tail[i] == rel[b + i]);
    }
    assert(u[0] == t[k]);
    lemma_servable_is_normal(u);
    if a == 0 {
        assert(m == k) by {
            if m < k {
                assert(t[m] == '/');
                assert(rel[m] == '/');
            } else if k < m {
                assert(rel[k] == '/');
                assert(t[k] == '/');
            }
        }
        assert(w =~= u + tail);
        lemma_tail_keeps_normal(u, tail, true);
    } else {
        assert(text::is_white_space(rel[0]));
        assert(m == 0) by {
            if m > 0 {
                assert(rel[0] == '/');
            }
        }
        lemma_slashes_keep_normal(t);
        let head = rel.take(a);
        assert forall|i: int| 0 <= i < head.len() implies text::is_white_space(
            #[trigger] head[i],
        ) by {
            assert(head[i] == rel[i]);
        }
        lemma_head_keeps_normal(head, t, false);
        lemma_tail_keeps_normal(head + t, tail, true);
        assert(w =~= head + t + tail);
    }
}

proof fn lemma_servable_is_normal(u: Seq<char>)
    requires
        u.len() > 0,
        u[0] != '/',
        forall|j: int|
            0 <= j < components::components(u).len() ==> is_servable_name(
                #[trigger] components::components(u)[j],
            ),
    ensures
        all_normal(u, true),
{
    let comps = components::components(u);
    assert forall|i: int| 0 <= i < comps.len() implies (#[trigger] comps[i]) is Normal by {
        assert(is_servable_name(comps[i]));
    }
}

/// A component that is a plain name: not empty, not `.` or `..`, no slash.
pub open spec fn is_plain(c: ComponentView) -> bool {
    match c {
        ComponentView::Normal(name) => components::is_plain_name(name),
        _ => false,
    }
}

/// The names that an accepted path is walked by, one directory after another,
/// are all plain: none is empty, `.` or `..`, and none holds a slash.
pub proof fn law_accepted_paths_are_walked_by_plain_names(rel: Seq<char>)
    requires
        paths::content_path_error(rel) is None,
    ensures
        forall|i: int|
            0 <= i < components::components(text::without_leading_slashes(rel)).len() ==> is_plain(
                #[trigger] components::components(text::without_leading_slashes(rel))[i],
            ),
{
    lemma_walked_components_are_normal(rel);
    let w = text::without_leading_slashes(rel);
    let comps = components::components(w);
    components::lemma_normal_names_are_plain(w, true);
    assert forall|i: int| 0 <= i < comps.len() implies is_plain(#[trigger] comps[i]) by {
        assert(comps[i] is Normal);
        let name = comps[i]->Normal_0;
        assert(components::piece_components(w, true)[i] == ComponentView::Normal(name));
    }
}

/// The default index is an acceptable page, right in the content directory.
pub proof fn law_index_path_is_accepted()
    ensures
        paths::content_path_error("index.mu"@) is None,
        components::components(text::without_leading_slashes("index.mu"@)).len() == 1,
        paths::page_route("index.mu"@) == Ok::<Seq<char>, ErrorView>(DEFAULT_INDEX_ROUTE@),
{
    let rel = "index.mu"@;
    reveal_strlit("index.mu");
    reveal_strlit("/page/");
    reveal_strlit("/page/index.mu");
    reveal_strlit(".allowed");
    text::lemma_trimmed_unchanged(rel);
    assert(paths::cleaned(rel) == rel);
    assert(components::is_plain_name(rel)) by {
        assert(rel.len() == 8);
    }
    let empty = Seq::<char>::empty();
    assert(components::join(empty, rel) =~= rel);
    components::lemma_components_of_join(empty, rel);
    assert(components::components(empty) =~= Seq::<ComponentView>::empty()) by {
        assert(components::first_slash(empty) == 0);
    }
    assert(components::components(rel) =~= seq![ComponentView::Normal(rel)]);
    assert(text::utf8_len(rel) <= 32) by {
        text::lemma_utf8_len_bound(rel);
    }
    assert(!paths::is_hidden(rel)) by {
        if ".allowed"@.is_suffix_of(rel) {
            assert(".allowed"@[7] == rel.subrange(0, 8)[7]);
        }
    }
    law_accepted_content_paths(rel);
    assert(rel[0] == 'i');
    law_stored_page_has_its_route(rel);
    assert(PAGE_PREFIX@ + rel =~= DEFAULT_INDEX_ROUTE@);
}

/// A prefix followed by an accepted path that does not end in a blank passes the
/// checks on routes.
proof fn lemma_route_is_checked(rel: Seq<char>, prefix: Seq<char>, kind: Seq<char>)
    requires
        well_shaped(prefix, None),
        paths::content_path_error(rel) is None,
        rel.len() > 0,
        !text::is_white_space(rel.last()),
    ensures
        paths::character_error(prefix + rel, "route"@) is None,
        paths::stripped(prefix + rel, prefix, kind) == Ok::<Seq<char>, ErrorView>(rel),
        text::trimmed(prefix + rel) == prefix + rel,
        prefix.is_prefix_of(prefix + rel),
{
    let route = prefix + rel;
    assert(route[0] == prefix[0]);
    assert(route.last() == rel.last());
    text::lemma_trimmed_unchanged(route);
    assert(paths::character_error(rel, "path"@) is None);
    assert(!route.contains('\0') && !route.contains('\\')) by {
        assert forall|c: char| route.contains(c) implies prefix.contains(c) || rel.contains(c) by {
            let i = choose|i: int| 0 <= i < route.len() && route[i] == c;
            if i < prefix.len() {
                assert(prefix[i] == c);
            } else {
                assert(rel[i - prefix.len()] == c);
            }
        }
    }
    assert(!text::has_control(route)) by {
        assert forall|i: int| 0 <= i < route.len() implies !text::is_control(
            #[trigger] route[i],
        ) by {
            if i < prefix.len() {
                assert(!text::is_control(prefix[i]));
            } else {
                assert(route[i] == rel[i - prefix.len()]);
                assert(!text::is_control(rel[i - prefix.len()]));
            }
        }
    }
    assert(route.subrange(0, prefix.len() as int) =~= prefix);
    assert(route.skip(prefix.len() as int) =~= rel);
}

proof fn lemma_bare_prefixes()
    ensures
        text::without_end_slashes("/page/"@) == "/page"@,
        text::without_end_slashes("/file/"@) == "/file"@,
        text::trimmed("/page"@) == "/page"@,
        text::trimmed("/file"@) == "/file"@,
{
    reveal_strlit("/page/");
    reveal_strlit("/page");
    reveal_strlit("/file/");
    reveal_strlit("/file");
    assert("/page/"@.drop_last() =~= "/page"@);
    assert("/file/"@.drop_last() =~= "/file"@);
    assert("/page"@.last() == 'e' && "/file"@.last() == 'e');
    reveal_with_fuel(text::without_end_slashes, 3);
    assert("/page"@[0] == '/' && "/file"@[0] == '/');
    text::lemma_trimmed_unchanged("/page"@);
    text::lemma_trimmed_unchanged("/file"@);
}

/// The forms of one route: an accepted path, the path behind a slash, and the path
/// behind the prefix all have the route that is the prefix followed by the path. (A
/// slash before `page`, or before a path that begins with `page/`, makes the prefix
/// itself.)
pub proof fn law_page_paths_have_one_route(rel: Seq<char>)
    requires
        paths::content_path_error(rel) is None,
        text::trimmed(rel) == rel,
        rel[0] != '/',
    ensures
        paths::page_route(rel) == Ok::<Seq<char>, ErrorView>("/page/"@ + rel),
        paths::page_route("/page/"@ + rel) == Ok::<Seq<char>, ErrorView>("/page/"@ + rel),
        rel != "page"@ && !"page/"@.is_prefix_of(rel) ==> paths::page_route("/"@ + rel) == Ok::<
            Seq<char>,
            ErrorView,
        >("/page/"@ + rel),
{
    let prefix = "/page/"@;
    lemma_page_shape();
    lemma_bare_prefixes();
    law_stored_page_has_its_route(rel);
    text::lemma_trimmed_idempotent(rel);
    assert(rel.len() > 0) by {
        if rel.len() == 0 {
            assert(text::without_leading_slashes(rel) == rel);
        }
    }
    lemma_route_is_checked(rel, prefix, "page"@);
    reveal_strlit("/page/");
    reveal_strlit("/page");
    reveal_strlit("page/");
    reveal_strlit("page");
    reveal_strlit("/");
    let given = "/"@ + rel;
    assert(given[0] == '/' && given.last() == rel.last());
    text::lemma_trimmed_unchanged(given);
    if prefix.is_prefix_of(given) {
        assert("page/"@ =~= rel.subrange(0, 5)) by {
            assert forall|i: int| 0 <= i < 5 implies "page/"@[i] == rel[i] by {
                assert(prefix[i + 1] == given.subrange(0, 6)[i + 1]);
            }
        }
    }
    if given == "/page"@ {
        assert(rel =~= "page"@) by {
            assert forall|i: int| 0 <= i < rel.len() implies rel[i] == "page"@[i] by {
                assert(given[i + 1] == rel[i]);
            }
        }
    }
    assert(given.skip(1) =~= rel);
}

/// The same of files.
pub proof fn law_file_paths_have_one_route(rel: Seq<char>)
    requires
        paths::content_path_error(rel) is None,
        text::trimmed(rel) == rel,
        rel[0] != '/',
    ensures
        paths::file_route(rel) == Ok::<Seq<char>, ErrorView>("/file/"@ + rel),
        paths::file_route("/file/"@ + rel) == Ok::<Seq<char>, ErrorView>("/file/"@ + rel),
        rel != "file"@ && !"file/"@.is_prefix_of(rel) ==> paths::file_route("/"@ + rel) == Ok::<
            Seq<char>,
            ErrorView,
        >("/file/"@ + rel),
{
    let prefix = "/file/"@;
    lemma_file_shape();
    lemma_bare_prefixes();
    law_stored_file_has_its_route(rel);
    text::lemma_trimmed_idempotent(rel);
    assert(rel.len() > 0) by {
        if rel.len() == 0 {
            assert(text::without_leading_slashes(rel) == rel);
        }
    }
    lemma_route_is_checked(rel, prefix, "file"@);
    reveal_strlit("/file/");
    reveal_strlit("/file");
    reveal_strlit("file/");
    reveal_strlit("file");
    reveal_strlit("/");
    let given = "/"@ + rel;
    assert(given[0] == '/' && given.last() == rel.last());
    text::lemma_trimmed_unchanged(given);
    if prefix.is_prefix_of(given) {
        assert("file/"@ =~= rel.subrange(0, 5)) by {
            assert forall|i: int| 0 <= i < 5 implies "file/"@[i] == rel[i] by {
                assert(prefix[i + 1] == given.subrange(0, 6)[i + 1]);
            }
        }
    }
    if given == "/file"@ {
        assert(rel =~= "file"@) by {
            assert forall|i: int| 0 <= i < rel.len() implies rel[i] == "file"@[i] by {
                assert(given[i + 1] == rel[i]);
            }
        }
    }
    assert(given.skip(1) =~= rel);
}

/// Blanks around a route stand for nothing. The bare page prefix stands for the
/// index; the bare file prefix, and nothing at all, stand for no route.
pub proof fn law_blank_and_bare_routes(path: Seq<char>)
    ensures
        paths::page_route(path) == paths::page_route(text::trimmed(path)),
        paths::file_route(path) == paths::file_route(text::trimmed(path)),
        paths::page_route("/page"@) == Ok::<Seq<char>, ErrorView>("/page/index.mu"@),
        paths::file_route("/file"@) == Err::<Seq<char>, ErrorView>(
            ErrorView::InvalidPath("bare /file route requires a file name"@),
        ),
        text::trimmed(path).len() == 0 ==> {
            &&& paths::page_route(path) == Err::<Seq<char>, ErrorView>(
                ErrorView::InvalidPath("empty page path"@),
            )
            &&& paths::file_route(path) == Err::<Seq<char>, ErrorView>(
                ErrorView::InvalidPath("empty file path"@),
            )
        },
{
    text::lemma_trimmed_idempotent(path);
    lemma_bare_prefixes();
    law_index_path_is_accepted();
    lemma_page_shape();
    reveal_strlit("/page");
    reveal_strlit("/file");
    reveal_strlit("/page/");
    reveal_strlit("/file/");
    reveal_strlit("/page/index.mu");
    reveal_strlit("index.mu");
    reveal_strlit("bare ");
    reveal_strlit(" route requires a ");
    reveal_strlit(" name");
    reveal_strlit("file");
    reveal_strlit("page");
    reveal_strlit("bare /file route requires a file name");
    reveal_strlit("empty ");
    reveal_strlit(" path");
    reveal_strlit("empty page path");
    reveal_strlit("empty file path");
    assert("bare "@ + "/file"@ + " route requires a "@ + "file"@ + " name"@
        =~= "bare /file route requires a file name"@);
    assert("empty "@ + "page"@ + " path"@ =~= "empty page path"@);
    assert("empty "@ + "file"@ + " path"@ =~= "empty file path"@);
    assert("/page/"@ + "index.mu"@ =~= "/page/index.mu"@);
    lemma_route_is_checked("index.mu"@, "/page/"@, "page"@);
}

/// A path that is not acceptable has no route, under either prefix, and the error is
/// that of the path, unless its characters already rule it out as a route.
pub proof fn law_refused_paths_have_no_route(rel: Seq<char>, e: ErrorView)
    requires
        rel.len() > 0,
        text::trimmed(rel) == rel,
        rel[0] != '/',
        paths::content_path_error(rel) == Some(e),
    ensures
        paths::page_route(rel) is Err,
        paths::file_route(rel) is Err,
        paths::page_route("/page/"@ + rel) is Err,
        paths::file_route("/file/"@ + rel) is Err,
        !rel.contains('\0') && !rel.contains('\\') && !text::has_control(rel) ==> {
            &&& paths::page_route(rel) == Err::<Seq<char>, ErrorView>(e)
            &&& paths::file_route(rel) == Err::<Seq<char>, ErrorView>(e)
            &&& paths::page_route("/page/"@ + rel) == Err::<Seq<char>, ErrorView>(e)
            &&& paths::file_route("/file/"@ + rel) == Err::<Seq<char>, ErrorView>(e)
        },
{
    lemma_page_shape();
    lemma_file_shape();
    lemma_refused_route(rel, "/page/"@, Some("index.mu"@), "page"@, e);
    lemma_refused_route(rel, "/file/"@, None, "file"@, e);
}

proof fn lemma_refused_route(
    rel: Seq<char>,
    prefix: Seq<char>,
    index: Option<Seq<char>>,
    kind: Seq<char>,
    e: ErrorView,
)
    requires
        well_shaped(prefix, index),
        rel.len() > 0,
        text::trimmed(rel) == rel,
        rel[0] != '/',
        paths::content_path_error(rel) == Some(e),
    ensures
        paths::normalized(rel, prefix, index, kind) is Err,
        paths::normalized(prefix + rel, prefix, index, kind) is Err,
        !rel.contains('\0') && !rel.contains('\\') && !text::has_control(rel) ==> {
            &&& paths::normalized(rel, prefix, index, kind) == Err::<Seq<char>, ErrorView>(e)
            &&& paths::normalized(prefix + rel, prefix, index, kind) == Err::<Seq<char>, ErrorView>(e)
        },
{
    let route = prefix + rel;
    text::lemma_trimmed_idempotent(rel);
    assert(route[0] == '/' && route.last() == rel.last());
    text::lemma_trimmed_unchanged(route);
    assert(route.subrange(0, prefix.len() as int) =~= prefix);
    assert(route.skip(prefix.len() as int) =~= rel);
    if prefix.is_prefix_of(rel) {
        assert(rel.subrange(0, prefix.len() as int)[0] == rel[0]);
    }
    lemma_end_slashes_keep_start(prefix);
    let bare = text::without_end_slashes(prefix);
    if rel == bare {
        assert(prefix.subrange(0, bare.len() as int)[0] == rel[0]);
    }
    if !rel.contains('\0') && !rel.contains('\\') && !text::has_control(rel) {
        assert forall|c: char| route.contains(c) implies prefix.contains(c) || rel.contains(c) by {
            let i = choose|i: int| 0 <= i < route.len() && route[i] == c;
            if i < prefix.len() {
                assert(prefix[i] == c);
            } else {
                assert(rel[i - prefix.len()] == c);
            }
        }
        assert forall|i: int| 0 <= i < route.len() implies !text::is_control(
            #[trigger] route[i],
        ) by {
            if i < prefix.len() {
                assert(!text::is_control(prefix[i]));
            } else {
                assert(route[i] == rel[i - prefix.len()]);
                assert(!text::is_control(rel[i - prefix.len()]));
            }
        }
    }
}

/// Stripping takes the prefix off and gives back the path behind it, if that is
/// acceptable; what does not have the prefix, or nothing behind it, is no route.
pub proof fn law_stripping_takes_the_prefix_off(rel: Seq<char>, route: Seq<char>)
    ensures
        rel.len() > 0 && !text::is_white_space(rel.last()) && paths::content_path_error(rel) is None
            ==> paths::page_relative("/page/"@ + rel) == Ok::<Seq<char>, ErrorView>(rel)
            && paths::file_relative("/file/"@ + rel) == Ok::<Seq<char>, ErrorView>(rel),
        rel.len() > 0 && !text::is_white_space(rel.last()) ==> (paths::content_path_error(
            rel,
        ) matches Some(e) ==> paths::page_relative("/page/"@ + rel) == Err::<Seq<char>, ErrorView>(e)
            && paths::file_relative("/file/"@ + rel) == Err::<Seq<char>, ErrorView>(e)),
        !"/page/"@.is_prefix_of(text::trimmed(route)) || text::trimmed(route) == "/page/"@
            ==> paths::page_relative(route) == Err::<Seq<char>, ErrorView>(
            ErrorView::InvalidPath("not a page route: "@ + text::trimmed(route)),
        ),
        !"/file/"@.is_prefix_of(text::trimmed(route)) || text::trimmed(route) == "/file/"@
            ==> paths::file_relative(route) == Err::<Seq<char>, ErrorView>(
            ErrorView::InvalidPath("not a file route: "@ + text::trimmed(route)),
        ),
{
    lemma_page_shape();
    lemma_file_shape();
    if rel.len() > 0 && !text::is_white_space(rel.last()) {
        let a = "/page/"@ + rel;
        let b = "/file/"@ + rel;
        reveal_strlit("/page/");
        reveal_strlit("/file/");
        assert(a[0] == '/' && a.last() == rel.last());
        assert(b[0] == '/' && b.last() == rel.last());
        text::lemma_trimmed_unchanged(a);
        text::lemma_trimmed_unchanged(b);
        assert(a.subrange(0, 6) =~= "/page/"@);
        assert(b.subrange(0, 6) =~= "/file/"@);
        assert(a.skip(6) =~= rel);
        assert(b.skip(6) =~= rel);
    }
    reveal_strlit("not a ");
    reveal_strlit(" route: ");
    reveal_strlit("page");
    reveal_strlit("file");
    reveal_strlit("not a page route: ");
    reveal_strlit("not a file route: ");
    assert("not a "@ + "page"@ + " route: "@ =~= "not a page route: "@);
    assert("not a "@ + "file"@ + " route: "@ =~= "not a file route: "@);
}

/// A route's hash is the first sixteen bytes of the SHA-256 digest of all its UTF-8
/// bytes.
pub proof fn law_hashes_are_of_the_whole_route(route: Seq<char>, i: int)
    requires
        0 <= i < 16 <= paths::sha256_digest(encode_utf8(route)).len(),
    ensures
        paths::route_hash(route).len() == 16,
        paths::route_hash(route)[i] == paths::sha256_digest(encode_utf8(route))[i],
{
}

/// The hidden names: blanks around them aside, those that begin with a dot and those
/// that end in `.allowed`, and no others.
pub proof fn law_hidden_names(name: Seq<char>, x: Seq<char>)
    ensures
        is_begun_by_a_dot(text::trimmed(name)) || is_ended_by_allowed(text::trimmed(name))
            <==> paths::is_hidden(name),
        paths::is_hidden("."@ + x),
        paths::is_hidden(x + ".allowed"@),
{
    reveal_strlit(".allowed");
    reveal_strlit(".");
    let t = text::trimmed(name);
    if is_ended_by_allowed(t) {
        assert forall|i: int| 0 <= i < 8 implies t[t.len() - 8 + i] == ".allowed"@[i] by {
            assert(t.skip(t.len() - 8)[i] == ".allowed"@[i]);
        }
        assert(t.subrange(t.len() - 8, t.len() as int) =~= ".allowed"@);
    }
    if ".allowed"@.is_suffix_of(t) {
        assert forall|i: int| 0 <= i < 8 implies t[t.len() - 8 + i] == ".allowed"@[i] by {
            assert(t.subrange(t.len() - 8, t.len() as int)[i] == ".allowed"@[i]);
        }
        assert(t.skip(t.len() - 8) =~= seq!['.', 'a', 'l', 'l', 'o', 'w', 'e', 'd']);
    }
    let a = "."@ + x;
    let r = text::lemma_trimmed_range(a);
    if r.0 > 0 {
        assert(text::is_white_space(a[0]));
    }
    if r.1 <= 0 {
        assert(text::is_white_space(a[0]));
    }
    assert(text::trimmed(a)[0] == '.');
    let b = x + ".allowed"@;
    let q = text::lemma_trimmed_range(b);
    assert(b.last() == 'd');
    if q.1 < b.len() {
        assert(text::is_white_space(b[b.len() - 1]));
    }
    let from = b.len() - 8;
    assert(b[from] == '.');
    if q.0 > from {
        assert(text::is_white_space(b[from]));
    }
    let u = text::trimmed(b);
    assert(u.subrange(u.len() - 8, u.len() as int) =~= ".allowed"@);
}

/// Does the text begin with a dot?
pub open spec fn is_begun_by_a_dot(s: Seq<char>) -> bool {
    s.len() > 0 && s[0] == '.'
}

/// Does the text end in `.allowed`?
pub open spec fn is_ended_by_allowed(s: Seq<char>) -> bool {
    s.len() >= 8 && s.skip(s.len() - 8) == seq!['.', 'a', 'l', 'l', 'o', 'w', 'e', 'd']
}

proof fn lemma_first_error(comps: Seq<ComponentView>, i: nat, j: nat)
    requires
        i <= j < comps.len(),
        forall|k: int| i <= k < j ==> #[trigger] servable_at(comps, k),
    ensures
        paths::first_component_error(comps, i) == match paths::component_error(
            comps[j as int],
            j + 1,
        ) {
            Some(e) => Some(e),
            None => paths::first_component_error(comps, j + 1),
        },
    decreases j - i,
{
    if i < j {
        assert(servable_at(comps, i as int));
        lemma_first_error(comps, i + 1, j);
    }
}

/// What is wrong with a path as a whole: it is empty, over 1024 bytes long, or holds
/// characters that it may not, in this order.
pub proof fn law_path_errors(rel: Seq<char>)
    ensures
        ({
            let path = text::without_leading_slashes(text::trimmed(rel));
            let is_short = 0 < path.len() && text::utf8_len(path) <= 1024;
            let error = paths::content_path_error(rel);
            &&& path.len() == 0 ==> error == Some(ErrorView::InvalidPath("empty relative path"@))
            &&& text::utf8_len(path) > 1024 ==> error == Some(
                ErrorView::InvalidPath("path too long"@),
            )
            &&& is_short && (rel.contains('\0') || rel.contains('\\')) ==> error == Some(
                ErrorView::InvalidPath("invalid path characters"@),
            )
            &&& is_short && !rel.contains('\0') && !rel.contains('\\') && text::has_control(rel)
                ==> error == Some(ErrorView::InvalidPath("control characters in path"@))
        }),
{
    let path = text::without_leading_slashes(text::trimmed(rel));
    if path.len() == 0 {
        text::lemma_utf8_len_bound(path);
    }
    reveal_strlit("invalid ");
    reveal_strlit("path");
    reveal_strlit(" characters");
    reveal_strlit("invalid path characters");
    reveal_strlit("control characters in ");
    reveal_strlit("control characters in path");
    assert("invalid "@ + "path"@ + " characters"@ =~= "invalid path characters"@);
    assert("control characters in "@ + "path"@ =~= "control characters in path"@);
}

/// What is wrong with a path whose length and characters are in order: what is wrong
/// with the first of its components that is no servable name, or the thirty-third.
pub proof fn law_component_errors(rel: Seq<char>, j: nat)
    requires
        ({
            let path = text::without_leading_slashes(text::trimmed(rel));
            let comps = components::components(path);
            &&& 0 < path.len() && text::utf8_len(path) <= 1024
            &&& !rel.contains('\0') && !rel.contains('\\') && !text::has_control(rel)
            &&& j < comps.len() && j <= 32
            &&& forall|k: int| 0 <= k < j ==> is_servable_name(#[trigger] comps[k])
        }),
    ensures
        ({
            let path = text::without_leading_slashes(text::trimmed(rel));
            let error = paths::content_path_error(rel);
            match components::components(path)[j as int] {
                ComponentView::Normal(name) => {
                    &&& j == 32 ==> error == Some(ErrorView::InvalidPath("path too deep"@))
                    &&& j < 32 && text::utf8_len(name) > 255 ==> error == Some(
                        ErrorView::InvalidPath("path component too long"@),
                    )
                    &&& j < 32 && text::utf8_len(name) <= 255 && !text::has_control(name)
                        && paths::is_hidden(name) ==> error == Some(
                        ErrorView::InvalidPath("hidden or allowlist paths are not served"@),
                    )
                },
                _ => error == Some(ErrorView::PathTraversal),
            }
        }),
{
    let comps = components::components(paths::cleaned(rel));
    assert forall|k: int| 0 <= k < j implies #[trigger] servable_at(comps, k) by {
        assert(is_servable_name(comps[k]));
    }
    lemma_first_error(comps, 0, j);
}

proof fn lemma_parent_piece(a: Seq<char>, b: Seq<char>, leading: bool)
    requires
        a.len() == 0 || a.last() == '/',
        b.len() == 0 || b[0] == '/',
    ensures
        components::piece_components(a + seq!['.', '.'] + b, leading).contains(
            ComponentView::ParentDir,
        ),
    decreases a.len(),
{
    let dots = seq!['.', '.'];
    let s = a + dots + b;
    components::lemma_first_slash(s);
    let n = components::first_slash(s) as int;
    let head = components::as_seq(components::piece_component(s.take(n), leading));
    let comps = components::piece_components(s, leading);
    if a.len() == 0 {
        components::lemma_first_slash_is(s, 2);
        assert(s.take(n) =~= dots);
        assert(dots != seq!['.']) by {
            assert(dots.len() == 2);
        }
        assert(head[0] == ComponentView::ParentDir);
        assert(comps[0] == ComponentView::ParentDir);
    } else {
        assert(s[a.len() - 1] == '/');
        if n > a.len() - 1 {
            assert(s[a.len() - 1] != '/');
        }
        let rest = a.skip(n + 1);
        assert(s.skip(n + 1) =~= rest + dots + b);
        if rest.len() > 0 {
            assert(rest.last() == a.last());
        }
        lemma_parent_piece(rest, b, false);
        let more = components::piece_components(s.skip(n + 1), false);
        let i = choose|i: int| 0 <= i < more.len() && more[i] == ComponentView::ParentDir;
        assert(comps[head.len() + i] == ComponentView::ParentDir);
    }
}

/// Trimming leaves the dots, between slashes or at an end.
proof fn lemma_trimming_keeps_dots(a: Seq<char>, b: Seq<char>) -> (r: (int, int))
    ensures
        0 <= r.0 <= a.len(),
        0 <= r.1 <= b.len(),
        text::trimmed(a + seq!['.', '.'] + b) == a.skip(r.0) + seq!['.', '.'] + b.take(r.1),
{
    let dots = seq!['.', '.'];
    let rel = a + dots + b;
    let r = text::lemma_trimmed_range(rel);
    let from = a.len() as int;
    assert(rel[from] == '.' && rel[from + 1] == '.');
    assert(!text::is_white_space('.'));
    if r.0 > from {
        assert(text::is_white_space(rel[from]));
    }
    if r.1 < from + 2 {
        assert(text::is_white_space(rel[from + 1]));
    }
    assert(rel.subrange(r.0, r.1) =~= a.skip(r.0) + dots + b.take(r.1 - from - 2));
    (r.0, r.1 - from - 2)
}

/// So does taking off leading slashes.
proof fn lemma_slashes_off_keep_dots(a: Seq<char>, b: Seq<char>) -> (n: int)
    ensures
        0 <= n <= a.len(),
        text::without_leading_slashes(a + seq!['.', '.'] + b) == a.skip(n) + seq!['.', '.'] + b,
        (a.skip(n) + seq!['.', '.'] + b)[0] != '/',
{
    let dots = seq!['.', '.'];
    let t = a + dots + b;
    let n = text::lemma_without_leading_slashes(t);
    assert(t[a.len() as int] == '.');
    if n > a.len() {
        assert(t[a.len() as int] == '/');
    }
    assert(t.skip(n) =~= a.skip(n) + dots + b);
    assert(t.skip(n)[0] == t[n]);
    n
}

/// What validation looks at still holds the dots.
proof fn lemma_cleaned_keeps_dots(a: Seq<char>, b: Seq<char>) -> (r: (Seq<char>, Seq<char>))
    requires
        a.len() == 0 || a.last() == '/',
        b.len() == 0 || b[0] == '/',
    ensures
        paths::cleaned(a + seq!['.', '.'] + b) == r.0 + seq!['.', '.'] + r.1,
        r.0.len() == 0 || r.0.last() == '/',
        r.1.len() == 0 || r.1[0] == '/',
        paths::cleaned(a + seq!['.', '.'] + b)[0] != '/',
{
    let (from, to) = lemma_trimming_keeps_dots(a, b);
    let n = lemma_slashes_off_keep_dots(a.skip(from), b.take(to));
    (a.skip(from).skip(n), b.take(to))
}

/// No path leads up: one with a `..` between slashes, or at either end, is refused.
pub proof fn law_paths_that_lead_up_are_refused(a: Seq<char>, b: Seq<char>)
    requires
        a.len() == 0 || a.last() == '/',
        b.len() == 0 || b[0] == '/',
    ensures
        paths::content_path_error(a + seq!['.', '.'] + b) is Some,
{
    let rel = a + seq!['.', '.'] + b;
    let path = paths::cleaned(rel);
    let (x, y) = lemma_cleaned_keeps_dots(a, b);
    lemma_parent_piece(x, y, true);
    let comps = components::components(path);
    assert(comps == components::piece_components(path, true));
    let i = choose|i: int| 0 <= i < comps.len() && comps[i] == ComponentView::ParentDir;
    law_accepted_content_paths(rel);
    if paths::content_path_error(rel) is None {
        assert(is_servable_name(comps[i]));
    }
}

} // verus!
