//! Slash-separated paths: their components, how they are joined, and what
//! their parents and last names are.

use vstd::prelude::*;
use vstd::string::*;

use crate::text;
use crate::text::chars_of;
use crate::text::join2;
use crate::text::join3;
use crate::text::text_of;

verus! {

/// One component of a path.
#[derive(Debug)]
pub enum PathComponent {
    /// The leading slash of an absolute path.
    RootDir,
    /// A leading `.`.
    CurDir,
    /// `..`.
    ParentDir,
    /// Every other name.
    Normal(String),
}

/// The contents of a [`PathComponent`].
pub enum ComponentView {
    RootDir,
    CurDir,
    ParentDir,
    Normal(Seq<char>),
}

impl View for PathComponent {
    type V = ComponentView;

    open spec fn view(&self) -> ComponentView {
        match *self {
            PathComponent::RootDir => ComponentView::RootDir,
            PathComponent::CurDir => ComponentView::CurDir,
            PathComponent::ParentDir => ComponentView::ParentDir,
            PathComponent::Normal(name) => ComponentView::Normal(name@),
        }
    }
}

/// The components, each taken by its contents.
pub open spec fn views(s: Seq<PathComponent>) -> Seq<ComponentView> {
    s.map_values(|c: PathComponent| c@)
}

/// The component that the piece between two slashes stands for, if any: an
/// empty piece stands for none, and so does `.` unless the path starts with it.
pub open spec fn piece_component(piece: Seq<char>, leading: bool) -> Option<ComponentView> {
    if piece.len() == 0 {
        None
    } else if piece == seq!['.'] {
        if leading {
            Some(ComponentView::CurDir)
        } else {
            None
        }
    } else if piece == seq!['.', '.'] {
        Some(ComponentView::ParentDir)
    } else {
        Some(ComponentView::Normal(piece))
    }
}

/// The component as a sequence of at most one.
pub open spec fn as_seq(c: Option<ComponentView>) -> Seq<ComponentView> {
    match c {
        Some(c) => seq![c],
        None => seq![],
    }
}

/// The position of the first slash, or the length if there is none.
pub open spec fn first_slash(s: Seq<char>) -> nat
    decreases s.len(),
{
    if s.len() == 0 || s[0] == '/' {
        0
    } else {
        1 + first_slash(s.skip(1))
    }
}

pub proof fn lemma_first_slash(s: Seq<char>)
    ensures
        first_slash(s) <= s.len(),
        forall|i: int| 0 <= i < first_slash(s) ==> #[trigger] s[i] != '/',
        first_slash(s) < s.len() ==> s[first_slash(s) as int] == '/',
    decreases s.len(),
{
    if s.len() == 0 || s[0] == '/' {
    } else {
        let t = s.skip(1);
        lemma_first_slash(t);
        assert forall|i: int| 0 <= i < first_slash(s) implies #[trigger] s[i] != '/' by {
            if i > 0 {
                assert(t[i - 1] == s[i]);
            }
        }
    }
}

pub proof fn lemma_first_slash_is(s: Seq<char>, n: nat)
    requires
        n <= s.len(),
        forall|i: int| 0 <= i < n ==> #[trigger] s[i] != '/',
        n < s.len() ==> s[n as int] == '/',
    ensures
        first_slash(s) == n,
{
    lemma_first_slash(s);
    if first_slash(s) < n {
        assert(s[first_slash(s) as int] != '/');
    } else if n < first_slash(s) {
        assert(s[n as int] != '/');
    }
}

/// The components of the pieces of `s`; `leading` tells whether `s` is the
/// start of a relative path.
pub open spec fn piece_components(s: Seq<char>, leading: bool) -> Seq<ComponentView>
    decreases s.len(),
    via piece_components_decreases
{
    let n = first_slash(s) as int;
    let head = as_seq(piece_component(s.take(n), leading));
    if n >= s.len() {
        head
    } else {
        head + piece_components(s.skip(n + 1), false)
    }
}

#[via_fn]
proof fn piece_components_decreases(s: Seq<char>, leading: bool) {
    lemma_first_slash(s);
}

/// The components of a path: repeated and trailing slashes count for nothing,
/// and `.` counts only at the start.
pub open spec fn components(s: Seq<char>) -> Seq<ComponentView> {
    if s.len() > 0 && s[0] == '/' {
        seq![ComponentView::RootDir] + piece_components(s.skip(1), false)
    } else {
        piece_components(s, true)
    }
}

/// `base` with the relative path `name` appended.
pub open spec fn join(base: Seq<char>, name: Seq<char>) -> Seq<char> {
    if base.len() == 0 || base.last() == '/' {
        base + name
    } else {
        base + seq!['/'] + name
    }
}

/// `s` without trailing slashes and trailing `/.` pieces; a lone slash stays.
pub open spec fn without_trailing(s: Seq<char>) -> Seq<char>
    decreases s.len(),
{
    if s.len() > 1 && s.last() == '/' {
        without_trailing(s.drop_last())
    } else if s.len() > 1 && s.last() == '.' && s[s.len() - 2] == '/' {
        without_trailing(s.drop_last())
    } else {
        s
    }
}

/// The position behind the last slash, or 0 if there is none.
pub open spec fn after_last_slash(s: Seq<char>) -> nat
    decreases s.len(),
{
    if s.len() == 0 || s.last() == '/' {
        s.len()
    } else {
        after_last_slash(s.drop_last())
    }
}

pub proof fn lemma_after_last_slash(s: Seq<char>)
    ensures
        after_last_slash(s) <= s.len(),
        forall|i: int| after_last_slash(s) <= i < s.len() ==> #[trigger] s[i] != '/',
        after_last_slash(s) > 0 ==> s[after_last_slash(s) - 1] == '/',
    decreases s.len(),
{
    if s.len() == 0 || s.last() == '/' {
    } else {
        let t = s.drop_last();
        lemma_after_last_slash(t);
        assert forall|i: int| after_last_slash(s) <= i < s.len() implies #[trigger] s[i]
            != '/' by {
            if i < t.len() {
                assert(t[i] == s[i]);
            }
        }
    }
}

/// The path without its last component; none for an empty path and for the root.
pub open spec fn parent(s: Seq<char>) -> Option<Seq<char>> {
    let t = without_trailing(s);
    if t.len() == 0 || t == seq!['/'] {
        None
    } else {
        Some(without_trailing(t.take(after_last_slash(t) as int)))
    }
}

/// The last component of the path, if it is a name.
pub open spec fn file_name(s: Seq<char>) -> Option<Seq<char>> {
    let t = without_trailing(s);
    let name = t.skip(after_last_slash(t) as int);
    if name.len() == 0 || name == seq!['.'] || name == seq!['.', '.'] {
        None
    } else {
        Some(name)
    }
}

/// Does `path` lie under `base`, component by component?
pub open spec fn lies_under(path: Seq<char>, base: Seq<char>) -> bool {
    components(base).is_prefix_of(components(path))
}

/// A name that can stand between two slashes and is neither `.` nor `..`.
pub open spec fn is_plain_name(name: Seq<char>) -> bool {
    &&& name.len() > 0
    &&& !name.contains('/')
    &&& name != seq!['.']
    &&& name != seq!['.', '.']
}

/// Every normal component is a plain name.
pub proof fn lemma_normal_names_are_plain(s: Seq<char>, leading: bool)
    ensures
        forall|i: int, name: Seq<char>|
            0 <= i < piece_components(s, leading).len() && #[trigger] piece_components(s, leading)[i]
                == ComponentView::Normal(name) ==> #[trigger] is_plain_name(name),
    decreases s.len(),
{
    lemma_first_slash(s);
    let n = first_slash(s) as int;
    let rest = piece_components(s.skip(n + 1), false);
    let head = as_seq(piece_component(s.take(n), leading));
    if n < s.len() {
        lemma_normal_names_are_plain(s.skip(n + 1), false);
    }
    assert forall|i: int, name: Seq<char>|
        0 <= i < piece_components(s, leading).len() && #[trigger] piece_components(s, leading)[i]
            == ComponentView::Normal(name) implies #[trigger] is_plain_name(name) by {
        if i < head.len() {
            assert(head[i] == ComponentView::Normal(name));
            assert(name == s.take(n));
            if name.contains('/') {
                let j = choose|j: int| 0 <= j < name.len() && name[j] == '/';
                assert(s[j] == '/');
            }
        } else {
            assert(rest[i - head.len()] == ComponentView::Normal(name));
        }
    }
}

proof fn lemma_plain_piece(name: Seq<char>, leading: bool)
    requires
        is_plain_name(name),
    ensures
        piece_components(name, leading) == seq![ComponentView::Normal(name)],
{
    assert forall|i: int| 0 <= i < name.len() implies #[trigger] name[i] != '/' by {
        if name[i] == '/' {
            assert(name.contains('/'));
        }
    }
    lemma_first_slash_is(name, name.len());
    assert(name.take(name.len() as int) =~= name);
}

proof fn lemma_pieces_of_join(base: Seq<char>, name: Seq<char>, leading: bool)
    requires
        is_plain_name(name),
    ensures
        piece_components(join(base, name), leading) == piece_components(base, leading).push(
            ComponentView::Normal(name),
        ),
    decreases base.len(),
{
    let whole = join(base, name);
    if base.len() == 0 {
        assert(whole =~= name);
        lemma_plain_piece(name, leading);
        lemma_first_slash_is(base, 0);
        assert(base.take(0).len() == 0);
        assert(piece_components(base, leading) =~= Seq::<ComponentView>::empty());
    } else {
        lemma_first_slash(base);
        let n = first_slash(base);
        let ni = n as int;
        let head = as_seq(piece_component(base.take(ni), leading));
        assert(whole.take(base.len() as int) =~= base);
        if n < base.len() {
            lemma_first_slash_is(whole, n);
            assert(whole.take(ni) =~= base.take(ni));
            let rest = base.skip(ni + 1);
            assert(whole.skip(ni + 1) =~= join(rest, name)) by {
                if rest.len() > 0 {
                    assert(rest.last() == base.last());
                }
            }
            lemma_pieces_of_join(rest, name, false);
            assert(head + piece_components(rest, false).push(ComponentView::Normal(name)) =~= (head
                + piece_components(rest, false)).push(ComponentView::Normal(name)));
        } else {
            assert(base.last() != '/');
            lemma_first_slash_is(whole, base.len());
            assert(base.take(ni) =~= base);
            assert(whole.skip(ni + 1) =~= name);
            lemma_plain_piece(name, false);
            assert(head + seq![ComponentView::Normal(name)] =~= head.push(
                ComponentView::Normal(name),
            ));
        }
    }
}

/// Joining a plain name to a path appends one component to it.
pub proof fn lemma_components_of_join(base: Seq<char>, name: Seq<char>)
    requires
        is_plain_name(name),
    ensures
        components(join(base, name)) == components(base).push(ComponentView::Normal(name)),
{
    let whole = join(base, name);
    if base.len() > 0 && base[0] == '/' {
        let rest = base.skip(1);
        assert(whole.skip(1) =~= join(rest, name)) by {
            if rest.len() > 0 {
                assert(rest.last() == base.last());
            }
        }
        lemma_pieces_of_join(rest, name, false);
        assert(components(whole) =~= components(base).push(ComponentView::Normal(name)));
    } else {
        assert(whole.len() > 0 && whole[0] != '/') by {
            if base.len() == 0 {
                if name[0] == '/' {
                    assert(name.contains('/'));
                }
            }
        }
        lemma_pieces_of_join(base, name, true);
    }
}

proof fn lemma_without_trailing_len(s: Seq<char>)
    ensures
        without_trailing(s).len() <= s.len(),
        without_trailing(s).len() > 1 ==> without_trailing(s).last() != '/',
    decreases s.len(),
{
    if s.len() > 1 && (s.last() == '/' || (s.last() == '.' && s[s.len() - 2] == '/')) {
        lemma_without_trailing_len(s.drop_last());
    }
}

/// The directory above a path is a shorter path.
pub proof fn lemma_parent_is_shorter(s: Seq<char>)
    ensures
        parent(s) matches Some(q) ==> q.len() < s.len(),
{
    let t = without_trailing(s);
    lemma_without_trailing_len(s);
    lemma_after_last_slash(t);
    if t.len() > 0 && t != seq!['/'] {
        if t.last() == '/' {
            assert(t =~= seq!['/']);
        }
        lemma_without_trailing_len(t.take(after_last_slash(t) as int));
    }
}

/// The last slash of a path that a plain name was joined to stands before the
/// name, and the path does not end in anything that counts for nothing.
pub proof fn lemma_end_of_join(base: Seq<char>, name: Seq<char>)
    requires
        is_plain_name(name),
    ensures
        without_trailing(join(base, name)) == join(base, name),
        after_last_slash(join(base, name)) == join(base, name).len() - name.len(),
        join(base, name).skip(join(base, name).len() - name.len()) == name,
        join(base, name) != seq!['/'],
{
    let whole = join(base, name);
    let from = whole.len() - name.len();
    assert(whole.skip(from) =~= name);
    assert forall|i: int| from <= i < whole.len() implies #[trigger] whole[i] != '/' by {
        assert(whole[i] == name[i - from]);
        assert(name.contains(name[i - from]));
    }
    assert(whole[whole.len() - 1] != '/');
    if whole.len() > 1 && whole.last() == '.' && whole[whole.len() - 2] == '/' {
        assert(name.len() == 1);
        assert(name =~= seq!['.']);
    }
    lemma_after_last_slash(whole);
    if after_last_slash(whole) > from {
        assert(whole[after_last_slash(whole) - 1] != '/');
    } else if after_last_slash(whole) < from {
        assert(whole[from - 1] == '/');
    }
}

/// A plain name joined to a path is its last component, and what is above it is
/// the path.
pub proof fn lemma_parent_of_join(base: Seq<char>, name: Seq<char>)
    requires
        is_plain_name(name),
    ensures
        parent(join(base, name)) == Some(without_trailing(base)),
        file_name(join(base, name)) == Some(name),
{
    let whole = join(base, name);
    lemma_end_of_join(base, name);
    let above = whole.take(whole.len() - name.len());
    if base.len() == 0 || base.last() == '/' {
        assert(above =~= base);
    } else {
        assert(above =~= base.push('/'));
        assert(above.drop_last() =~= base);
    }
}

fn piece_component_of(chars: &Vec<char>, from: usize, to: usize, leading: bool) -> (r: Option<
    PathComponent,
>)
    requires
        from <= to <= chars@.len(),
    ensures
        piece_component(chars@.subrange(from as int, to as int), leading) == match r {
            Some(c) => Some(c@),
            None => None,
        },
{
    let ghost piece = chars@.subrange(from as int, to as int);
    if from == to {
        return None;
    }
    if to - from == 1 && chars[from] == '.' {
        assert(piece =~= seq!['.']);
        return if leading {
            Some(PathComponent::CurDir)
        } else {
            None
        };
    }
    assert(piece != seq!['.']) by {
        if piece == seq!['.'] {
            assert(piece[0] == '.');
        }
    }
    if to - from == 2 && chars[from] == '.' && chars[from + 1] == '.' {
        assert(piece =~= seq!['.', '.']);
        return Some(PathComponent::ParentDir);
    }
    assert(piece != seq!['.', '.']) by {
        if piece == seq!['.', '.'] {
            assert(piece[0] == '.' && piece[1] == '.');
        }
    }
    Some(PathComponent::Normal(text_of(chars, from, to)))
}

/// The components of `path`.
pub fn components_of(path: &str) -> (r: Vec<PathComponent>)
    ensures
        views(r@) == components(path@),
{
    let chars = chars_of(path);
    let mut out: Vec<PathComponent> = Vec::new();
    let mut from: usize = 0;
    let mut leading: bool = true;
    assert(views(out@) =~= Seq::<ComponentView>::empty());
    if chars.len() > 0 && chars[0] == '/' {
        out.push(PathComponent::RootDir);
        from = 1;
        leading = false;
        assert(views(out@) =~= seq![ComponentView::RootDir]);
    } else {
        assert(chars@.skip(0) =~= chars@);
    }
    assert(views(out@) + piece_components(chars@.skip(from as int), leading) =~= components(path@));
    let mut at: usize = from;
    while at < chars.len()
        invariant
            from <= at <= chars@.len(),
            chars@ == path@,
            forall|i: int| from <= i < at ==> #[trigger] chars@[i] != '/',
            views(out@) + piece_components(chars@.skip(from as int), leading) == components(path@),
        decreases chars@.len() - at,
    {
        if chars[at] == '/' {
            let ghost before = out@;
            let ghost rest = chars@.skip(from as int);
            let c = piece_component_of(&chars, from, at, leading);
            proof {
                lemma_first_slash_is(rest, (at - from) as nat);
                assert(rest.take(at - from) =~= chars@.subrange(from as int, at as int));
                assert(rest.skip(at - from + 1) =~= chars@.skip(at + 1));
            }
            let ghost head = as_seq(
                piece_component(chars@.subrange(from as int, at as int), leading),
            );
            match c {
                Some(c) => {
                    out.push(c);
                    assert(views(out@) =~= views(before) + head);
                },
                None => {
                    assert(views(out@) =~= views(before) + head);
                },
            }
            assert(views(before) + (head + piece_components(chars@.skip(at + 1), false)) =~= views(
                before,
            ) + head + piece_components(chars@.skip(at + 1), false));
            from = at + 1;
            leading = false;
        }
        at = at + 1;
    }
    let ghost before = out@;
    let ghost rest = chars@.skip(from as int);
    let c = piece_component_of(&chars, from, chars.len(), leading);
    proof {
        lemma_first_slash_is(rest, rest.len());
        assert(rest.take(rest.len() as int) =~= chars@.subrange(from as int, chars@.len() as int));
    }
    let ghost head = as_seq(
        piece_component(chars@.subrange(from as int, chars@.len() as int), leading),
    );
    match c {
        Some(c) => {
            out.push(c);
            assert(views(out@) =~= views(before) + head);
        },
        None => {
            assert(views(out@) =~= views(before) + head);
        },
    }
    out
}

/// `base` with the relative path `name` appended.
pub fn join_paths(base: &str, name: &str) -> (r: String)
    ensures
        r@ == join(base@, name@),
{
    let n: usize = base.unicode_len();
    if n == 0 || base.get_char(n - 1) == '/' {
        join2(base, name)
    } else {
        proof {
            reveal_strlit("/");
            assert("/"@ =~= seq!['/']);
        }
        join3(base, "/", name)
    }
}

fn trailing_end(chars: &Vec<char>, end: usize) -> (r: usize)
    requires
        end <= chars@.len(),
    ensures
        r <= end,
        chars@.take(r as int) == without_trailing(chars@.take(end as int)),
{
    let mut n: usize = end;
    while n > 1 && (chars[n - 1] == '/' || (chars[n - 1] == '.' && chars[n - 2] == '/'))
        invariant
            n <= end <= chars@.len(),
            without_trailing(chars@.take(n as int)) == without_trailing(chars@.take(end as int)),
        decreases n,
    {
        assert(chars@.take(n as int).drop_last() =~= chars@.take(n - 1));
        n = n - 1;
    }
    n
}

fn last_slash_end(chars: &Vec<char>, end: usize) -> (r: usize)
    requires
        end <= chars@.len(),
    ensures
        r <= end,
        r == after_last_slash(chars@.take(end as int)),
{
    let mut n: usize = end;
    while n > 0 && chars[n - 1] != '/'
        invariant
            n <= end <= chars@.len(),
            after_last_slash(chars@.take(n as int)) == after_last_slash(chars@.take(end as int)),
        decreases n,
    {
        assert(chars@.take(n as int).drop_last() =~= chars@.take(n - 1));
        n = n - 1;
    }
    n
}

/// The path without its last component.
pub fn parent_of(path: &str) -> (r: Option<String>)
    ensures
        parent(path@) == match r {
            Some(p) => Some(p@),
            None => None,
        },
{
    let chars = chars_of(path);
    let n: usize = trailing_end(&chars, chars.len());
    assert(chars@.take(chars@.len() as int) =~= chars@);
    let ghost t = chars@.take(n as int);
    if n == 0 {
        return None;
    }
    if n == 1 && chars[0] == '/' {
        assert(t =~= seq!['/']);
        return None;
    }
    assert(t != seq!['/']) by {
        if t == seq!['/'] {
            assert(t[0] == '/');
        }
    }
    let cut: usize = last_slash_end(&chars, n);
    let end: usize = trailing_end(&chars, cut);
    assert(t.take(cut as int) =~= chars@.take(cut as int));
    assert(chars@.take(end as int) =~= chars@.subrange(0, end as int));
    Some(text_of(&chars, 0, end))
}

/// The last component of the path, if it is a name.
pub fn file_name_of(path: &str) -> (r: Option<String>)
    ensures
        file_name(path@) == match r {
            Some(p) => Some(p@),
            None => None,
        },
{
    let chars = chars_of(path);
    let n: usize = trailing_end(&chars, chars.len());
    assert(chars@.take(chars@.len() as int) =~= chars@);
    let cut: usize = last_slash_end(&chars, n);
    let ghost name = chars@.take(n as int).skip(cut as int);
    assert(name =~= chars@.subrange(cut as int, n as int));
    match piece_component_of(&chars, cut, n, true) {
        Some(PathComponent::Normal(name)) => Some(name),
        _ => None,
    }
}

/// Does `path` lie under `base`, component by component?
pub fn path_lies_under(path: &str, base: &str) -> (r: bool)
    ensures
        r == lies_under(path@, base@),
{
    let outer = components_of(base);
    let inner = components_of(path);
    if outer.len() > inner.len() {
        return false;
    }
    let mut i: usize = 0;
    while i < outer.len()
        invariant
            i <= outer@.len() <= inner@.len(),
            views(outer@) == components(base@),
            views(inner@) == components(path@),
            forall|j: int| 0 <= j < i ==> #[trigger] views(outer@)[j] == views(inner@)[j],
        decreases outer@.len() - i,
    {
        if !same_component(&outer[i], &inner[i]) {
            assert(views(outer@)[i as int] != views(inner@)[i as int]);
            assert(components(path@).subrange(0, components(base@).len() as int)[i as int]
                == components(path@)[i as int]);
            return false;
        }
        i = i + 1;
    }
    assert(components(base@) =~= components(path@).subrange(0, components(base@).len() as int));
    true
}

fn same_component(a: &PathComponent, b: &PathComponent) -> (r: bool)
    ensures
        r == (a@ == b@),
{
    match (a, b) {
        (PathComponent::RootDir, PathComponent::RootDir) => true,
        (PathComponent::CurDir, PathComponent::CurDir) => true,
        (PathComponent::ParentDir, PathComponent::ParentDir) => true,
        (PathComponent::Normal(x), PathComponent::Normal(y)) => text::same_text(
            x.as_str(),
            y.as_str(),
        ),
        _ => false,
    }
}

proof fn lemma_pieces_of_slash(s: Seq<char>, leading: bool)
    ensures
        piece_components(s.push('/'), leading) == piece_components(s, leading),
    decreases s.len(),
{
    lemma_first_slash(s);
    let n = first_slash(s) as int;
    let t = s.push('/');
    assert forall|i: int| 0 <= i < n implies #[trigger] t[i] != '/' by {
        assert(t[i] == s[i]);
    }
    lemma_first_slash_is(t, n as nat);
    let head = as_seq(piece_component(s.take(n), leading));
    assert(t.take(n) =~= s.take(n));
    if n < s.len() {
        let rest = s.skip(n + 1);
        assert(t.skip(n + 1) =~= rest.push('/'));
        lemma_pieces_of_slash(rest, false);
    } else {
        let e = t.skip(n + 1);
        assert(e.len() == 0);
        lemma_first_slash(e);
        assert(piece_components(e, false) =~= Seq::<ComponentView>::empty());
        assert(head + piece_components(e, false) =~= head);
    }
}

/// What a path is made of: a plain name joined to it is one component more; a slash at
/// its end is none.
pub proof fn law_components_are_the_joined_names(base: Seq<char>, name: Seq<char>)
    ensures
        components(Seq::empty()) == Seq::<ComponentView>::empty(),
        is_plain_name(name) ==> components(join(base, name)) == components(base).push(
            ComponentView::Normal(name),
        ),
        base.len() > 0 ==> components(base.push('/')) == components(base),
{
    let e = Seq::<char>::empty();
    lemma_first_slash(e);
    assert(components(e) =~= Seq::<ComponentView>::empty());
    if is_plain_name(name) {
        lemma_components_of_join(base, name);
    }
    if base.len() > 0 {
        if base[0] == '/' {
            assert(base.push('/').skip(1) =~= base.skip(1).push('/'));
            lemma_pieces_of_slash(base.skip(1), false);
        } else {
            lemma_pieces_of_slash(base, true);
        }
    }
}

/// A path lies under another by whole names: what is joined to the other does, and
/// beside it nothing does whose name differs.
pub proof fn law_paths_lie_under_by_whole_names(base: Seq<char>, x: Seq<char>, y: Seq<char>)
    requires
        is_plain_name(x),
        is_plain_name(y),
    ensures
        lies_under(base, base),
        lies_under(join(base, x), base),
        !lies_under(base, join(base, x)),
        x != y ==> !lies_under(join(base, x), join(base, y)),
{
    lemma_components_of_join(base, x);
    lemma_components_of_join(base, y);
    let c = components(base);
    assert(c.subrange(0, c.len() as int) =~= c);
    assert(c.push(ComponentView::Normal(x)).subrange(0, c.len() as int) =~= c);
    if lies_under(join(base, x), join(base, y)) {
        let a = c.push(ComponentView::Normal(x));
        let b = c.push(ComponentView::Normal(y));
        assert(b[c.len() as int] == a.subrange(0, b.len() as int)[c.len() as int]);
    }
}

/// A joined path is the base, a slash if it does not end in one, and the name.
pub proof fn law_joining_puts_a_slash_between(base: Seq<char>, name: Seq<char>)
    ensures
        base.len() > 0 && base.last() != '/' ==> join(base, name) == base + seq!['/'] + name,
        base.len() > 0 && base.last() == '/' ==> join(base, name) == base + name,
        base.len() == 0 ==> join(base, name) == name,
{
    assert(base.push('/') =~= base + seq!['/']);
    if base.len() > 0 && base.last() != '/' {
        assert(join(base, name) =~= base + seq!['/'] + name);
    }
    if base.len() == 0 {
        assert(base + name =~= name);
    }
}

} // verus!
