//! Minimal Micron helpers for default and error pages.

use vstd::prelude::*;

use crate::text;
use crate::text::char_is_control;
use crate::text::chars_of;
use crate::text::join3;

verus! {

/// Max characters kept when interpolating operator-controlled text into Micron.
pub const MAX_MICRON_TEXT_CHARS: usize = 128;

/// A character as Micron text may hold it: a backtick becomes an apostrophe.
pub open spec fn without_backtick(c: char) -> char {
    if c == '`' {
        '\''
    } else {
        c
    }
}

/// The first `n` characters of `s`, or all of it.
pub open spec fn first_chars(s: Seq<char>, n: nat) -> Seq<char> {
    if s.len() <= n {
        s
    } else {
        s.take(n as int)
    }
}

/// `s` without control codes, its backticks replaced.
pub open spec fn printable(s: Seq<char>) -> Seq<char> {
    s.filter(|c: char| !text::is_control(c)).map_values(|c: char| without_backtick(c))
}

/// Text that is safe to put into a Micron page.
pub open spec fn sanitized(s: Seq<char>) -> Seq<char> {
    first_chars(printable(s), MAX_MICRON_TEXT_CHARS as nat)
}

/// The display name as the default page shows it.
pub open spec fn shown_name(display_name: Seq<char>) -> Seq<char> {
    let name = sanitized(text::trimmed(display_name));
    if name.len() == 0 {
        "Nomad node"@
    } else {
        name
    }
}

/// The text of the default page.
pub open spec fn index_page(display_name: Seq<char>) -> Seq<char> {
    "#!c=30\n> "@ + shown_name(display_name)
        + "\n\nThis node is hosted by `rsNomad` (Rust Nomad Network for Reticulum).\n\nAdd pages under `pages/` to replace this placeholder.\n"@
}

/// The text of the page that stands in for a missing one.
pub open spec fn missing_page(route: Seq<char>) -> Seq<char> {
    "#!c=0\n> Not found\n\nThe page `"@ + sanitized(route)
        + "` is not available on this node.\n"@
}

proof fn lemma_printable_push(s: Seq<char>, c: char)
    ensures
        printable(s.push(c)) == if text::is_control(c) {
            printable(s)
        } else {
            printable(s).push(without_backtick(c))
        },
{
    reveal(Seq::filter);
    let keep = |c: char| !text::is_control(c);
    assert(s.push(c).drop_last() =~= s);
    if !text::is_control(c) {
        assert(s.push(c).filter(keep) == s.filter(keep).push(c));
        assert(printable(s.push(c)) =~= printable(s).push(without_backtick(c)));
    }
}

/// Sanitize text interpolated into Micron pages (display names, routes).
///
/// Strips control characters, replaces backticks (Micron code spans), and
/// truncates length so operator-controlled strings cannot inject directives.
pub fn sanitize_micron_text(s: &str) -> (r: String)
    ensures
        r@ == sanitized(s@),
{
    let chars = chars_of(s);
    let mut out = String::new();
    let mut kept: usize = 0;
    let mut i: usize = 0;
    proof {
        reveal(Seq::filter);
        assert(printable(s@.take(0)) =~= Seq::<char>::empty());
    }
    while i < chars.len()
        invariant
            i <= chars@.len(),
            chars@ == s@,
            kept == out@.len(),
            kept <= MAX_MICRON_TEXT_CHARS,
            out@ == sanitized(s@.take(i as int)),
        decreases chars@.len() - i,
    {
        let c: char = chars[i];
        let ghost before = printable(s@.take(i as int));
        proof {
            assert(s@.take(i + 1) =~= s@.take(i as int).push(c));
            lemma_printable_push(s@.take(i as int), c);
        }
        if !char_is_control(c) && kept < MAX_MICRON_TEXT_CHARS {
            let shown: char = if c == '`' {
                '\''
            } else {
                c
            };
            out.push(shown);
            kept = kept + 1;
        } else if !char_is_control(c) {
            assert(first_chars(before.push(without_backtick(c)), MAX_MICRON_TEXT_CHARS as nat)
                =~= first_chars(before, MAX_MICRON_TEXT_CHARS as nat));
        }
        i = i + 1;
    }
    assert(s@.take(i as int) =~= s@);
    out
}

/// Placeholder `index.mu` when the host has no pages yet.
pub fn default_index_page(display_name: &str) -> (r: String)
    ensures
        r@ == index_page(display_name@),
{
    let name = sanitize_micron_text(text::trim(display_name));
    let name = if name.as_str().is_empty() {
        "Nomad node".to_owned()
    } else {
        name
    };
    join3(
        "#!c=30\n> ",
        name.as_str(),
        "\n\nThis node is hosted by `rsNomad` (Rust Nomad Network for Reticulum).\n\nAdd pages under `pages/` to replace this placeholder.\n",
    )
}

/// Micron 404 body for a missing page route.
pub fn not_found_page(route: &str) -> (r: String)
    ensures
        r@ == missing_page(route@),
{
    let route = sanitize_micron_text(route);
    join3(
        "#!c=0\n> Not found\n\nThe page `",
        route.as_str(),
        "` is not available on this node.\n",
    )
}

/// Sanitized text holds at most `MAX_MICRON_TEXT_CHARS` characters, and neither
/// control codes nor backticks are among them.
pub proof fn law_sanitized_text_is_safe(s: Seq<char>)
    ensures
        sanitized(s).len() <= MAX_MICRON_TEXT_CHARS,
        !text::has_control(sanitized(s)),
        !sanitized(s).contains('`'),
{
    let keep = |c: char| !text::is_control(c);
    let kept = s.filter(keep);
    assert forall|i: int| 0 <= i < sanitized(s).len() implies !text::is_control(
        #[trigger] sanitized(s)[i],
    ) && sanitized(s)[i] != '`' by {
        s.lemma_filter_pred(keep, i);
        assert(keep(kept[i]));
        assert(sanitized(s)[i] == without_backtick(kept[i]));
    }
}

proof fn lemma_printable_unchanged(s: Seq<char>)
    requires
        !text::has_control(s),
        !s.contains('`'),
    ensures
        printable(s) == s,
    decreases s.len(),
{
    reveal(Seq::filter);
    if s.len() == 0 {
        assert(printable(s) =~= s);
    } else {
        let t = s.drop_last();
        assert forall|i: int| 0 <= i < t.len() implies !text::is_control(#[trigger] t[i]) by {
            assert(t[i] == s[i]);
            assert(!text::is_control(s[i]));
        }
        assert(!t.contains('`')) by {
            if t.contains('`') {
                let i = choose|i: int| 0 <= i < t.len() && t[i] == '`';
                assert(s[i] == '`');
            }
        }
        lemma_printable_unchanged(t);
        assert(s =~= t.push(s.last()));
        assert(!text::is_control(s[s.len() - 1]));
        assert(s[s.len() - 1] != '`');
        lemma_printable_push(t, s.last());
    }
}

/// Sanitizing sanitized text changes nothing.
pub proof fn law_sanitizing_is_stable(s: Seq<char>)
    ensures
        sanitized(sanitized(s)) == sanitized(s),
{
    law_sanitized_text_is_safe(s);
    lemma_printable_unchanged(sanitized(s));
}

/// Text that is short enough and holds neither control codes nor backticks is
/// shown as it is.
pub proof fn law_harmless_text_is_kept(s: Seq<char>)
    requires
        s.len() <= MAX_MICRON_TEXT_CHARS,
        !text::has_control(s),
        !s.contains('`'),
    ensures
        sanitized(s) == s,
{
    lemma_printable_unchanged(s);
}

/// The page for a missing route shows the route, and the default page shows the
/// display name.
pub proof fn law_pages_show_their_subject(subject: Seq<char>)
    ensures
        text::contains_run(missing_page(subject), sanitized(subject)),
        text::contains_run(index_page(subject), shown_name(subject)),
{
    let a = "#!c=0\n> Not found\n\nThe page `"@;
    assert(missing_page(subject).subrange(a.len() as int, a.len() as int + sanitized(subject).len())
        =~= sanitized(subject));
    assert(text::run_at(missing_page(subject), sanitized(subject), a.len() as int));
    let b = "#!c=30\n> "@;
    assert(index_page(subject).subrange(b.len() as int, b.len() as int + shown_name(subject).len())
        =~= shown_name(subject));
    assert(text::run_at(index_page(subject), shown_name(subject), b.len() as int));
}

/// The display name as the default page shows it, on a line of its own.
pub open spec fn name_line(display_name: Seq<char>) -> Seq<char> {
    "> "@ + shown_name(display_name)
}

/// The lines of the default page: only the second depends on the display name.
pub open spec fn index_lines(display_name: Seq<char>) -> Seq<Seq<char>> {
    seq![
        "#!c=30"@,
        name_line(display_name),
        ""@,
        "This node is hosted by `rsNomad` (Rust Nomad Network for Reticulum)."@,
        ""@,
        "Add pages under `pages/` to replace this placeholder."@,
        ""@,
    ]
}

/// How the default page ends.
spec fn closing() -> Seq<char> {
    "\n\nThis node is hosted by `rsNomad` (Rust Nomad Network for Reticulum).\n\nAdd pages under `pages/` to replace this placeholder.\n"@
}

proof fn lemma_closing()
    ensures
        closing() == seq!['\n'] + (""@ + seq!['\n']
            + ("This node is hosted by `rsNomad` (Rust Nomad Network for Reticulum)."@ + seq!['\n'] + (
        ""@ + seq!['\n'] + ("Add pages under `pages/` to replace this placeholder."@ + seq!['\n']
            + ""@)))),
{
    reveal_strlit(
        "\n\nThis node is hosted by `rsNomad` (Rust Nomad Network for Reticulum).\n\nAdd pages under `pages/` to replace this placeholder.\n",
    );
    reveal_strlit("This node is hosted by `rsNomad` (Rust Nomad Network for Reticulum).");
    reveal_strlit("Add pages under `pages/` to replace this placeholder.");
    reveal_strlit("");
    assert(closing() =~= seq!['\n'] + (""@ + seq!['\n']
        + ("This node is hosted by `rsNomad` (Rust Nomad Network for Reticulum)."@ + seq!['\n'] + (""@
        + seq!['\n'] + ("Add pages under `pages/` to replace this placeholder."@ + seq!['\n']
        + ""@)))));
}

proof fn lemma_hosted_line()
    ensures
        !"This node is hosted by `rsNomad` (Rust Nomad Network for Reticulum)."@.contains('\n'),
        text::occurrences(
            "This node is hosted by `rsNomad` (Rust Nomad Network for Reticulum)."@,
            '`',
        ) == 2,
{
    reveal_strlit("This node is hosted by `rsNomad` (Rust Nomad Network for Reticulum).");
    let s = "This node is hosted by `rsNomad` (Rust Nomad Network for Reticulum)."@;
    assert(forall|i: int| 0 <= i < s.len() && i != 23 && i != 31 ==> #[trigger] s[i] != '`');
    text::lemma_two_occurrences(s, '`', 23, 31);
}

proof fn lemma_add_line()
    ensures
        !"Add pages under `pages/` to replace this placeholder."@.contains('\n'),
        text::occurrences("Add pages under `pages/` to replace this placeholder."@, '`') == 2,
{
    reveal_strlit("Add pages under `pages/` to replace this placeholder.");
    let s = "Add pages under `pages/` to replace this placeholder."@;
    assert(forall|i: int| 0 <= i < s.len() && i != 16 && i != 23 ==> #[trigger] s[i] != '`');
    text::lemma_two_occurrences(s, '`', 16, 23);
}

/// The line with the name has neither a line end nor a backtick.
proof fn lemma_name_line(display_name: Seq<char>)
    ensures
        !name_line(display_name).contains('\n'),
        !name_line(display_name).contains('`'),
{
    reveal_strlit("> ");
    reveal_strlit("Nomad node");
    let name = shown_name(display_name);
    let line = name_line(display_name);
    let trimmed = text::trimmed(display_name);
    law_sanitized_text_is_safe(trimmed);
    assert forall|i: int| 0 <= i < line.len() implies #[trigger] line[i] != '\n' && line[i]
        != '`' by {
        if i >= 2 {
            assert(line[i] == name[i - 2]);
            if name == sanitized(trimmed) {
                assert(!text::is_control(sanitized(trimmed)[i - 2]));
                assert(sanitized(trimmed).contains(sanitized(trimmed)[i - 2]));
            }
        }
    }
}

/// A line, a line end and what follows it: the lines and the backticks add up.
proof fn lemma_line_then(line: Seq<char>, rest: Seq<char>)
    requires
        !line.contains('\n'),
    ensures
        text::lines(line + seq!['\n'] + rest) == seq![line] + text::lines(rest),
        text::occurrences(line + seq!['\n'] + rest, '`') == text::occurrences(line, '`')
            + text::occurrences(rest, '`'),
{
    text::lemma_one_line(line);
    text::lemma_lines_split(line, rest);
    assert(!seq!['\n'].contains('`'));
    text::lemma_no_occurrence(seq!['\n'], '`');
    text::lemma_occurrences_concat(line, seq!['\n'], '`');
    text::lemma_occurrences_concat(line + seq!['\n'], rest, '`');
}

/// A display name cannot add a line or a directive to the default page: the page
/// has the same seven lines for every name but for the second, which is `> ` and
/// the sanitized name (or `Nomad node` where nothing is left of it); so it always
/// holds six line ends and four backticks.
pub proof fn law_names_add_nothing_to_the_default_page(display_name: Seq<char>)
    ensures
        text::lines(index_page(display_name)) == index_lines(display_name),
        text::occurrences(index_page(display_name), '\n') == 6,
        text::occurrences(index_page(display_name), '`') == 4,
{
    let page = index_page(display_name);
    let name = name_line(display_name);
    let hosted = "This node is hosted by `rsNomad` (Rust Nomad Network for Reticulum)."@;
    let add = "Add pages under `pages/` to replace this placeholder."@;
    lemma_closing();
    lemma_hosted_line();
    lemma_add_line();
    lemma_name_line(display_name);
    reveal_strlit("#!c=30");
    reveal_strlit("#!c=30\n> ");
    reveal_strlit("> ");
    reveal_strlit("");
    let e = add + seq!['\n'] + ""@;
    let f = ""@ + seq!['\n'] + e;
    let g = hosted + seq!['\n'] + f;
    let h = ""@ + seq!['\n'] + g;
    let k = name + seq!['\n'] + h;
    assert(closing() == seq!['\n'] + h);
    assert("#!c=30\n> "@ =~= "#!c=30"@ + seq!['\n'] + "> "@);
    assert(page =~= "#!c=30"@ + seq!['\n'] + k);
    text::lemma_one_line(""@);
    text::lemma_no_occurrence(""@, '`');
    text::lemma_no_occurrence("#!c=30"@, '`');
    text::lemma_no_occurrence(name, '`');
    lemma_line_then(add, ""@);
    lemma_line_then(""@, e);
    lemma_line_then(hosted, f);
    lemma_line_then(""@, g);
    lemma_line_then(name, h);
    lemma_line_then("#!c=30"@, k);
    assert(text::lines(page) =~= index_lines(display_name));
    text::lemma_line_ends(page);
}

/// The lines of the page for a missing route: only the fourth depends on it.
pub open spec fn missing_lines(route: Seq<char>) -> Seq<Seq<char>> {
    seq![
        "#!c=0"@,
        "> Not found"@,
        ""@,
        "The page `"@ + sanitized(route) + "` is not available on this node."@,
        ""@,
    ]
}

/// A route cannot add a line or a directive to the page that says it is missing:
/// the page has the same five lines for every route but for the fourth, which
/// shows the sanitized route; so it always holds four line ends and two backticks.
pub proof fn law_routes_add_nothing_to_the_missing_page(route: Seq<char>)
    ensures
        text::lines(missing_page(route)) == missing_lines(route),
        text::occurrences(missing_page(route), '\n') == 4,
        text::occurrences(missing_page(route), '`') == 2,
{
    let page = missing_page(route);
    let shown = sanitized(route);
    let head = "The page `"@;
    let tail = "` is not available on this node."@;
    let line = head + shown + tail;
    law_sanitized_text_is_safe(route);
    reveal_strlit("#!c=0\n> Not found\n\nThe page `");
    reveal_strlit("` is not available on this node.\n");
    reveal_strlit("#!c=0");
    reveal_strlit("> Not found");
    reveal_strlit("");
    reveal_strlit("The page `");
    reveal_strlit("` is not available on this node.");
    assert forall|i: int| 0 <= i < line.len() implies #[trigger] line[i] != '\n' && (i != 9 && i
        != 10 + shown.len() ==> line[i] != '`') by {
        if 10 <= i < 10 + shown.len() {
            assert(line[i] == shown[i - 10]);
            assert(!text::is_control(shown[i - 10]));
            assert(shown.contains(shown[i - 10]));
        } else if i < 10 {
            assert(line[i] == head[i]);
        } else {
            assert(line[i] == tail[i - 10 - shown.len()]);
        }
    }
    assert(line[9] == head[9]);
    assert(line[10 + shown.len() as int] == tail[0]);
    text::lemma_two_occurrences(line, '`', 9, 10 + shown.len() as int);
    let d = line + seq!['\n'] + ""@;
    let e = ""@ + seq!['\n'] + d;
    let f = "> Not found"@ + seq!['\n'] + e;
    assert(page =~= "#!c=0"@ + seq!['\n'] + f);
    text::lemma_one_line(""@);
    text::lemma_no_occurrence(""@, '`');
    text::lemma_no_occurrence("#!c=0"@, '`');
    text::lemma_no_occurrence("> Not found"@, '`');
    lemma_line_then(line, ""@);
    lemma_line_then(""@, d);
    lemma_line_then("> Not found"@, e);
    lemma_line_then("#!c=0"@, f);
    assert(text::lines(page) =~= missing_lines(route));
    text::lemma_line_ends(page);
}

proof fn lemma_printable_concat(a: Seq<char>, b: Seq<char>)
    ensures
        printable(a + b) == printable(a) + printable(b),
    decreases b.len(),
{
    if b.len() == 0 {
        reveal(Seq::filter);
        assert(a + b =~= a);
        assert(printable(b) =~= Seq::<char>::empty());
        assert(printable(a) + printable(b) =~= printable(a));
    } else {
        let t = b.drop_last();
        lemma_printable_concat(a, t);
        assert(a + b =~= (a + t).push(b.last()));
        assert(b =~= t.push(b.last()));
        lemma_printable_push(a + t, b.last());
        lemma_printable_push(t, b.last());
        assert(printable(a + b) =~= printable(a) + printable(b));
    }
}

proof fn lemma_printable_one(c: char)
    ensures
        printable(seq![c]) == if text::is_control(c) {
            Seq::empty()
        } else {
            seq![without_backtick(c)]
        },
{
    reveal(Seq::filter);
    let e = Seq::<char>::empty();
    assert(printable(e) =~= e);
    assert(e.push(c) =~= seq![c]);
    lemma_printable_push(e, c);
    assert(e.push(without_backtick(c)) =~= seq![without_backtick(c)]);
}

/// Of a text nothing is lost but control codes, backticks and what is over the cap:
/// a control code more makes no difference, a backtick counts as an apostrophe, and
/// of a text without either, the first 128 characters are kept.
pub proof fn law_sanitizing_loses_only_what_is_unsafe(a: Seq<char>, c: char, b: Seq<char>)
    ensures
        text::is_control(c) ==> sanitized(a + seq![c] + b) == sanitized(a + b),
        sanitized(a + seq!['`'] + b) == sanitized(a + seq!['\''] + b),
        !text::has_control(a) && !a.contains('`') ==> sanitized(a) == if a.len() <= 128 {
            a
        } else {
            a.take(128)
        },
{
    lemma_printable_concat(a, seq![c]);
    lemma_printable_concat(a + seq![c], b);
    lemma_printable_concat(a, b);
    lemma_printable_concat(a, seq!['`']);
    lemma_printable_concat(a + seq!['`'], b);
    lemma_printable_concat(a, seq!['\'']);
    lemma_printable_concat(a + seq!['\''], b);
    lemma_printable_one(c);
    lemma_printable_one('`');
    lemma_printable_one('\'');
    assert(printable(a) + Seq::<char>::empty() =~= printable(a));
    if !text::has_control(a) && !a.contains('`') {
        lemma_printable_unchanged(a);
    }
}

/// The default page shows a name that is short and holds nothing unsafe as it is, in
/// its second line; blanks around it aside. Where nothing is left of a name, it shows
/// `Nomad node`.
pub proof fn law_default_pages_show_the_name(name: Seq<char>)
    ensures
        ({
            let given = text::trimmed(name);
            let line = text::lines(index_page(name))[1];
            &&& 0 < given.len() <= 128 && !text::has_control(given) && !given.contains('`') ==> line
                == "> "@ + given
            &&& sanitized(given).len() > 0 ==> line == "> "@ + sanitized(given)
            &&& sanitized(given).len() == 0 ==> line == "> Nomad node"@
        }),
{
    law_names_add_nothing_to_the_default_page(name);
    let given = text::trimmed(name);
    if 0 < given.len() <= 128 && !text::has_control(given) && !given.contains('`') {
        lemma_printable_unchanged(given);
    }
    reveal_strlit("> ");
    reveal_strlit("Nomad node");
    reveal_strlit("> Nomad node");
    assert("> "@ + "Nomad node"@ =~= "> Nomad node"@);
}

/// The page for a missing route holds the route, sanitized, and is otherwise the same
/// for all.
pub proof fn law_missing_pages_name_the_route(route: Seq<char>)
    ensures
        missing_page(route) == "#!c=0\n> Not found\n\nThe page `"@ + sanitized(route)
            + "` is not available on this node.\n"@,
        route.len() <= 128 && !text::has_control(route) && !route.contains('`') ==> missing_page(
            route,
        ) == "#!c=0\n> Not found\n\nThe page `"@ + route + "` is not available on this node.\n"@,
{
    if !text::has_control(route) && !route.contains('`') {
        lemma_printable_unchanged(route);
    }
}

} // verus!
