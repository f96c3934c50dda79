//! Characters, trimming and UTF-8 lengths: the text operations that routes,
//! names and pages are built from.

use vstd::prelude::*;
use vstd::string::*;
use vstd::utf8::*;

verus! {

/// `String::push` appends the given character to the end of the string.
pub assume_specification[ String::push ](s: &mut String, c: char)
    ensures
        final(s)@ == old(s)@.push(c),
;

/// Control codes: the Unicode general category `Cc`.
pub open spec fn is_control(c: char) -> bool {
    c <= '\u{1f}' || '\u{7f}' <= c <= '\u{9f}'
}

/// The code points with the Unicode property `White_Space`.
pub open spec fn is_white_space(c: char) -> bool {
    ||| '\u{9}' <= c <= '\u{d}'
    ||| c == '\u{20}'
    ||| c == '\u{85}'
    ||| c == '\u{a0}'
    ||| c == '\u{1680}'
    ||| '\u{2000}' <= c <= '\u{200a}'
    ||| c == '\u{2028}'
    ||| c == '\u{2029}'
    ||| c == '\u{202f}'
    ||| c == '\u{205f}'
    ||| c == '\u{3000}'
}

/// `s` without its leading white space.
pub open spec fn trim_start(s: Seq<char>) -> Seq<char>
    decreases s.len(),
{
    if s.len() > 0 && is_white_space(s[0]) {
        trim_start(s.skip(1))
    } else {
        s
    }
}

/// `s` without its trailing white space.
pub open spec fn trim_end(s: Seq<char>) -> Seq<char>
    decreases s.len(),
{
    if s.len() > 0 && is_white_space(s.last()) {
        trim_end(s.drop_last())
    } else {
        s
    }
}

/// `s` without its leading and trailing white space.
pub open spec fn trimmed(s: Seq<char>) -> Seq<char> {
    trim_end(trim_start(s))
}

/// `s` without its leading slashes.
pub open spec fn without_leading_slashes(s: Seq<char>) -> Seq<char>
    decreases s.len(),
{
    if s.len() > 0 && s[0] == '/' {
        without_leading_slashes(s.skip(1))
    } else {
        s
    }
}

/// `s` without its trailing slashes.
pub open spec fn without_end_slashes(s: Seq<char>) -> Seq<char>
    decreases s.len(),
{
    if s.len() > 0 && s.last() == '/' {
        without_end_slashes(s.drop_last())
    } else {
        s
    }
}

/// The number of bytes that `s` takes in UTF-8.
pub open spec fn utf8_len(s: Seq<char>) -> nat {
    encode_utf8(s).len()
}

/// The longest prefix of `s` that takes at most `max` bytes in UTF-8.
pub open spec fn byte_prefix(s: Seq<char>, max: nat) -> Seq<char>
    decreases s.len(),
{
    if s.len() == 0 || utf8_len(s) <= max {
        s
    } else {
        byte_prefix(s.drop_last(), max)
    }
}

/// `part` occurs in `s` as a contiguous run of characters.
pub open spec fn contains_run(s: Seq<char>, part: Seq<char>) -> bool {
    exists|i: int| #[trigger] run_at(s, part, i)
}

/// `part` stands in `s` from position `i` on.
pub open spec fn run_at(s: Seq<char>, part: Seq<char>, i: int) -> bool {
    0 <= i <= s.len() - part.len() && s.subrange(i, i + part.len()) == part
}

/// How often `c` occurs in `s`.
pub open spec fn occurrences(s: Seq<char>, c: char) -> nat
    decreases s.len(),
{
    if s.len() == 0 {
        0
    } else {
        occurrences(s.drop_last(), c) + if s.last() == c {
            1nat
        } else {
            0nat
        }
    }
}

/// The lines of `s`: the pieces between its line ends, an empty one included.
pub open spec fn lines(s: Seq<char>) -> Seq<Seq<char>>
    decreases s.len(),
{
    if s.len() == 0 {
        seq![s]
    } else {
        let before = lines(s.drop_last());
        if s.last() == '\n' {
            before.push(Seq::empty())
        } else {
            before.drop_last().push(before.last().push(s.last()))
        }
    }
}

/// Some character of `s` is a control code.
pub open spec fn has_control(s: Seq<char>) -> bool {
    exists|i: int| 0 <= i < s.len() && is_control(#[trigger] s[i])
}

pub proof fn lemma_trim_start_is_suffix(s: Seq<char>) -> (n: int)
    ensures
        0 <= n <= s.len(),
        trim_start(s) == s.skip(n),
        forall|i: int| 0 <= i < n ==> is_white_space(#[trigger] s[i]),
        n < s.len() ==> !is_white_space(s[n]),
    decreases s.len(),
{
    if s.len() > 0 && is_white_space(s[0]) {
        let m = lemma_trim_start_is_suffix(s.skip(1));
        assert(s.skip(1).skip(m) =~= s.skip(m + 1));
        assert forall|i: int| 0 <= i < m + 1 implies is_white_space(#[trigger] s[i]) by {
            if i > 0 {
                assert(s.skip(1)[i - 1] == s[i]);
            }
        }
        if m + 1 < s.len() {
            assert(s.skip(1)[m] == s[m + 1]);
        }
        m + 1
    } else {
        assert(s.skip(0) =~= s);
        0
    }
}

pub proof fn lemma_trim_end_is_prefix(s: Seq<char>) -> (n: int)
    ensures
        0 <= n <= s.len(),
        trim_end(s) == s.take(n),
        forall|i: int| n <= i < s.len() ==> is_white_space(#[trigger] s[i]),
        n > 0 ==> !is_white_space(s[n - 1]),
    decreases s.len(),
{
    if s.len() > 0 && is_white_space(s.last()) {
        let m = lemma_trim_end_is_prefix(s.drop_last());
        assert(s.drop_last().take(m) =~= s.take(m));
        assert forall|i: int| m <= i < s.len() implies is_white_space(#[trigger] s[i]) by {
            if i < s.len() - 1 {
                assert(s.drop_last()[i] == s[i]);
            }
        }
        m
    } else {
        assert(s.take(s.len() as int) =~= s);
        s.len() as int
    }
}

/// A suffix from a place where no white space stands, after white space only,
/// is the trimmed start.
proof fn lemma_trim_start_from(s: Seq<char>, n: int)
    requires
        0 <= n <= s.len(),
        forall|i: int| 0 <= i < n ==> is_white_space(#[trigger] s[i]),
        n < s.len() ==> !is_white_space(s[n]),
    ensures
        trim_start(s) == s.skip(n),
{
    let m = lemma_trim_start_is_suffix(s);
    if m < n {
        assert(is_white_space(s[m]));
    } else if n < m {
        assert(is_white_space(s[n]));
    }
}

proof fn lemma_trim_end_to(s: Seq<char>, n: int)
    requires
        0 <= n <= s.len(),
        forall|i: int| n <= i < s.len() ==> is_white_space(#[trigger] s[i]),
        n > 0 ==> !is_white_space(s[n - 1]),
    ensures
        trim_end(s) == s.take(n),
{
    let m = lemma_trim_end_is_prefix(s);
    if m < n {
        assert(is_white_space(s[n - 1]));
    } else if n < m {
        assert(is_white_space(s[m - 1]));
    }
}

/// Where the trimmed text stands inside the text.
pub proof fn lemma_trimmed_range(s: Seq<char>) -> (r: (int, int))
    ensures
        0 <= r.0 <= r.1 <= s.len(),
        trimmed(s) == s.subrange(r.0, r.1),
        forall|i: int| 0 <= i < r.0 ==> is_white_space(#[trigger] s[i]),
        forall|i: int| r.1 <= i < s.len() ==> is_white_space(#[trigger] s[i]),
        r.0 < r.1 ==> !is_white_space(s[r.0]) && !is_white_space(s[r.1 - 1]),
{
    let a = lemma_trim_start_is_suffix(s);
    let t = s.skip(a);
    let b = lemma_trim_end_is_prefix(t);
    assert(t.take(b) =~= s.subrange(a, a + b));
    assert forall|i: int| a + b <= i < s.len() implies is_white_space(#[trigger] s[i]) by {
        assert(t[i - a] == s[i]);
    }
    if b > 0 {
        assert(t[b - 1] == s[a + b - 1]);
        if a < s.len() {
        }
    }
    (a, a + b)
}

/// Text that neither starts nor ends with white space is left alone by trimming.
pub proof fn lemma_trimmed_unchanged(s: Seq<char>)
    requires
        s.len() > 0 ==> !is_white_space(s[0]) && !is_white_space(s.last()),
    ensures
        trimmed(s) == s,
{
}

/// Trimming twice is trimming once.
pub proof fn lemma_trimmed_idempotent(s: Seq<char>)
    ensures
        trimmed(trimmed(s)) == trimmed(s),
        trimmed(s).len() > 0 ==> !is_white_space(trimmed(s)[0]) && !is_white_space(
            trimmed(s).last(),
        ),
{
    let r = lemma_trimmed_range(s);
    lemma_trimmed_unchanged(trimmed(s));
}

pub proof fn lemma_without_leading_slashes(s: Seq<char>) -> (n: int)
    ensures
        0 <= n <= s.len(),
        without_leading_slashes(s) == s.skip(n),
        forall|i: int| 0 <= i < n ==> #[trigger] s[i] == '/',
        n < s.len() ==> s[n] != '/',
    decreases s.len(),
{
    if s.len() > 0 && s[0] == '/' {
        let m = lemma_without_leading_slashes(s.skip(1));
        assert(s.skip(1).skip(m) =~= s.skip(m + 1));
        assert forall|i: int| 0 <= i < m + 1 implies #[trigger] s[i] == '/' by {
            if i > 0 {
                assert(s.skip(1)[i - 1] == s[i]);
            }
        }
        if m + 1 < s.len() {
            assert(s.skip(1)[m] == s[m + 1]);
        }
        m + 1
    } else {
        assert(s.skip(0) =~= s);
        0
    }
}

/// UTF-8 encodes a concatenation piece by piece.
pub proof fn lemma_encode_concat(a: Seq<char>, b: Seq<char>)
    ensures
        encode_utf8(a + b) == encode_utf8(a) + encode_utf8(b),
    decreases a.len(),
{
    if a.len() == 0 {
        assert(a + b =~= b);
        assert(encode_utf8(a) + encode_utf8(b) =~= encode_utf8(b));
    } else {
        assert((a + b).drop_first() =~= a.drop_first() + b);
        lemma_encode_concat(a.drop_first(), b);
        assert((a + b)[0] == a[0]);
        assert(encode_scalar(a[0] as u32) + (encode_utf8(a.drop_first()) + encode_utf8(b))
            =~= (encode_scalar(a[0] as u32) + encode_utf8(a.drop_first())) + encode_utf8(b));
    }
}

/// The number of bytes that one character takes in UTF-8.
pub open spec fn char_width(c: char) -> nat {
    if c <= '\u{7f}' {
        1
    } else if c <= '\u{7ff}' {
        2
    } else if c <= '\u{ffff}' {
        3
    } else {
        4
    }
}

pub proof fn lemma_utf8_len_push(s: Seq<char>, c: char)
    ensures
        utf8_len(s.push(c)) == utf8_len(s) + char_width(c),
{
    assert(s.push(c) =~= s + seq![c]);
    lemma_encode_concat(s, seq![c]);
    assert(seq![c].drop_first() =~= Seq::<char>::empty());
    assert(encode_utf8(seq![c]) == encode_scalar(c as u32) + encode_utf8(Seq::<char>::empty())) by {
        reveal_with_fuel(encode_utf8, 2);
    }
    assert(encode_utf8(Seq::<char>::empty()).len() == 0);
}

/// A longer prefix never takes fewer bytes.
pub proof fn lemma_utf8_len_prefix(s: Seq<char>, n: int, m: int)
    requires
        0 <= n <= m <= s.len(),
    ensures
        utf8_len(s.take(n)) <= utf8_len(s.take(m)),
{
    assert(s.take(m) =~= s.take(n) + s.subrange(n, m));
    lemma_encode_concat(s.take(n), s.subrange(n, m));
}

/// What the longest prefix that fits is: a prefix, it fits, and one character
/// more would not.
pub proof fn lemma_byte_prefix(s: Seq<char>, max: nat)
    ensures
        byte_prefix(s, max).is_prefix_of(s),
        utf8_len(byte_prefix(s, max)) <= max,
        byte_prefix(s, max).len() < s.len() ==> utf8_len(
            s.take(byte_prefix(s, max).len() as int + 1),
        ) > max,
    decreases s.len(),
{
    if s.len() == 0 {
        assert(encode_utf8(s).len() == 0);
    } else if utf8_len(s) <= max {
    } else {
        let t = s.drop_last();
        lemma_byte_prefix(t, max);
        let r = byte_prefix(t, max);
        assert(r =~= s.take(r.len() as int)) by {
            assert(r =~= t.take(r.len() as int));
        }
        if r.len() < t.len() {
            assert(t.take(r.len() as int + 1) =~= s.take(r.len() as int + 1));
        } else {
            assert(s.take(r.len() as int + 1) =~= s);
        }
    }
}

/// The prefix of length `n` is the longest that fits, if it fits and the next
/// one does not.
pub proof fn lemma_byte_prefix_is(s: Seq<char>, max: nat, n: int)
    requires
        0 <= n <= s.len(),
        utf8_len(s.take(n)) <= max,
        n < s.len() ==> utf8_len(s.take(n + 1)) > max,
    ensures
        byte_prefix(s, max) == s.take(n),
{
    lemma_byte_prefix(s, max);
    let r = byte_prefix(s, max);
    assert(r =~= s.take(r.len() as int));
    if r.len() < n {
        lemma_utf8_len_prefix(s, r.len() as int + 1, n);
    } else if n < r.len() {
        lemma_utf8_len_prefix(s, n + 1, r.len() as int);
    }
}

/// A character takes at most four bytes.
pub proof fn lemma_utf8_len_bound(s: Seq<char>)
    ensures
        utf8_len(s) <= 4 * s.len(),
    decreases s.len(),
{
    if s.len() > 0 {
        let t = s.drop_last();
        lemma_utf8_len_bound(t);
        lemma_utf8_len_push(t, s.last());
        assert(s =~= t.push(s.last()));
    }
}

/// UTF-8 is injective.
pub proof fn lemma_encode_injective(a: Seq<char>, b: Seq<char>)
    requires
        encode_utf8(a) == encode_utf8(b),
    ensures
        a == b,
{
    encode_utf8_decode_utf8(a);
    encode_utf8_decode_utf8(b);
}

pub proof fn lemma_occurrences_concat(a: Seq<char>, b: Seq<char>, c: char)
    ensures
        occurrences(a + b, c) == occurrences(a, c) + occurrences(b, c),
    decreases b.len(),
{
    if b.len() == 0 {
        assert(a + b =~= a);
    } else {
        assert((a + b).drop_last() =~= a + b.drop_last());
        lemma_occurrences_concat(a, b.drop_last(), c);
    }
}

pub proof fn lemma_no_occurrence(s: Seq<char>, c: char)
    requires
        !s.contains(c),
    ensures
        occurrences(s, c) == 0,
    decreases s.len(),
{
    if s.len() > 0 {
        let t = s.drop_last();
        assert(s.last() == s[s.len() - 1]);
        assert(!t.contains(c)) by {
            if t.contains(c) {
                let i = choose|i: int| 0 <= i < t.len() && t[i] == c;
                assert(s[i] == c);
            }
        }
        lemma_no_occurrence(t, c);
    }
}

/// A character that stands at two positions and nowhere else occurs twice.
pub proof fn lemma_two_occurrences(s: Seq<char>, c: char, i: int, j: int)
    requires
        0 <= i < j < s.len(),
        s[i] == c,
        s[j] == c,
        forall|k: int| 0 <= k < s.len() && k != i && k != j ==> #[trigger] s[k] != c,
    ensures
        occurrences(s, c) == 2,
{
    let head = s.take(i);
    let mid = s.subrange(i + 1, j);
    let tail = s.skip(j + 1);
    assert(s =~= head + seq![c] + (mid + seq![c] + tail));
    lemma_no_occurrence(head, c);
    lemma_no_occurrence(mid, c);
    lemma_no_occurrence(tail, c);
    assert(seq![c].drop_last().len() == 0);
    assert(occurrences(seq![c], c) == 1) by {
        reveal_with_fuel(occurrences, 2);
    }
    lemma_occurrences_concat(head, seq![c], c);
    lemma_occurrences_concat(mid, seq![c], c);
    lemma_occurrences_concat(mid + seq![c], tail, c);
    lemma_occurrences_concat(head + seq![c], mid + seq![c] + tail, c);
}

/// There is one line end less than there are lines.
pub proof fn lemma_line_ends(s: Seq<char>)
    ensures
        lines(s).len() == occurrences(s, '\n') + 1,
    decreases s.len(),
{
    if s.len() > 0 {
        lemma_line_ends(s.drop_last());
    }
}

/// A text without a line end is one line.
pub proof fn lemma_one_line(s: Seq<char>)
    requires
        !s.contains('\n'),
    ensures
        lines(s) == seq![s],
    decreases s.len(),
{
    if s.len() > 0 {
        let t = s.drop_last();
        assert(s.last() == s[s.len() - 1]);
        assert(!t.contains('\n')) by {
            if t.contains('\n') {
                let i = choose|i: int| 0 <= i < t.len() && t[i] == '\n';
                assert(s[i] == '\n');
            }
        }
        lemma_one_line(t);
        assert(t.push(s.last()) =~= s);
        assert(lines(s) =~= seq![s]);
    }
}

/// A line end separates the lines before it from those behind it.
pub proof fn lemma_lines_split(a: Seq<char>, b: Seq<char>)
    ensures
        lines(a + seq!['\n'] + b) == lines(a) + lines(b),
        lines(b).len() > 0,
    decreases b.len(),
{
    let whole = a + seq!['\n'] + b;
    if b.len() == 0 {
        assert(whole.drop_last() =~= a);
        assert(b =~= Seq::<char>::empty());
        assert(lines(whole) =~= lines(a) + lines(b));
    } else {
        let t = b.drop_last();
        lemma_lines_split(a, t);
        assert(whole.drop_last() =~= a + seq!['\n'] + t);
        let before = lines(a) + lines(t);
        assert(before.last() == lines(t).last());
        assert(before.drop_last() =~= lines(a) + lines(t).drop_last());
        assert(lines(whole) =~= lines(a) + lines(b));
    }
}

/// Is `c` a control code?
pub fn char_is_control(c: char) -> (r: bool)
    ensures
        r == is_control(c),
{
    c <= '\u{1f}' || ('\u{7f}' <= c && c <= '\u{9f}')
}

/// Is `c` white space?
pub fn char_is_white_space(c: char) -> (r: bool)
    ensures
        r == is_white_space(c),
{
    ('\u{9}' <= c && c <= '\u{d}') || c == '\u{20}' || c == '\u{85}' || c == '\u{a0}' || c
        == '\u{1680}' || ('\u{2000}' <= c && c <= '\u{200a}') || c == '\u{2028}' || c == '\u{2029}'
        || c == '\u{202f}' || c == '\u{205f}' || c == '\u{3000}'
}

/// The characters of `s`, in order.
pub fn chars_of(s: &str) -> (r: Vec<char>)
    ensures
        r@ == s@,
{
    let mut out: Vec<char> = Vec::new();
    for c in it: s.chars()
        invariant
            it.seq() == s@,
            out@ == s@.take(it.index() as int),
    {
        out.push(c);
        assert(s@.take(it.index() + 1) =~= s@.take(it.index() as int).push(c));
    }
    assert(s@.take(s@.len() as int) =~= s@);
    out
}

/// The text made of the characters from `from` up to `to`.
pub fn text_of(chars: &Vec<char>, from: usize, to: usize) -> (r: String)
    requires
        from <= to <= chars@.len(),
    ensures
        r@ == chars@.subrange(from as int, to as int),
{
    let mut out = String::new();
    let mut i: usize = from;
    while i < to
        invariant
            from <= i <= to <= chars@.len(),
            out@ == chars@.subrange(from as int, i as int),
        decreases to - i,
    {
        out.push(chars[i]);
        assert(chars@.subrange(from as int, i + 1) =~= chars@.subrange(from as int, i as int).push(
            chars@[i as int],
        ));
        i = i + 1;
    }
    out
}

/// The length of `s` in UTF-8 bytes.
pub fn byte_len(s: &str) -> (r: usize)
    ensures
        r == utf8_len(s@),
{
    s.as_bytes().len()
}

/// The UTF-8 bytes of `s`.
pub fn utf8_bytes(s: &str) -> (r: Vec<u8>)
    ensures
        r@ == encode_utf8(s@),
{
    s.as_bytes_vec()
}

/// `s` without leading and trailing white space.
pub fn trim(s: &str) -> (r: &str)
    ensures
        r@ == trimmed(s@),
{
    let chars = chars_of(s);
    let mut start: usize = 0;
    while start < chars.len() && char_is_white_space(chars[start])
        invariant
            start <= chars@.len(),
            forall|i: int| 0 <= i < start ==> is_white_space(#[trigger] chars@[i]),
        decreases chars@.len() - start,
    {
        start = start + 1;
    }
    let mut end: usize = chars.len();
    while end > start && char_is_white_space(chars[end - 1])
        invariant
            start <= end <= chars@.len(),
            forall|i: int| end <= i < chars@.len() ==> is_white_space(#[trigger] chars@[i]),
        decreases end,
    {
        end = end - 1;
    }
    proof {
        lemma_trim_start_from(s@, start as int);
        let t = s@.skip(start as int);
        assert forall|i: int| end - start <= i < t.len() implies is_white_space(
            #[trigger] t[i],
        ) by {
            assert(t[i] == s@[i + start]);
        }
        lemma_trim_end_to(t, end - start);
        assert(t.take(end - start) =~= s@.subrange(start as int, end as int));
    }
    s.substring_char(start, end)
}

/// `s` without leading slashes.
pub fn trim_slashes(s: &str) -> (r: &str)
    ensures
        r@ == without_leading_slashes(s@),
{
    let chars = chars_of(s);
    let mut start: usize = 0;
    while start < chars.len() && chars[start] == '/'
        invariant
            start <= chars@.len(),
            forall|i: int| 0 <= i < start ==> #[trigger] chars@[i] == '/',
        decreases chars@.len() - start,
    {
        start = start + 1;
    }
    proof {
        let n = lemma_without_leading_slashes(s@);
        if n < start {
            assert(chars@[n] == '/');
        } else if start < n {
            assert(s@[start as int] == '/');
        }
        assert(s@.skip(start as int) =~= s@.subrange(start as int, s@.len() as int));
    }
    s.substring_char(start, chars.len())
}

/// `s` without trailing slashes.
pub fn trim_end_slashes(s: &str) -> (r: &str)
    ensures
        r@ == without_end_slashes(s@),
{
    let chars = chars_of(s);
    let mut end: usize = chars.len();
    assert(s@.take(end as int) =~= s@);
    while end > 0 && chars[end - 1] == '/'
        invariant
            end <= chars@.len(),
            chars@ == s@,
            without_end_slashes(s@.take(end as int)) == without_end_slashes(s@),
        decreases end,
    {
        assert(s@.take(end as int).drop_last() =~= s@.take(end - 1));
        end = end - 1;
    }
    assert(s@.take(end as int) =~= s@.subrange(0, end as int));
    s.substring_char(0, end)
}

/// Do `a` and `b` hold the same characters?
pub fn same_text(a: &str, b: &str) -> (r: bool)
    ensures
        r == (a@ == b@),
{
    let x = a.as_bytes();
    let y = b.as_bytes();
    if x.len() != y.len() {
        return false;
    }
    let mut i: usize = 0;
    while i < x.len()
        invariant
            i <= x@.len(),
            x@.len() == y@.len(),
            x@ == encode_utf8(a@),
            y@ == encode_utf8(b@),
            x@.take(i as int) == y@.take(i as int),
        decreases x@.len() - i,
    {
        if x[i] != y[i] {
            return false;
        }
        assert(x@.take(i + 1) =~= x@.take(i as int).push(x@[i as int]));
        assert(y@.take(i + 1) =~= y@.take(i as int).push(y@[i as int]));
        i = i + 1;
    }
    proof {
        assert(x@.take(x@.len() as int) =~= x@);
        assert(y@.take(x@.len() as int) =~= y@);
        lemma_encode_injective(a@, b@);
    }
    true
}

/// Does `part` stand in `s` from position `at` on?
fn run_stands_at(s: &Vec<char>, part: &Vec<char>, at: usize) -> (r: bool)
    requires
        at + part@.len() <= s@.len(),
    ensures
        r == run_at(s@, part@, at as int),
{
    let total: usize = s.len();
    let mut i: usize = 0;
    while i < part.len()
        invariant
            i <= part@.len(),
            total == s@.len(),
            at + part@.len() <= s@.len(),
            forall|j: int| 0 <= j < i ==> s@[at + j] == #[trigger] part@[j],
        decreases part@.len() - i,
    {
        if s[at + i] != part[i] {
            assert(s@.subrange(at as int, at + part@.len())[i as int] == s@[at + i]);
            return false;
        }
        i = i + 1;
    }
    assert(s@.subrange(at as int, at + part@.len()) =~= part@);
    true
}

/// Does `s` start with `prefix`?
pub fn has_prefix(s: &str, prefix: &str) -> (r: bool)
    ensures
        r == prefix@.is_prefix_of(s@),
{
    let chars = chars_of(s);
    let part = chars_of(prefix);
    if part.len() > chars.len() {
        return false;
    }
    assert(0 + part@.len() == part@.len());
    run_stands_at(&chars, &part, 0)
}

/// Does `s` end with `suffix`?
pub fn has_suffix(s: &str, suffix: &str) -> (r: bool)
    ensures
        r == suffix@.is_suffix_of(s@),
{
    let chars = chars_of(s);
    let part = chars_of(suffix);
    if part.len() > chars.len() {
        return false;
    }
    let at: usize = chars.len() - part.len();
    run_stands_at(&chars, &part, at)
}

/// Does `part` occur in `s`?
pub fn has_run(s: &str, part: &str) -> (r: bool)
    ensures
        r == contains_run(s@, part@),
{
    let chars = chars_of(s);
    let run = chars_of(part);
    if run.len() > chars.len() {
        return false;
    }
    let last: usize = chars.len() - run.len();
    let mut at: usize = 0;
    while at <= last
        invariant
            at <= last + 1,
            last + run@.len() == chars@.len(),
            chars@ == s@,
            run@ == part@,
            forall|i: int| 0 <= i < at ==> !#[trigger] run_at(s@, part@, i),
        decreases last + 1 - at,
    {
        if run_stands_at(&chars, &run, at) {
            return true;
        }
        if at == last {
            assert(forall|i: int| 0 <= i <= last ==> !#[trigger] run_at(s@, part@, i));
            return false;
        }
        at = at + 1;
    }
    false
}

/// Does the character `c` occur in `s`?
pub fn has_char(s: &str, c: char) -> (r: bool)
    ensures
        r == s@.contains(c),
{
    let chars = chars_of(s);
    let mut i: usize = 0;
    while i < chars.len()
        invariant
            i <= chars@.len(),
            chars@ == s@,
            forall|j: int| 0 <= j < i ==> #[trigger] s@[j] != c,
        decreases chars@.len() - i,
    {
        if chars[i] == c {
            assert(s@[i as int] == c);
            return true;
        }
        i = i + 1;
    }
    false
}

/// Is some character of `s` a control code?
pub fn any_control(s: &str) -> (r: bool)
    ensures
        r == has_control(s@),
{
    let chars = chars_of(s);
    let mut i: usize = 0;
    while i < chars.len()
        invariant
            i <= chars@.len(),
            chars@ == s@,
            forall|j: int| 0 <= j < i ==> !is_control(#[trigger] s@[j]),
        decreases chars@.len() - i,
    {
        if char_is_control(chars[i]) {
            assert(is_control(s@[i as int]));
            return true;
        }
        i = i + 1;
    }
    false
}

/// `s` from its character `from` on.
pub fn skip_chars(s: &str, from: usize) -> (r: &str)
    requires
        from <= s@.len(),
    ensures
        r@ == s@.skip(from as int),
{
    let n: usize = s.unicode_len();
    assert(s@.skip(from as int) =~= s@.subrange(from as int, n as int));
    s.substring_char(from, n)
}

/// The two texts, one after the other.
pub fn join2(a: &str, b: &str) -> (r: String)
    ensures
        r@ == a@ + b@,
{
    a.to_owned().concat(b)
}

/// The three texts, one after the other.
pub fn join3(a: &str, b: &str, c: &str) -> (r: String)
    ensures
        r@ == a@ + b@ + c@,
{
    a.to_owned().concat(b).concat(c)
}

/// The longest prefix of `s` that takes at most `max` bytes.
pub fn clamp_bytes(s: &str, max: usize) -> (r: &str)
    ensures
        r@ == byte_prefix(s@, max as nat),
{
    if byte_len(s) <= max {
        return s;
    }
    let chars = chars_of(s);
    let mut n: usize = 0;
    let mut used: usize = 0;
    assert(encode_utf8(s@.take(0)).len() == 0);
    while n < chars.len()
        invariant
            n <= chars@.len(),
            chars@ == s@,
            used == utf8_len(s@.take(n as int)),
            used <= max,
        decreases chars@.len() - n,
    {
        let c: char = chars[n];
        let width: usize = if c <= '\u{7f}' {
            1
        } else if c <= '\u{7ff}' {
            2
        } else if c <= '\u{ffff}' {
            3
        } else {
            4
        };
        proof {
            assert(s@.take(n + 1) =~= s@.take(n as int).push(c));
            lemma_utf8_len_push(s@.take(n as int), c);
        }
        if width > max - used {
            proof {
                lemma_byte_prefix_is(s@, max as nat, n as int);
                assert(s@.take(n as int) =~= s@.subrange(0, n as int));
            }
            return s.substring_char(0, n);
        }
        used = used + width;
        n = n + 1;
    }
    proof {
        lemma_byte_prefix_is(s@, max as nat, n as int);
        assert(s@.take(n as int) =~= s@);
    }
    s
}

/// The control codes, by number.
pub proof fn law_control_codes(c: char)
    ensures
        is_control(c) <==> (c as u32) < 32 || 127 <= c as u32 <= 159,
{
}

/// The blanks, by number: tab to carriage return, space, next line, no-break space,
/// and those of the general punctuation and other scripts. No other character is one.
pub proof fn law_white_space(c: char)
    ensures
        is_white_space(c) <==> {
            let n = c as u32;
            ||| 9 <= n <= 13
            ||| n == 32
            ||| n == 133
            ||| n == 160
            ||| n == 5760
            ||| 8192 <= n <= 8202
            ||| n == 8232
            ||| n == 8233
            ||| n == 8239
            ||| n == 8287
            ||| n == 12288
        },
{
}

/// Trimming takes the blanks around a text, and nothing of the text.
pub proof fn law_trimming_takes_the_blanks_around(a: Seq<char>, s: Seq<char>, b: Seq<char>)
    requires
        forall|i: int| 0 <= i < a.len() ==> is_white_space(#[trigger] a[i]),
        forall|i: int| 0 <= i < b.len() ==> is_white_space(#[trigger] b[i]),
        s.len() > 0 ==> !is_white_space(s[0]) && !is_white_space(s.last()),
    ensures
        trimmed(a + s + b) == s,
{
    let all = a + s + b;
    let r = lemma_trimmed_range(all);
    let from = a.len() as int;
    let to = (a.len() + s.len()) as int;
    if s.len() == 0 {
        if r.0 < r.1 {
            if r.0 < a.len() {
                assert(all[r.0] == a[r.0]);
            } else {
                assert(all[r.0] == b[r.0 - a.len()]);
            }
        }
        assert(trimmed(all) =~= s);
    } else {
        assert(all[from] == s[0]);
        assert(all[to - 1] == s.last());
        if r.0 > from {
            assert(is_white_space(all[from]));
        }
        if r.1 < to {
            assert(is_white_space(all[to - 1]));
        }
        if r.0 < from {
            assert(all[r.0] == a[r.0]);
        }
        if r.1 > to {
            assert(all[r.1 - 1] == b[r.1 - 1 - to]);
        }
        assert(all.subrange(from, to) =~= s);
    }
}

/// A text takes as many bytes as its UTF-8 encoding has: one to four for each
/// character.
pub proof fn law_byte_lengths(s: Seq<char>, c: char)
    ensures
        utf8_len(s) == encode_utf8(s).len(),
        utf8_len(s.push(c)) == utf8_len(s) + if (c as u32) < 128 {
            1int
        } else if (c as u32) < 2048 {
            2
        } else if (c as u32) < 65536 {
            3
        } else {
            4
        },
{
    lemma_utf8_len_push(s, c);
}

/// The longest start of a text that fits: all of it where that fits; where not, so
/// much that fewer than four bytes of room are left.
pub proof fn law_byte_prefix_fills_the_room(s: Seq<char>, max: nat)
    ensures
        byte_prefix(s, max).len() <= s.len(),
        byte_prefix(s, max) == s.take(byte_prefix(s, max).len() as int),
        utf8_len(byte_prefix(s, max)) <= max,
        utf8_len(s) <= max ==> byte_prefix(s, max) == s,
        utf8_len(s) > max ==> utf8_len(byte_prefix(s, max)) + 4 > max,
{
    lemma_byte_prefix(s, max);
    let r = byte_prefix(s, max);
    assert(r =~= s.take(r.len() as int));
    if utf8_len(s) > max {
        let n = r.len() as int;
        if n == s.len() {
            assert(r =~= s);
        }
        assert(s.take(n + 1) =~= s.take(n).push(s[n]));
        lemma_utf8_len_push(s.take(n), s[n]);
    }
}

} // verus!
