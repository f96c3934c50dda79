//! Display names and hexadecimal hashes of a node.

use vstd::prelude::*;

use crate::text;
use crate::text::char_is_control;
use crate::text::chars_of;
use crate::text::clamp_bytes;

verus! {

/// Max UTF-8 bytes retained for announce / display name.
pub const MAX_DISPLAY_NAME_BYTES: usize = 256;

/// `s` without control codes.
pub open spec fn without_controls(s: Seq<char>) -> Seq<char> {
    s.filter(|c: char| !text::is_control(c))
}

/// A display name as it is kept: without control codes, and cut at a character
/// so that it has no more than `MAX_DISPLAY_NAME_BYTES` bytes.
pub open spec fn kept_name(name: Seq<char>) -> Seq<char> {
    text::byte_prefix(without_controls(name), MAX_DISPLAY_NAME_BYTES as nat)
}

proof fn lemma_without_controls_push(s: Seq<char>, c: char)
    ensures
        without_controls(s.push(c)) == if text::is_control(c) {
            without_controls(s)
        } else {
            without_controls(s).push(c)
        },
{
    reveal(Seq::filter);
    assert(s.push(c).drop_last() =~= s);
}

/// A display name as it is kept.
pub fn clamp_display_name(name: &str) -> (r: String)
    ensures
        r@ == kept_name(name@),
{
    let chars = chars_of(name);
    let mut out = String::new();
    let mut i: usize = 0;
    proof {
        reveal(Seq::filter);
        assert(without_controls(name@.take(0)) =~= Seq::<char>::empty());
    }
    while i < chars.len()
        invariant
            i <= chars@.len(),
            chars@ == name@,
            out@ == without_controls(name@.take(i as int)),
        decreases chars@.len() - i,
    {
        let c: char = chars[i];
        proof {
            assert(name@.take(i + 1) =~= name@.take(i as int).push(c));
            lemma_without_controls_push(name@.take(i as int), c);
        }
        if !char_is_control(c) {
            out.push(c);
        }
        i = i + 1;
    }
    assert(name@.take(i as int) =~= name@);
    clamp_bytes(out.as_str(), MAX_DISPLAY_NAME_BYTES).to_owned()
}

/// A kept name is free of control codes and never over the cap.
pub proof fn law_kept_names_are_clean(name: Seq<char>)
    ensures
        !text::has_control(kept_name(name)),
        text::utf8_len(kept_name(name)) <= MAX_DISPLAY_NAME_BYTES,
{
    let all = without_controls(name);
    let kept = kept_name(name);
    text::lemma_byte_prefix(all, MAX_DISPLAY_NAME_BYTES as nat);
    lemma_without_controls_clean(name);
    assert forall|i: int| 0 <= i < kept.len() implies !text::is_control(#[trigger] kept[i]) by {
        assert(kept[i] == all[i]);
    }
}

proof fn lemma_without_controls_clean(s: Seq<char>)
    ensures
        forall|i: int|
            0 <= i < without_controls(s).len() ==> !text::is_control(
                #[trigger] without_controls(s)[i],
            ),
        !text::has_control(s) ==> without_controls(s) == s,
    decreases s.len(),
{
    if s.len() == 0 {
        reveal(Seq::filter);
        assert(without_controls(s) =~= s);
    } else {
        let t = s.drop_last();
        lemma_without_controls_clean(t);
        assert(s =~= t.push(s.last()));
        lemma_without_controls_push(t, s.last());
        if !text::has_control(s) {
            assert(!text::is_control(s[s.len() - 1]));
            assert forall|i: int| 0 <= i < t.len() implies !text::is_control(#[trigger] t[i]) by {
                assert(t[i] == s[i]);
            }
        }
    }
}

/// Keeping a kept name changes nothing; a clean, short name is kept as it is.
pub proof fn law_keeping_a_name_is_stable(name: Seq<char>)
    ensures
        kept_name(kept_name(name)) == kept_name(name),
        !text::has_control(name) && text::utf8_len(name) <= MAX_DISPLAY_NAME_BYTES ==> kept_name(
            name,
        ) == name,
{
    law_kept_names_are_clean(name);
    lemma_without_controls_clean(kept_name(name));
    lemma_without_controls_clean(name);
}

/// The hexadecimal digit of a half byte, in lower case.
pub open spec fn hex_digit(n: int) -> char {
    if n < 10 {
        ('0' as int + n) as char
    } else {
        ('a' as int + (n - 10)) as char
    }
}

/// Two hexadecimal digits for each byte, the high half first.
pub open spec fn hex_text(bytes: Seq<u8>) -> Seq<char> {
    Seq::new(
        2 * bytes.len(),
        |i: int|
            if i % 2 == 0 {
                hex_digit(bytes[i / 2] as int / 16)
            } else {
                hex_digit(bytes[i / 2] as int % 16)
            },
    )
}

/// `hex::encode`: two lower-case hexadecimal digits for each byte, the high half
/// first.
#[verifier::external_body]
pub(crate) fn hex_encode(bytes: &[u8]) -> (r: String)
    requires
        2 * bytes@.len() <= usize::MAX,
    ensures
        r@ == hex_text(bytes@),
{
    hex::encode(bytes)
}

proof fn lemma_without_controls_concat(a: Seq<char>, b: Seq<char>)
    ensures
        without_controls(a + b) == without_controls(a) + without_controls(b),
    decreases b.len(),
{
    if b.len() == 0 {
        reveal(Seq::filter);
        assert(a + b =~= a);
        assert(without_controls(b) =~= Seq::<char>::empty());
        assert(without_controls(a) + without_controls(b) =~= without_controls(a));
    } else {
        let t = b.drop_last();
        lemma_without_controls_concat(a, t);
        assert(a + b =~= (a + t).push(b.last()));
        assert(b =~= t.push(b.last()));
        lemma_without_controls_push(a + t, b.last());
        lemma_without_controls_push(t, b.last());
        assert(without_controls(a + b) =~= without_controls(a) + without_controls(b));
    }
}

/// Of a display name nothing is lost but control codes and what is over the cap: a
/// control code more makes no difference, and of a name without any, all is kept
/// where it is at most 256 bytes long, and where not, a start that leaves fewer than
/// four of 256 bytes free.
pub proof fn law_names_lose_only_controls_and_excess(a: Seq<char>, c: char, b: Seq<char>)
    ensures
        text::is_control(c) ==> kept_name(a + seq![c] + b) == kept_name(a + b),
        !text::has_control(a) ==> {
            &&& text::utf8_len(a) <= 256 ==> kept_name(a) == a
            &&& text::utf8_len(a) > 256 ==> exists|n: int|
                {
                    let start = #[trigger] a.take(n);
                    0 <= n < a.len() && kept_name(a) == start && 252 < text::utf8_len(start) <= 256
                }
        },
{
    if text::is_control(c) {
        let e = Seq::<char>::empty();
        lemma_without_controls_concat(a, seq![c]);
        lemma_without_controls_concat(a + seq![c], b);
        lemma_without_controls_concat(a, b);
        lemma_without_controls_clean(e);
        lemma_without_controls_push(e, c);
        assert(e.push(c) =~= seq![c]);
        assert(without_controls(e) =~= e) by {
            assert(!text::has_control(e));
        }
        assert(without_controls(a) + e =~= without_controls(a));
    }
    if !text::has_control(a) {
        lemma_without_controls_clean(a);
        text::law_byte_prefix_fills_the_room(a, 256);
        if text::utf8_len(a) > 256 {
            let n = kept_name(a).len() as int;
            if n == a.len() {
                assert(a.take(n) =~= a);
            }
            assert(kept_name(a) == a.take(n));
        }
    }
}

/// The number that a hexadecimal digit stands for.
pub open spec fn hex_value(c: char) -> int {
    if '0' <= c <= '9' {
        c as int - '0' as int
    } else {
        c as int - 'a' as int + 10
    }
}

/// Hexadecimal text tells the bytes: two lower-case digits for each, which together
/// give its value.
pub proof fn law_hex_text_tells_the_bytes(bytes: Seq<u8>, i: int)
    requires
        0 <= i < bytes.len(),
    ensures
        hex_text(bytes).len() == 2 * bytes.len(),
        ({
            let high = hex_text(bytes)[2 * i];
            let low = hex_text(bytes)[2 * i + 1];
            &&& 16 * hex_value(high) + hex_value(low) == bytes[i]
            &&& '0' <= high <= '9' || 'a' <= high <= 'f'
            &&& '0' <= low <= '9' || 'a' <= low <= 'f'
        }),
{
    let b = bytes[i] as int;
    assert((2 * i) % 2 == 0 && (2 * i) / 2 == i);
    assert((2 * i + 1) % 2 == 1 && (2 * i + 1) / 2 == i);
    assert(0 <= b / 16 < 16 && 0 <= b % 16 < 16);
}

} // verus!
