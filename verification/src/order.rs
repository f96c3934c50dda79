//! The byte-wise order of texts, and listings sorted by it.

use vstd::prelude::*;
use vstd::utf8::*;

use crate::listing::EntryView;
use crate::listing::NomadPageEntry;

verus! {

/// Does `a` come before `b`, or is it equal to it, byte by byte?
pub open spec fn bytes_le(a: Seq<u8>, b: Seq<u8>) -> bool
    decreases a.len(),
{
    if a.len() == 0 {
        true
    } else if b.len() == 0 {
        false
    } else if a[0] != b[0] {
        a[0] < b[0]
    } else {
        bytes_le(a.skip(1), b.skip(1))
    }
}

/// Texts are ordered by their UTF-8 bytes.
pub open spec fn text_le(a: Seq<char>, b: Seq<char>) -> bool {
    bytes_le(encode_utf8(a), encode_utf8(b))
}

pub proof fn lemma_bytes_le_total(a: Seq<u8>, b: Seq<u8>)
    ensures
        bytes_le(a, b) || bytes_le(b, a),
    decreases a.len(),
{
    if a.len() > 0 && b.len() > 0 && a[0] == b[0] {
        lemma_bytes_le_total(a.skip(1), b.skip(1));
    }
}

pub proof fn lemma_bytes_le_transitive(a: Seq<u8>, b: Seq<u8>, c: Seq<u8>)
    requires
        bytes_le(a, b),
        bytes_le(b, c),
    ensures
        bytes_le(a, c),
    decreases a.len(),
{
    if a.len() > 0 && a[0] == b[0] && b[0] == c[0] {
        lemma_bytes_le_transitive(a.skip(1), b.skip(1), c.skip(1));
    }
}

pub proof fn lemma_bytes_le_antisymmetric(a: Seq<u8>, b: Seq<u8>)
    requires
        bytes_le(a, b),
        bytes_le(b, a),
    ensures
        a == b,
    decreases a.len(),
{
    if a.len() > 0 && b.len() > 0 {
        lemma_bytes_le_antisymmetric(a.skip(1), b.skip(1));
        assert(a =~= seq![a[0]] + a.skip(1));
        assert(b =~= seq![b[0]] + b.skip(1));
    } else {
        assert(a =~= b);
    }
}

/// Is `a` before `b`, or equal to it?
pub fn text_not_after(a: &str, b: &str) -> (r: bool)
    ensures
        r == text_le(a@, b@),
{
    let x = a.as_bytes();
    let y = b.as_bytes();
    let mut i: usize = 0;
    assert(x@.skip(0) =~= x@);
    assert(y@.skip(0) =~= y@);
    while i < x.len()
        invariant
            i <= x@.len(),
            i <= y@.len(),
            x@ == encode_utf8(a@),
            y@ == encode_utf8(b@),
            bytes_le(x@, y@) == bytes_le(x@.skip(i as int), y@.skip(i as int)),
        decreases x@.len() - i,
    {
        if i >= y.len() {
            return false;
        }
        assert(x@.skip(i as int).skip(1) =~= x@.skip(i + 1));
        assert(y@.skip(i as int).skip(1) =~= y@.skip(i + 1));
        if x[i] != y[i] {
            return x[i] < y[i];
        }
        i = i + 1;
    }
    true
}

/// `s` with `e` put behind every entry that is not after it, where `s` is sorted.
pub open spec fn placed(s: Seq<EntryView>, e: EntryView) -> Seq<EntryView>
    decreases s.len(),
{
    if s.len() == 0 || text_le(s.last().path, e.path) {
        s.push(e)
    } else {
        placed(s.drop_last(), e).push(s.last())
    }
}

/// The entries sorted by path; entries with one path keep their order.
pub open spec fn sorted(s: Seq<EntryView>) -> Seq<EntryView>
    decreases s.len(),
{
    if s.len() == 0 {
        s
    } else {
        placed(sorted(s.drop_last()), s.last())
    }
}

/// No entry stands before one that should precede it.
pub open spec fn is_sorted(s: Seq<EntryView>) -> bool {
    forall|i: int, j: int|
        0 <= i <= j < s.len() ==> text_le((#[trigger] s[i]).path, (#[trigger] s[j]).path)
}

proof fn lemma_placed_len(s: Seq<EntryView>, e: EntryView)
    ensures
        placed(s, e).len() == s.len() + 1,
    decreases s.len(),
{
    if s.len() == 0 || text_le(s.last().path, e.path) {
    } else {
        lemma_placed_len(s.drop_last(), e);
    }
}

/// Sorting keeps the number of entries.
pub proof fn lemma_sorted_len(s: Seq<EntryView>)
    ensures
        sorted(s).len() == s.len(),
    decreases s.len(),
{
    if s.len() > 0 {
        lemma_sorted_len(s.drop_last());
        lemma_placed_len(sorted(s.drop_last()), s.last());
    }
}

/// Where `placed` puts the entry.
proof fn lemma_placed_at(s: Seq<EntryView>, e: EntryView, p: int)
    requires
        0 <= p <= s.len(),
        forall|i: int| 0 <= i < p ==> text_le((#[trigger] s[i]).path, e.path),
        forall|i: int| p <= i < s.len() ==> !text_le((#[trigger] s[i]).path, e.path),
    ensures
        placed(s, e) == s.insert(p, e),
    decreases s.len(),
{
    if s.len() == 0 || text_le(s.last().path, e.path) {
        if p < s.len() {
            assert(!text_le(s[s.len() - 1].path, e.path));
        }
        assert(s.insert(p, e) =~= s.push(e));
    } else {
        if p == s.len() {
            assert(text_le(s[s.len() - 1].path, e.path));
        }
        let t = s.drop_last();
        assert forall|i: int| 0 <= i < p implies text_le((#[trigger] t[i]).path, e.path) by {
            assert(t[i] == s[i]);
        }
        assert forall|i: int| p <= i < t.len() implies !text_le((#[trigger] t[i]).path, e.path) by {
            assert(t[i] == s[i]);
        }
        lemma_placed_at(t, e, p);
        assert(t.insert(p, e).push(s.last()) =~= s.insert(p, e));
    }
}

proof fn lemma_insert_keeps_sorted(s: Seq<EntryView>, e: EntryView, p: int)
    requires
        is_sorted(s),
        0 <= p <= s.len(),
        forall|i: int| 0 <= i < p ==> text_le((#[trigger] s[i]).path, e.path),
        forall|i: int| p <= i < s.len() ==> !text_le((#[trigger] s[i]).path, e.path),
    ensures
        is_sorted(s.insert(p, e)),
{
    let t = s.insert(p, e);
    assert forall|i: int, j: int| 0 <= i <= j < t.len() implies text_le(
        (#[trigger] t[i]).path,
        (#[trigger] t[j]).path,
    ) by {
        lemma_bytes_le_total(encode_utf8(t[i].path), encode_utf8(t[j].path));
        if i < p {
            assert(t[i] == s[i]);
            if j < p {
                assert(t[j] == s[j]);
            } else if j > p {
                assert(t[j] == s[j - 1]);
            }
        } else if i == p {
            if j > p {
                assert(t[j] == s[j - 1]);
            }
        } else {
            assert(t[i] == s[i - 1]);
            assert(t[j] == s[j - 1]);
        }
    }
}

/// The position behind every entry that is not after `e`.
proof fn lemma_position(s: Seq<EntryView>, e: EntryView) -> (p: int)
    requires
        is_sorted(s),
    ensures
        0 <= p <= s.len(),
        forall|i: int| 0 <= i < p ==> text_le((#[trigger] s[i]).path, e.path),
        forall|i: int| p <= i < s.len() ==> !text_le((#[trigger] s[i]).path, e.path),
    decreases s.len(),
{
    if s.len() == 0 {
        0
    } else if text_le(s.last().path, e.path) {
        assert forall|i: int| 0 <= i < s.len() implies text_le((#[trigger] s[i]).path, e.path) by {
            assert(text_le(s[i].path, s[s.len() - 1].path));
            lemma_bytes_le_transitive(
                encode_utf8(s[i].path),
                encode_utf8(s.last().path),
                encode_utf8(e.path),
            );
        }
        s.len() as int
    } else {
        let t = s.drop_last();
        assert forall|i: int, j: int| 0 <= i <= j < t.len() implies text_le(
            (#[trigger] t[i]).path,
            (#[trigger] t[j]).path,
        ) by {
            assert(text_le(s[i].path, s[j].path));
        }
        let p = lemma_position(t, e);
        assert forall|i: int| 0 <= i < p implies text_le((#[trigger] s[i]).path, e.path) by {
            assert(t[i] == s[i]);
        }
        assert forall|i: int| p <= i < s.len() implies !text_le((#[trigger] s[i]).path, e.path) by {
            if i < t.len() {
                assert(t[i] == s[i]);
            }
        }
        p
    }
}

/// Sorting sorts, and loses or adds no entry.
pub proof fn law_sorted_entries(s: Seq<EntryView>)
    ensures
        is_sorted(sorted(s)),
        sorted(s).to_multiset() == s.to_multiset(),
    decreases s.len(),
{
    if s.len() > 0 {
        let t = s.drop_last();
        let e = s.last();
        law_sorted_entries(t);
        let p = lemma_position(sorted(t), e);
        lemma_placed_at(sorted(t), e, p);
        lemma_insert_keeps_sorted(sorted(t), e, p);
        vstd::seq_lib::to_multiset_insert(sorted(t), p, e);
        vstd::seq_lib::to_multiset_build(t, e);
        assert(s =~= t.push(e));
    }
}

/// Do all entries have paths of their own?
pub open spec fn is_distinct(s: Seq<EntryView>) -> bool {
    forall|i: int, j: int| 0 <= i < j < s.len() ==> (#[trigger] s[i]).path != (#[trigger] s[j]).path
}

/// Sorting keeps what entries there are.
pub proof fn lemma_sorted_contains(s: Seq<EntryView>, e: EntryView)
    ensures
        sorted(s).contains(e) <==> s.contains(e),
{
    law_sorted_entries(s);
    vstd::seq_lib::to_multiset_contains(s, e);
    vstd::seq_lib::to_multiset_contains(sorted(s), e);
}

/// Sorting keeps paths apart.
pub proof fn lemma_sorted_distinct(s: Seq<EntryView>)
    requires
        is_distinct(s),
    ensures
        is_distinct(sorted(s)),
    decreases s.len(),
{
    if s.len() > 0 {
        let t = s.drop_last();
        let e = s.last();
        assert forall|i: int, j: int| 0 <= i < j < t.len() implies (#[trigger] t[i]).path != (
        #[trigger] t[j]).path by {
            assert(s[i].path != s[j].path);
        }
        lemma_sorted_distinct(t);
        law_sorted_entries(t);
        let r = sorted(t);
        let p = lemma_position(r, e);
        lemma_placed_at(r, e, p);
        let all = r.insert(p, e);
        assert forall|i: int| 0 <= i < r.len() implies (#[trigger] r[i]).path != e.path by {
            lemma_sorted_contains(t, r[i]);
            assert(r.contains(r[i]));
            let k = choose|k: int| 0 <= k < t.len() && t[k] == r[i];
            assert(s[k].path != s[s.len() - 1].path);
        }
        assert forall|i: int, j: int| 0 <= i < j < all.len() implies (#[trigger] all[i]).path != (
        #[trigger] all[j]).path by {
            let a = if i > p {
                i - 1
            } else {
                i
            };
            let b = if j > p {
                j - 1
            } else {
                j
            };
            if i == p {
                assert(all[j] == r[b]);
            } else if j == p {
                assert(all[i] == r[a]);
            } else {
                assert(all[i] == r[a] && all[j] == r[b]);
                assert(r[a].path != r[b].path);
            }
        }
    }
}

/// The entries, each taken by its contents.
pub open spec fn entry_views(s: Seq<NomadPageEntry>) -> Seq<EntryView> {
    s.map_values(|e: NomadPageEntry| e@)
}

/// The position behind every entry that is not after `path`.
fn position_for(entries: &Vec<NomadPageEntry>, path: &str) -> (r: usize)
    requires
        is_sorted(entry_views(entries@)),
    ensures
        r <= entries@.len(),
        forall|i: int|
            0 <= i < r ==> text_le((#[trigger] entry_views(entries@)[i]).path, path@),
        forall|i: int|
            r <= i < entries@.len() ==> !text_le(
                (#[trigger] entry_views(entries@)[i]).path,
                path@,
            ),
{
    let ghost all = entry_views(entries@);
    let mut low: usize = 0;
    let mut high: usize = entries.len();
    while low < high
        invariant
            low <= high <= entries@.len(),
            all == entry_views(entries@),
            is_sorted(all),
            forall|i: int| 0 <= i < low ==> text_le((#[trigger] all[i]).path, path@),
            forall|i: int| high <= i < all.len() ==> !text_le((#[trigger] all[i]).path, path@),
        decreases high - low,
    {
        let mid: usize = low + (high - low) / 2;
        assert(all[mid as int] == entries@[mid as int]@);
        if text_not_after(entries[mid].path.as_str(), path) {
            assert forall|i: int| 0 <= i < mid + 1 implies text_le(
                (#[trigger] all[i]).path,
                path@,
            ) by {
                lemma_bytes_le_transitive(
                    encode_utf8(all[i].path),
                    encode_utf8(all[mid as int].path),
                    encode_utf8(path@),
                );
            }
            low = mid + 1;
        } else {
            assert forall|i: int| mid <= i < all.len() implies !text_le(
                (#[trigger] all[i]).path,
                path@,
            ) by {
                if text_le(all[i].path, path@) {
                    lemma_bytes_le_transitive(
                        encode_utf8(all[mid as int].path),
                        encode_utf8(all[i].path),
                        encode_utf8(path@),
                    );
                }
            }
            high = mid;
        }
    }
    low
}

/// The entries sorted by path; entries with one path keep their order.
pub fn sort_entries(entries: Vec<NomadPageEntry>) -> (r: Vec<NomadPageEntry>)
    ensures
        entry_views(r@) == sorted(entry_views(entries@)),
        is_sorted(entry_views(r@)),
        entry_views(r@).to_multiset() == entry_views(entries@).to_multiset(),
{
    let ghost all = entry_views(entries@);
    let mut rest = entries;
    let mut out: Vec<NomadPageEntry> = Vec::new();
    // The last entries are taken first, so they are turned round to begin with.
    let mut turned: Vec<NomadPageEntry> = Vec::new();
    let n: usize = rest.len();
    let mut i: usize = 0;
    while i < n
        invariant
            i <= n,
            n == all.len(),
            rest@.len() == n - i,
            turned@.len() == i,
            entry_views(rest@) == all.take(n - i),
            forall|k: int| 0 <= k < i ==> (#[trigger] turned@[k])@ == all[n - 1 - k],
        decreases n - i,
    {
        let ghost before = rest@;
        match rest.pop() {
            Some(e) => {
                assert(e@ == entry_views(before)[n - i - 1]);
                turned.push(e);
            },
            None => {},
        }
        assert(entry_views(rest@) =~= all.take(n - i - 1)) by {
            assert forall|k: int| 0 <= k < rest@.len() implies #[trigger] entry_views(rest@)[k]
                == all.take(n - i - 1)[k] by {
                assert(entry_views(before)[k] == before[k]@);
            }
        }
        i = i + 1;
    }
    let mut j: usize = 0;
    assert(entry_views(out@) =~= sorted(all.take(0)));
    assert(entry_views(out@).to_multiset() == all.take(0).to_multiset()) by {
        assert(entry_views(out@) =~= all.take(0));
    }
    while j < n
        invariant
            j <= n,
            n == all.len(),
            turned@.len() == n - j,
            forall|k: int| 0 <= k < n - j ==> (#[trigger] turned@[k])@ == all[n - 1 - k],
            entry_views(out@) == sorted(all.take(j as int)),
            is_sorted(entry_views(out@)),
            entry_views(out@).to_multiset() == all.take(j as int).to_multiset(),
        decreases n - j,
    {
        let ghost before = entry_views(out@);
        match turned.pop() {
            Some(e) => {
                assert(e@ == all[j as int]);
                let p: usize = position_for(&out, e.path.as_str());
                let ghost ev = e@;
                out.insert(p, e);
                proof {
                    assert(entry_views(out@) =~= before.insert(p as int, ev));
                    lemma_placed_at(before, ev, p as int);
                    lemma_insert_keeps_sorted(before, ev, p as int);
                    assert(all.take(j + 1).drop_last() =~= all.take(j as int));
                    assert(all.take(j + 1) =~= all.take(j as int).push(ev));
                    vstd::seq_lib::to_multiset_insert(before, p as int, ev);
                    vstd::seq_lib::to_multiset_build(all.take(j as int), ev);
                }
            },
            None => {},
        }
        j = j + 1;
    }
    assert(all.take(n as int) =~= all);
    out
}

/// Texts are compared byte by byte of their UTF-8 form: the first byte in which two
/// differ decides, and a start of a text comes before it.
pub proof fn law_the_first_difference_decides(p: Seq<u8>, x: u8, s: Seq<u8>, y: u8, t: Seq<u8>)
    ensures
        x < y ==> bytes_le(p + seq![x] + s, p + seq![y] + t) && !bytes_le(
            p + seq![y] + t,
            p + seq![x] + s,
        ),
        bytes_le(p, p + s),
        s.len() > 0 ==> !bytes_le(p + s, p),
    decreases p.len(),
{
    let a = p + seq![x] + s;
    let b = p + seq![y] + t;
    if p.len() == 0 {
        assert(p + s =~= s);
        assert(a[0] == x && b[0] == y);
    } else {
        let rest = p.skip(1);
        law_the_first_difference_decides(rest, x, s, y, t);
        assert(a.skip(1) =~= rest + seq![x] + s);
        assert(b.skip(1) =~= rest + seq![y] + t);
        assert((p + s).skip(1) =~= rest + s);
        assert(a[0] == p[0] && b[0] == p[0] && (p + s)[0] == p[0]);
    }
}

/// The order of texts is that of their UTF-8 bytes.
pub proof fn law_texts_are_ordered_by_bytes(a: Seq<char>, b: Seq<char>)
    ensures
        text_le(a, b) <==> bytes_le(encode_utf8(a), encode_utf8(b)),
        text_le(a, b) || text_le(b, a),
        text_le(a, b) && text_le(b, a) ==> a == b,
{
    lemma_bytes_le_total(encode_utf8(a), encode_utf8(b));
    if text_le(a, b) && text_le(b, a) {
        lemma_bytes_le_antisymmetric(encode_utf8(a), encode_utf8(b));
        crate::text::lemma_encode_injective(a, b);
    }
}

/// The entries with the path.
pub open spec fn with_path(s: Seq<EntryView>, path: Seq<char>) -> Seq<EntryView>
    decreases s.len(),
{
    if s.len() == 0 {
        s
    } else if s.last().path == path {
        with_path(s.drop_last(), path).push(s.last())
    } else {
        with_path(s.drop_last(), path)
    }
}

proof fn lemma_placed_keeps_order(s: Seq<EntryView>, e: EntryView, path: Seq<char>)
    ensures
        with_path(placed(s, e), path) == if e.path == path {
            with_path(s, path).push(e)
        } else {
            with_path(s, path)
        },
    decreases s.len(),
{
    let all = placed(s, e);
    if s.len() == 0 || text_le(s.last().path, e.path) {
        assert(all.drop_last() =~= s);
    } else {
        assert(all.drop_last() =~= placed(s.drop_last(), e));
        lemma_placed_keeps_order(s.drop_last(), e, path);
        if s.last().path == e.path {
            lemma_bytes_le_total(encode_utf8(e.path), encode_utf8(e.path));
        }
    }
}

/// Sorting keeps entries with one path in the order they had.
pub proof fn law_sorting_keeps_the_order_of_equals(s: Seq<EntryView>, path: Seq<char>)
    ensures
        with_path(sorted(s), path) == with_path(s, path),
    decreases s.len(),
{
    if s.len() > 0 {
        law_sorting_keeps_the_order_of_equals(s.drop_last(), path);
        lemma_placed_keeps_order(sorted(s.drop_last()), s.last(), path);
    }
}

} // verus!
