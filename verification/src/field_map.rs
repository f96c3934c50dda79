//! A small map from texts to texts, ordered by key.

use vstd::prelude::*;
use vstd::utf8::*;

use crate::order;
use crate::order::text_not_after;
use crate::text::same_text;

verus! {

/// A map from texts to texts whose entries are kept in the order of their keys.
#[derive(Debug)]
pub struct FieldMap {
    entries: Vec<(String, String)>,
}

/// The entries, each taken by its contents.
pub open spec fn pair_views(s: Seq<(String, String)>) -> Seq<(Seq<char>, Seq<char>)> {
    s.map_values(|e: (String, String)| (e.0@, e.1@))
}

/// Do the keys go up, none twice?
pub open spec fn is_ordered(s: Seq<(Seq<char>, Seq<char>)>) -> bool {
    forall|i: int, j: int|
        0 <= i < j < s.len() ==> order::text_le((#[trigger] s[i]).0, (#[trigger] s[j]).0) && s[i].0
            != s[j].0
}

/// The map that the entries make up.
pub open spec fn map_of(s: Seq<(Seq<char>, Seq<char>)>) -> Map<Seq<char>, Seq<char>>
    decreases s.len(),
{
    if s.len() == 0 {
        Map::empty()
    } else {
        map_of(s.drop_last()).insert(s.last().0, s.last().1)
    }
}

impl View for FieldMap {
    type V = Map<Seq<char>, Seq<char>>;

    closed spec fn view(&self) -> Map<Seq<char>, Seq<char>> {
        map_of(pair_views(self.entries@))
    }
}

proof fn lemma_map_of(s: Seq<(Seq<char>, Seq<char>)>)
    requires
        is_ordered(s),
    ensures
        forall|i: int|
            0 <= i < s.len() ==> map_of(s).dom().contains((#[trigger] s[i]).0) && map_of(s)[s[i].0]
                == s[i].1,
        forall|k: Seq<char>| #[trigger]
            map_of(s).dom().contains(k) ==> exists|i: int| 0 <= i < s.len() && (#[trigger] s[i]).0
                == k,
        map_of(s).dom().finite(),
        map_of(s).dom().len() == s.len(),
    decreases s.len(),
{
    if s.len() > 0 {
        let t = s.drop_last();
        assert(is_ordered(t)) by {
            assert forall|i: int, j: int| 0 <= i < j < t.len() implies order::text_le(
                (#[trigger] t[i]).0,
                (#[trigger] t[j]).0,
            ) && t[i].0 != t[j].0 by {
                assert(t[i] == s[i] && t[j] == s[j]);
            }
        }
        lemma_map_of(t);
        let last = s.last();
        assert(!map_of(t).dom().contains(last.0)) by {
            if map_of(t).dom().contains(last.0) {
                let i = choose|i: int| 0 <= i < t.len() && (#[trigger] t[i]).0 == last.0;
                assert(s[i].0 == s[s.len() - 1].0);
            }
        }
        assert forall|i: int| 0 <= i < s.len() implies map_of(s).dom().contains(
            (#[trigger] s[i]).0,
        ) && map_of(s)[s[i].0] == s[i].1 by {
            if i < t.len() {
                assert(t[i] == s[i]);
                assert(s[i].0 != s[s.len() - 1].0);
            }
        }
        assert forall|k: Seq<char>| #[trigger] map_of(s).dom().contains(k) implies exists|i: int|
            0 <= i < s.len() && (#[trigger] s[i]).0 == k by {
            if k == last.0 {
                assert(s[s.len() - 1].0 == k);
            } else {
                assert(map_of(t).dom().contains(k));
                let i = choose|i: int| 0 <= i < t.len() && (#[trigger] t[i]).0 == k;
                assert(s[i].0 == k);
            }
        }
        assert(map_of(s).dom() =~= map_of(t).dom().insert(last.0));
    }
}

/// The map after `key` was given a value: `b` is `a` with the entry put in, or
/// put in place of the one that had the key.
proof fn lemma_map_after_insert(
    a: Seq<(Seq<char>, Seq<char>)>,
    b: Seq<(Seq<char>, Seq<char>)>,
    key: Seq<char>,
    value: Seq<char>,
    p: int,
)
    requires
        is_ordered(a),
        is_ordered(b),
        0 <= p < b.len(),
        p <= a.len(),
        b[p] == (key, value),
        b == a.insert(p, (key, value)) || (p < a.len() && a[p].0 == key && b == a.update(
            p,
            (key, value),
        )),
    ensures
        map_of(b) == map_of(a).insert(key, value),
{
    lemma_map_of(a);
    lemma_map_of(b);
    let m = map_of(a).insert(key, value);
    let inserted = b.len() > a.len();
    assert forall|k: Seq<char>| #[trigger] map_of(b).dom().contains(k) implies m.dom().contains(k)
        && m[k] == map_of(b)[k] by {
        let i = choose|i: int| 0 <= i < b.len() && (#[trigger] b[i]).0 == k;
        if i != p {
            let j = if inserted && i > p {
                i - 1
            } else {
                i
            };
            assert(a[j] == b[i]);
            if i < p {
                assert(b[i].0 != b[p].0);
            } else {
                assert(b[p].0 != b[i].0);
            }
        }
    }
    assert forall|k: Seq<char>| #[trigger] m.dom().contains(k) implies map_of(b).dom().contains(
        k,
    ) by {
        if k == key {
            assert(b[p].0 == k);
        } else {
            let j = choose|j: int| 0 <= j < a.len() && (#[trigger] a[j]).0 == k;
            let i = if inserted && j >= p {
                j + 1
            } else {
                j
            };
            assert(b[i] == a[j]);
        }
    }
    assert(map_of(b) =~= m);
}

impl FieldMap {
    #[verifier::type_invariant]
    closed spec fn well_formed(self) -> bool {
        is_ordered(pair_views(self.entries@))
    }

    /// An empty map.
    pub fn new() -> (r: Self)
        ensures
            r@ == Map::<Seq<char>, Seq<char>>::empty(),
    {
        let entries: Vec<(String, String)> = Vec::new();
        assert(pair_views(entries@).len() == 0);
        FieldMap { entries }
    }

    /// The number of keys.
    pub fn len(&self) -> (r: usize)
        ensures
            self@.dom().finite(),
            r == self@.dom().len(),
    {
        proof {
            use_type_invariant(self);
            lemma_map_of(pair_views(self.entries@));
        }
        self.entries.len()
    }

    /// Is there no key?
    pub fn is_empty(&self) -> (r: bool)
        ensures
            r == (self@ == Map::<Seq<char>, Seq<char>>::empty()),
    {
        proof {
            use_type_invariant(self);
            lemma_map_of(pair_views(self.entries@));
            if self@ == Map::<Seq<char>, Seq<char>>::empty() {
                assert(self@.dom() =~= Set::<Seq<char>>::empty());
            }
        }
        self.entries.len() == 0
    }

    /// The position of the first key that is not before `key`.
    fn position(&self, key: &str) -> (r: usize)
        ensures
            r <= self.entries@.len(),
            forall|i: int|
                0 <= i < r ==> !order::text_le(
                    key@,
                    (#[trigger] pair_views(self.entries@)[i]).0,
                ),
            forall|i: int|
                r <= i < self.entries@.len() ==> order::text_le(
                    key@,
                    (#[trigger] pair_views(self.entries@)[i]).0,
                ),
    {
        proof {
            use_type_invariant(self);
        }
        let ghost all = pair_views(self.entries@);
        let mut i: usize = 0;
        while i < self.entries.len()
            invariant
                i <= self.entries@.len(),
                all == pair_views(self.entries@),
                is_ordered(all),
                forall|j: int| 0 <= j < i ==> !order::text_le(key@, (#[trigger] all[j]).0),
            decreases self.entries@.len() - i,
        {
            assert(all[i as int].0 == self.entries@[i as int].0@);
            if text_not_after(key, self.entries[i].0.as_str()) {
                assert forall|j: int| i <= j < self.entries@.len() implies order::text_le(
                    key@,
                    (#[trigger] all[j]).0,
                ) by {
                    if j > i {
                        order::lemma_bytes_le_transitive(
                            encode_utf8(key@),
                            encode_utf8(all[i as int].0),
                            encode_utf8(all[j].0),
                        );
                    }
                }
                return i;
            }
            i = i + 1;
        }
        i
    }

    /// The value of a key, if it has one.
    pub fn get(&self, key: &str) -> (r: Option<&String>)
        ensures
            match r {
                Some(v) => self@.dom().contains(key@) && self@[key@] == v@,
                None => !self@.dom().contains(key@),
            },
    {
        let i: usize = self.position(key);
        let ghost all = pair_views(self.entries@);
        proof {
            use_type_invariant(self);
            lemma_map_of(all);
            order::lemma_bytes_le_total(encode_utf8(key@), encode_utf8(key@));
        }
        if i < self.entries.len() && same_text(self.entries[i].0.as_str(), key) {
            assert(all[i as int] == (
                self.entries@[i as int].0@,
                self.entries@[i as int].1@,
            ));
            return Some(&self.entries[i].1);
        }
        proof {
            if self@.dom().contains(key@) {
                let j = choose|j: int| 0 <= j < all.len() && (#[trigger] all[j]).0 == key@;
                assert(j >= i);
                assert(order::text_le(key@, all[i as int].0));
                assert(all[i as int].0 == self.entries@[i as int].0@);
                if j > i {
                    assert(order::text_le(all[i as int].0, all[j].0));
                    order::lemma_bytes_le_antisymmetric(
                        encode_utf8(key@),
                        encode_utf8(all[i as int].0),
                    );
                    crate::text::lemma_encode_injective(key@, all[i as int].0);
                }
            }
        }
        None
    }

    /// Give a key a value, in place of the one it had.
    pub fn insert(&mut self, key: String, value: String)
        ensures
            final(self)@ == old(self)@.insert(key@, value@),
    {
        let i: usize = self.position(key.as_str());
        proof {
            use_type_invariant(&*self);
        }
        let ghost before = pair_views(self.entries@);
        let mut entries: Vec<(String, String)> = Vec::new();
        assert(pair_views(entries@).len() == 0);
        std::mem::swap(&mut entries, &mut self.entries);
        let ghost k = key@;
        let ghost v = value@;
        proof {
            order::lemma_bytes_le_total(encode_utf8(k), encode_utf8(k));
        }
        if i < entries.len() && same_text(entries[i].0.as_str(), key.as_str()) {
            assert(before[i as int].0 == entries@[i as int].0@);
            entries.set(i, (key, value));
            let ghost now = pair_views(entries@);
            proof {
                assert(now =~= before.update(i as int, (k, v)));
                assert forall|a: int, b: int| 0 <= a < b < now.len() implies order::text_le(
                    (#[trigger] now[a]).0,
                    (#[trigger] now[b]).0,
                ) && now[a].0 != now[b].0 by {
                    assert(before[a].0 == now[a].0 && before[b].0 == now[b].0);
                }
                lemma_map_after_insert(before, now, k, v, i as int);
            }
        } else {
            proof {
                if i < entries@.len() {
                    assert(before[i as int].0 == entries@[i as int].0@);
                    assert(before[i as int].0 != k);
                }
            }
            entries.insert(i, (key, value));
            let ghost now = pair_views(entries@);
            proof {
                assert(now =~= before.insert(i as int, (k, v)));
                assert forall|a: int, b: int| 0 <= a < b < now.len() implies order::text_le(
                    (#[trigger] now[a]).0,
                    (#[trigger] now[b]).0,
                ) && now[a].0 != now[b].0 by {
                    lemma_inserted_in_order(before, k, v, i as int, a, b);
                }
                lemma_map_after_insert(before, now, k, v, i as int);
            }
        }
        self.entries = entries;
    }

    /// The keys and values, in the order of the keys.
    pub fn entries(&self) -> (r: &Vec<(String, String)>)
        ensures
            is_ordered(pair_views(r@)),
            map_of(pair_views(r@)) == self@,
    {
        proof {
            use_type_invariant(self);
        }
        &self.entries
    }
}

impl Default for FieldMap {
    fn default() -> (r: Self)
        ensures
            r@ == Map::<Seq<char>, Seq<char>>::empty(),
    {
        FieldMap::new()
    }
}

impl Clone for FieldMap {
    fn clone(&self) -> (r: Self)
        ensures
            r@ == self@,
    {
        proof {
            use_type_invariant(self);
        }
        let ghost all = pair_views(self.entries@);
        let mut out = FieldMap::new();
        let mut i: usize = 0;
        while i < self.entries.len()
            invariant
                i <= self.entries@.len(),
                all == pair_views(self.entries@),
                out@ == map_of(all.take(i as int)),
            decreases self.entries@.len() - i,
        {
            assert(all.take(i + 1).drop_last() =~= all.take(i as int));
            out.insert(self.entries[i].0.clone(), self.entries[i].1.clone());
            i = i + 1;
        }
        assert(all.take(i as int) =~= all);
        out
    }
}

/// A new key put before every key that is not before it is in order.
proof fn lemma_inserted_in_order(
    s: Seq<(Seq<char>, Seq<char>)>,
    key: Seq<char>,
    value: Seq<char>,
    p: int,
    a: int,
    b: int,
)
    requires
        is_ordered(s),
        0 <= p <= s.len(),
        0 <= a < b <= s.len(),
        forall|i: int| 0 <= i < p ==> !order::text_le(key, (#[trigger] s[i]).0),
        forall|i: int| p <= i < s.len() ==> order::text_le(key, (#[trigger] s[i]).0),
        p < s.len() ==> s[p].0 != key,
    ensures
        order::text_le(s.insert(p, (key, value))[a].0, s.insert(p, (key, value))[b].0),
        s.insert(p, (key, value))[a].0 != s.insert(p, (key, value))[b].0,
{
    let now = s.insert(p, (key, value));
    order::lemma_bytes_le_total(encode_utf8(key), encode_utf8(key));
    if a < p {
        assert(now[a] == s[a]);
        if b < p {
            assert(now[b] == s[b]);
        } else if b == p {
            order::lemma_bytes_le_total(encode_utf8(key), encode_utf8(s[a].0));
        } else {
            assert(now[b] == s[b - 1]);
        }
    } else if a == p {
        assert(now[b] == s[b - 1]);
        if s[b - 1].0 == key {
            assert(b - 1 > p);
            assert(order::text_le(s[p].0, s[b - 1].0));
            assert(order::text_le(key, s[p].0));
            order::lemma_bytes_le_antisymmetric(encode_utf8(key), encode_utf8(s[p].0));
            crate::text::lemma_encode_injective(key, s[p].0);
        }
    } else {
        assert(now[a] == s[a - 1]);
        assert(now[b] == s[b - 1]);
    }
}

} // verus!
