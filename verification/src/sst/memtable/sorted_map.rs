//! A map from text keys to values, kept in ascending byte order of its keys.

use vstd::prelude::*;
use vstd::utf8::*;
use crate::sst::key_order::{
    KeyOrder, compare_strs, key_lt, lemma_key_lt_connected, lemma_lt_irreflexive,
    lemma_lt_transitive,
};

verus! {

/// The keys of `s` ascend strictly in byte order.
pub open spec fn keys_ascending<V>(s: Seq<(Seq<char>, V)>) -> bool {
    forall|i: int, j: int| 0 <= i < j < s.len() ==> key_lt(#[trigger] s[i].0, #[trigger] s[j].0)
}

/// Some pair of `s` has the key `k`.
pub open spec fn has_key<V>(s: Seq<(Seq<char>, V)>, k: Seq<char>) -> bool {
    exists|i: int| 0 <= i < s.len() && #[trigger] s[i].0 == k
}

/// Where `k` stands in `s`, if `s` has it.
pub open spec fn index_of_key<V>(s: Seq<(Seq<char>, V)>, k: Seq<char>) -> int {
    choose|i: int| 0 <= i < s.len() && #[trigger] s[i].0 == k
}

/// The map that the pairs of `s` make up.
pub open spec fn to_map<V>(s: Seq<(Seq<char>, V)>) -> Map<Seq<char>, V> {
    Map::new(|k: Seq<char>| has_key(s, k), |k: Seq<char>| s[index_of_key(s, k)].1)
}

/// In an ascending sequence a key stands at one place only.
pub proof fn lemma_index_of_key<V>(s: Seq<(Seq<char>, V)>, i: int)
    requires
        keys_ascending(s),
        0 <= i < s.len(),
    ensures
        has_key(s, s[i].0),
        index_of_key(s, s[i].0) == i,
        to_map(s).contains_key(s[i].0),
        to_map(s)[s[i].0] == s[i].1,
{
    let j = index_of_key(s, s[i].0);
    lemma_lt_irreflexive(encode_utf8(s[i].0));
    if j < i {
        assert(key_lt(s[j].0, s[i].0));
    } else if i < j {
        assert(key_lt(s[i].0, s[j].0));
    }
}

/// A key that falls between two neighbours is not in the sequence.
pub proof fn lemma_gap_has_no_key<V>(s: Seq<(Seq<char>, V)>, p: int, k: Seq<char>)
    requires
        0 <= p <= s.len(),
        forall|i: int| 0 <= i < p ==> key_lt(#[trigger] s[i].0, k),
        forall|i: int| p <= i < s.len() ==> key_lt(k, #[trigger] s[i].0),
    ensures
        !has_key(s, k),
        !to_map(s).contains_key(k),
{
    lemma_lt_irreflexive(encode_utf8(k));
}

/// Putting a new key at its place keeps the order and adds it to the map.
pub proof fn lemma_insert_at<V>(s: Seq<(Seq<char>, V)>, p: int, k: Seq<char>, v: V)
    requires
        keys_ascending(s),
        0 <= p <= s.len(),
        forall|i: int| 0 <= i < p ==> key_lt(#[trigger] s[i].0, k),
        forall|i: int| p <= i < s.len() ==> key_lt(k, #[trigger] s[i].0),
    ensures
        keys_ascending(s.insert(p, (k, v))),
        to_map(s.insert(p, (k, v))) == to_map(s).insert(k, v),
{
    let t = s.insert(p, (k, v));
    assert forall|i: int, j: int| 0 <= i < j < t.len() implies key_lt(
        #[trigger] t[i].0,
        #[trigger] t[j].0,
    ) by {
        let i0 = if i < p { i } else { i - 1 };
        let j0 = if j < p { j } else { j - 1 };
        if i != p && j != p {
            assert(t[i] == s[i0]);
            assert(t[j] == s[j0]);
        } else if i == p {
            assert(t[j] == s[j0]);
        } else {
            assert(t[i] == s[i0]);
        }
    }
    let m = to_map(s).insert(k, v);
    assert forall|x: Seq<char>| #[trigger] to_map(t).contains_key(x) == m.contains_key(x) by {
        if has_key(t, x) {
            let i = index_of_key(t, x);
            if i != p {
                let i0 = if i < p { i } else { i - 1 };
                assert(t[i] == s[i0]);
                assert(s[i0].0 == x);
            }
        }
        if has_key(s, x) {
            let i = index_of_key(s, x);
            let i1 = if i < p { i } else { i + 1 };
            assert(t[i1] == s[i]);
            assert(t[i1].0 == x);
        }
        if x == k {
            assert(t[p].0 == x);
        }
    }
    assert forall|x: Seq<char>| to_map(t).contains_key(x) implies #[trigger] to_map(t)[x] == m[x] by {
        let i = index_of_key(t, x);
        lemma_index_of_key(t, i);
        if i != p {
            let i0 = if i < p { i } else { i - 1 };
            assert(t[i] == s[i0]);
            lemma_index_of_key(s, i0);
            lemma_lt_irreflexive(encode_utf8(k));
        }
    }
    assert(to_map(t) =~= m);
}

/// Replacing the value at a place keeps the order and updates the map.
pub proof fn lemma_update_at<V>(s: Seq<(Seq<char>, V)>, p: int, v: V)
    requires
        keys_ascending(s),
        0 <= p < s.len(),
    ensures
        keys_ascending(s.update(p, (s[p].0, v))),
        to_map(s.update(p, (s[p].0, v))) == to_map(s).insert(s[p].0, v),
{
    let k = s[p].0;
    let t = s.update(p, (k, v));
    assert forall|i: int, j: int| 0 <= i < j < t.len() implies key_lt(
        #[trigger] t[i].0,
        #[trigger] t[j].0,
    ) by {
        assert(t[i].0 == s[i].0);
        assert(t[j].0 == s[j].0);
    }
    let m = to_map(s).insert(k, v);
    assert forall|x: Seq<char>| #[trigger] to_map(t).contains_key(x) == m.contains_key(x) by {
        if has_key(t, x) {
            let i = index_of_key(t, x);
            assert(s[i].0 == x);
        }
        if has_key(s, x) {
            let i = index_of_key(s, x);
            assert(t[i].0 == x);
        }
        if x == k {
            assert(t[p].0 == x);
        }
    }
    assert forall|x: Seq<char>| to_map(t).contains_key(x) implies #[trigger] to_map(t)[x] == m[x] by {
        let i = index_of_key(t, x);
        lemma_index_of_key(t, i);
        assert(t[i].0 == s[i].0);
        lemma_index_of_key(s, i);
        lemma_index_of_key(s, p);
    }
    assert(to_map(t) =~= m);
}

/// Taking the pair at a place out keeps the order and removes its key.
pub proof fn lemma_remove_at<V>(s: Seq<(Seq<char>, V)>, p: int)
    requires
        keys_ascending(s),
        0 <= p < s.len(),
    ensures
        keys_ascending(s.remove(p)),
        to_map(s.remove(p)) == to_map(s).remove(s[p].0),
{
    let k = s[p].0;
    let t = s.remove(p);
    assert forall|i: int, j: int| 0 <= i < j < t.len() implies key_lt(
        #[trigger] t[i].0,
        #[trigger] t[j].0,
    ) by {
        let i1 = if i < p { i } else { i + 1 };
        let j1 = if j < p { j } else { j + 1 };
        assert(t[i] == s[i1]);
        assert(t[j] == s[j1]);
    }
    let m = to_map(s).remove(k);
    assert forall|x: Seq<char>| #[trigger] to_map(t).contains_key(x) == m.contains_key(x) by {
        if has_key(t, x) {
            let i = index_of_key(t, x);
            let i1 = if i < p { i } else { i + 1 };
            assert(t[i] == s[i1]);
            assert(s[i1].0 == x);
            lemma_index_of_key(s, i1);
            lemma_index_of_key(s, p);
        }
        if has_key(s, x) && x != k {
            let i = index_of_key(s, x);
            let i0 = if i < p { i } else { i - 1 };
            assert(t[i0] == s[i]);
            assert(t[i0].0 == x);
        }
    }
    assert forall|x: Seq<char>| to_map(t).contains_key(x) implies #[trigger] to_map(t)[x] == m[x] by {
        let i = index_of_key(t, x);
        lemma_index_of_key(t, i);
        let i1 = if i < p { i } else { i + 1 };
        assert(t[i] == s[i1]);
        lemma_index_of_key(s, i1);
    }
    assert(to_map(t) =~= m);
}

/// An ascending sequence has as many pairs as its map has keys.
pub proof fn lemma_to_map_len<V>(s: Seq<(Seq<char>, V)>)
    requires
        keys_ascending(s),
    ensures
        to_map(s).dom().finite(),
        to_map(s).dom().len() == s.len(),
    decreases s.len(),
{
    if s.len() == 0 {
        assert(to_map(s).dom() =~= Set::<Seq<char>>::empty());
    } else {
        let p = s.len() - 1;
        let k = s[p].0;
        lemma_remove_at(s, p);
        lemma_index_of_key(s, p);
        lemma_to_map_len(s.remove(p));
        assert(to_map(s).dom() =~= to_map(s.remove(p)).dom().insert(k));
    }
}

/// `s` holds the pairs of `m` in ascending order of their keys.
pub open spec fn is_sorted_form<V>(s: Seq<(Seq<char>, V)>, m: Map<Seq<char>, V>) -> bool {
    keys_ascending(s) && to_map(s) == m
}

/// The pairs of `m` in ascending order of their keys.
pub open spec fn sorted_form<V>(m: Map<Seq<char>, V>) -> Seq<(Seq<char>, V)> {
    choose|s: Seq<(Seq<char>, V)>| is_sorted_form(s, m)
}

/// A map has one ascending sequence of its pairs only.
pub proof fn lemma_sorted_form_unique<V>(left: Seq<(Seq<char>, V)>, right: Seq<(Seq<char>, V)>)
    requires
        keys_ascending(left),
        keys_ascending(right),
        to_map(left) == to_map(right),
    ensures
        left == right,
    decreases left.len(),
{
    lemma_to_map_len(left);
    lemma_to_map_len(right);
    if left.len() == 0 {
        assert(left =~= right);
    } else {
        let p = left.len() - 1;
        let a = left[p];
        let b = right[p];
        lemma_index_of_key(left, p);
        lemma_index_of_key(right, p);
        assert(to_map(right).contains_key(a.0));
        assert(to_map(left).contains_key(b.0));
        let j = index_of_key(right, a.0);
        let i = index_of_key(left, b.0);
        assert(right[j].0 == a.0);
        assert(left[i].0 == b.0);
        lemma_lt_irreflexive(encode_utf8(a.0));
        if j < p {
            assert(key_lt(right[j].0, right[p].0));
            if i < p {
                assert(key_lt(left[i].0, left[p].0));
                lemma_lt_transitive(encode_utf8(a.0), encode_utf8(b.0), encode_utf8(a.0));
            }
        }
        assert(a.0 == b.0);
        assert(a.1 == b.1);
        lemma_remove_at(left, p);
        lemma_remove_at(right, p);
        lemma_sorted_form_unique(left.remove(p), right.remove(p));
        assert(left =~= left.remove(p).push(a));
        assert(right =~= right.remove(p).push(b));
    }
}

/// The ascending sequence of a map is the sequence that makes it up.
pub proof fn lemma_sorted_form<V>(s: Seq<(Seq<char>, V)>)
    requires
        keys_ascending(s),
    ensures
        sorted_form(to_map(s)) == s,
{
    assert(is_sorted_form(s, to_map(s)));
    lemma_sorted_form_unique(sorted_form(to_map(s)), s);
}

/// Some ascending sequence makes up `m`: `m` is finite.
pub open spec fn representable<V>(m: Map<Seq<char>, V>) -> bool {
    is_sorted_form(sorted_form(m), m)
}

/// The number of pairs at the front of `s` whose keys come before `k`.
pub open spec fn lower_bound<V>(s: Seq<(Seq<char>, V)>, k: Seq<char>) -> int
    decreases s.len(),
{
    if s.len() == 0 || !key_lt(s[0].0, k) {
        0
    } else {
        1 + lower_bound(s.drop_first(), k)
    }
}

/// In an ascending sequence the keys before the lower bound of `k` come
/// before `k`, and no key from there on does.
pub proof fn lemma_lower_bound<V>(s: Seq<(Seq<char>, V)>, k: Seq<char>)
    requires
        keys_ascending(s),
    ensures
        0 <= lower_bound(s, k) <= s.len(),
        forall|i: int| 0 <= i < lower_bound(s, k) ==> key_lt(#[trigger] s[i].0, k),
        forall|i: int| lower_bound(s, k) <= i < s.len() ==> !key_lt(#[trigger] s[i].0, k),
    decreases s.len(),
{
    if s.len() > 0 {
        let rest = s.drop_first();
        assert forall|i: int, j: int| 0 <= i < j < rest.len() implies key_lt(
            #[trigger] rest[i].0,
            #[trigger] rest[j].0,
        ) by {
            assert(rest[i] == s[i + 1]);
            assert(rest[j] == s[j + 1]);
        }
        lemma_lower_bound(rest, k);
        if key_lt(s[0].0, k) {
            assert forall|i: int| 0 <= i < lower_bound(s, k) implies key_lt(
                #[trigger] s[i].0,
                k,
            ) by {
                if i > 0 {
                    assert(s[i] == rest[i - 1]);
                }
            }
            assert forall|i: int| lower_bound(s, k) <= i < s.len() implies !key_lt(
                #[trigger] s[i].0,
                k,
            ) by {
                assert(s[i] == rest[i - 1]);
            }
        } else {
            assert forall|i: int| 0 <= i < s.len() implies !key_lt(#[trigger] s[i].0, k) by {
                if i > 0 && key_lt(s[i].0, k) {
                    assert(key_lt(s[0].0, s[i].0));
                    lemma_lt_transitive(encode_utf8(s[0].0), encode_utf8(s[i].0), encode_utf8(k));
                }
            }
        }
    }
}

/// The empty map is made up by the empty sequence.
pub proof fn lemma_representable_empty<V>()
    ensures
        representable(Map::<Seq<char>, V>::empty()),
        sorted_form(Map::<Seq<char>, V>::empty()) == Seq::<(Seq<char>, V)>::empty(),
{
    let s = Seq::<(Seq<char>, V)>::empty();
    assert(to_map(s) =~= Map::<Seq<char>, V>::empty());
    assert(is_sorted_form(s, Map::<Seq<char>, V>::empty()));
    lemma_sorted_form(s);
}

/// A map that an ascending sequence makes up still is one with a pair
/// put in.
pub proof fn lemma_representable_insert<V>(m: Map<Seq<char>, V>, k: Seq<char>, v: V)
    requires
        representable(m),
    ensures
        representable(m.insert(k, v)),
{
    let s = sorted_form(m);
    let p = lower_bound(s, k);
    lemma_lower_bound(s, k);
    if p < s.len() && s[p].0 == k {
        lemma_update_at(s, p, v);
        assert(is_sorted_form(s.update(p, (k, v)), m.insert(k, v)));
    } else {
        assert forall|i: int| p <= i < s.len() implies key_lt(k, #[trigger] s[i].0) by {
            if s[i].0 == k {
                assert(key_lt(s[p].0, s[i].0));
            }
            if !key_lt(k, s[i].0) {
                lemma_key_lt_connected(k, s[i].0);
            }
        }
        lemma_insert_at(s, p, k, v);
        assert(is_sorted_form(s.insert(p, (k, v)), m.insert(k, v)));
    }
}

/// A map that an ascending sequence makes up still is one with a key
/// taken out.
pub proof fn lemma_representable_remove<V>(m: Map<Seq<char>, V>, k: Seq<char>)
    requires
        representable(m),
    ensures
        representable(m.remove(k)),
{
    let s = sorted_form(m);
    if m.contains_key(k) {
        let p = index_of_key(s, k);
        assert(s[p].0 == k);
        lemma_remove_at(s, p);
        assert(is_sorted_form(s.remove(p), m.remove(k)));
    } else {
        assert(m.remove(k) =~= m);
    }
}

/// The ascending sequence of a map holds the pairs of the map and no
/// others, and as many as the map has keys.
pub proof fn lemma_sorted_form_pairs<V>(m: Map<Seq<char>, V>)
    requires
        representable(m),
    ensures
        m.dom().finite(),
        sorted_form(m).len() == m.dom().len(),
        forall|i: int|
            0 <= i < sorted_form(m).len() ==> m.contains_key((#[trigger] sorted_form(m)[i]).0)
                && m[sorted_form(m)[i].0] == sorted_form(m)[i].1,
{
    let s = sorted_form(m);
    lemma_to_map_len(s);
    assert forall|i: int| 0 <= i < s.len() implies m.contains_key((#[trigger] s[i]).0) && m[s[i].0]
        == s[i].1 by {
        lemma_index_of_key(s, i);
    }
}

/// The pairs of `s` with the text of their values.
pub open spec fn with_text(s: Seq<(Seq<char>, String)>) -> Seq<(Seq<char>, Seq<char>)> {
    s.map_values(|p: (Seq<char>, String)| (p.0, p.1@))
}

/// Taking the text of the values keeps the order, and the map of the
/// texts is the map with the text of its values.
pub proof fn lemma_with_text(s: Seq<(Seq<char>, String)>)
    requires
        keys_ascending(s),
    ensures
        keys_ascending(with_text(s)),
        to_map(with_text(s)) == to_map(s).map_values(|v: String| v@),
{
    let t = with_text(s);
    assert forall|i: int, j: int| 0 <= i < j < t.len() implies key_lt(
        #[trigger] t[i].0,
        #[trigger] t[j].0,
    ) by {
        assert(t[i].0 == s[i].0);
        assert(t[j].0 == s[j].0);
    }
    let m = to_map(s).map_values(|v: String| v@);
    assert forall|x: Seq<char>| #[trigger] to_map(t).contains_key(x) == m.contains_key(x) by {
        if has_key(t, x) {
            let i = index_of_key(t, x);
            assert(s[i].0 == x);
        }
        if has_key(s, x) {
            let i = index_of_key(s, x);
            assert(t[i].0 == x);
        }
    }
    assert forall|x: Seq<char>| to_map(t).contains_key(x) implies #[trigger] to_map(t)[x] == m[x] by {
        let i = index_of_key(t, x);
        lemma_index_of_key(t, i);
        assert(t[i].0 == s[i].0);
        lemma_index_of_key(s, i);
    }
    assert(to_map(t) =~= m);
}

/// The text of a value that may be missing.
pub open spec fn opt_text(v: Option<String>) -> Option<Seq<char>> {
    match v {
        Some(text) => Some(text@),
        None => None,
    }
}

/// The pairs of `s` with the text of their values, where they have one.
pub open spec fn with_opt_text(s: Seq<(Seq<char>, Option<String>)>) -> Seq<
    (Seq<char>, Option<Seq<char>>),
> {
    s.map_values(|p: (Seq<char>, Option<String>)| (p.0, opt_text(p.1)))
}

/// Taking the text of the values keeps the order, and the map of the
/// texts is the map with the text of its values.
pub proof fn lemma_with_opt_text(s: Seq<(Seq<char>, Option<String>)>)
    requires
        keys_ascending(s),
    ensures
        keys_ascending(with_opt_text(s)),
        to_map(with_opt_text(s)) == to_map(s).map_values(|v: Option<String>| opt_text(v)),
{
    let t = with_opt_text(s);
    assert forall|i: int, j: int| 0 <= i < j < t.len() implies key_lt(
        #[trigger] t[i].0,
        #[trigger] t[j].0,
    ) by {
        assert(t[i].0 == s[i].0);
        assert(t[j].0 == s[j].0);
    }
    let m = to_map(s).map_values(|v: Option<String>| opt_text(v));
    assert forall|x: Seq<char>| #[trigger] to_map(t).contains_key(x) == m.contains_key(x) by {
        if has_key(t, x) {
            let i = index_of_key(t, x);
            assert(s[i].0 == x);
        }
        if has_key(s, x) {
            let i = index_of_key(s, x);
            assert(t[i].0 == x);
        }
    }
    assert forall|x: Seq<char>| to_map(t).contains_key(x) implies #[trigger] to_map(t)[x] == m[x] by {
        let i = index_of_key(t, x);
        lemma_index_of_key(t, i);
        assert(t[i].0 == s[i].0);
        lemma_index_of_key(s, i);
    }
    assert(to_map(t) =~= m);
}

/// The map that the first `n` pairs of an ascending sequence make up
/// grows by the next pair.
pub proof fn lemma_to_map_take<V>(s: Seq<(Seq<char>, V)>, n: int)
    requires
        keys_ascending(s),
        0 <= n < s.len(),
    ensures
        keys_ascending(s.take(n)),
        !to_map(s.take(n)).contains_key(s[n].0),
        to_map(s.take(n + 1)) == to_map(s.take(n)).insert(s[n].0, s[n].1),
{
    let head = s.take(n);
    assert forall|i: int, j: int| 0 <= i < j < head.len() implies key_lt(
        #[trigger] head[i].0,
        #[trigger] head[j].0,
    ) by {
        assert(head[i] == s[i] && head[j] == s[j]);
    }
    assert forall|i: int| 0 <= i < n implies key_lt(#[trigger] head[i].0, s[n].0) by {
        assert(head[i] == s[i]);
    }
    lemma_gap_has_no_key(head, n, s[n].0);
    lemma_insert_at(head, n, s[n].0, s[n].1);
    assert(head.insert(n, s[n]) =~= s.take(n + 1));
}

/// A map from text keys to values of type `V`, sorted by the bytes of the
/// keys.
#[derive(Debug, Clone, PartialEq, Eq)]
pub struct SortedMap<V> {
    items: Vec<(String, V)>,
}

impl<V> SortedMap<V> {
    /// The pairs of the map, in the order in which they are kept.
    pub closed spec fn entries(&self) -> Seq<(Seq<char>, V)> {
        self.items@.map_values(|p: (String, V)| (p.0@, p.1))
    }

    /// The keys ascend strictly, so no key occurs twice.
    pub open spec fn wf(&self) -> bool {
        keys_ascending(self.entries())
    }

    /// The map as a mathematical map.
    pub open spec fn view(&self) -> Map<Seq<char>, V> {
        to_map(self.entries())
    }

    /// A well-formed map has as many keys as it keeps pairs.
    pub proof fn lemma_len(&self)
        requires
            self.wf(),
        ensures
            self@.dom().finite(),
            self@.dom().len() == self.entries().len(),
    {
        lemma_to_map_len(self.entries());
    }

    /// An empty map.
    pub fn new() -> (m: Self)
        ensures
            m.wf(),
            m.entries() == Seq::<(Seq<char>, V)>::empty(),
            m@ == Map::<Seq<char>, V>::empty(),
    {
        let m = SortedMap { items: Vec::new() };
        assert(m.entries() =~= Seq::<(Seq<char>, V)>::empty());
        assert(m@ =~= Map::<Seq<char>, V>::empty());
        m
    }

    /// The number of keys.
    pub fn len(&self) -> (n: usize)
        ensures
            n == self.entries().len(),
    {
        self.items.len()
    }

    /// The key at place `i` of the ascending order.
    pub fn key_at(&self, i: usize) -> (k: &String)
        requires
            i < self.entries().len(),
        ensures
            k@ == self.entries()[i as int].0,
    {
        &self.items[i].0
    }

    /// The value at place `i` of the ascending order.
    pub fn value_at(&self, i: usize) -> (v: &V)
        requires
            i < self.entries().len(),
        ensures
            *v == self.entries()[i as int].1,
    {
        &self.items[i].1
    }

    /// Where `key` stands, or where it would have to be put.
    fn position(&self, key: &str) -> (r: (usize, bool))
        requires
            self.wf(),
        ensures
            r.0 <= self.entries().len(),
            forall|i: int| 0 <= i < r.0 ==> key_lt(#[trigger] self.entries()[i].0, key@),
            r.1 ==> r.0 < self.entries().len() && self.entries()[r.0 as int].0 == key@,
            !r.1 ==> forall|i: int|
                r.0 <= i < self.entries().len() ==> key_lt(key@, #[trigger] self.entries()[i].0),
    {
        let mut lo: usize = 0;
        let mut hi: usize = self.items.len();
        while lo < hi
            invariant
                self.wf(),
                lo <= hi <= self.items.len(),
                self.items.len() == self.entries().len(),
                forall|i: int| 0 <= i < lo ==> key_lt(#[trigger] self.entries()[i].0, key@),
                forall|i: int|
                    hi <= i < self.entries().len() ==> key_lt(key@, #[trigger] self.entries()[i].0),
            decreases hi - lo,
        {
            let mid = lo + (hi - lo) / 2;
            let mid_key = self.items[mid].0.as_str();
            assert(mid_key@ == self.entries()[mid as int].0);
            match compare_strs(mid_key, key) {
                KeyOrder::Before => {
                    proof {
                        assert forall|i: int| 0 <= i < mid + 1 implies key_lt(
                            #[trigger] self.entries()[i].0,
                            key@,
                        ) by {
                            if i < mid {
                                assert(key_lt(self.entries()[i].0, self.entries()[mid as int].0));
                                lemma_lt_transitive(
                                    encode_utf8(self.entries()[i].0),
                                    encode_utf8(mid_key@),
                                    encode_utf8(key@),
                                );
                            }
                        }
                    }
                    lo = mid + 1;
                },
                KeyOrder::Same => {
                    proof {
                        assert forall|i: int| 0 <= i < mid implies key_lt(
                            #[trigger] self.entries()[i].0,
                            key@,
                        ) by {
                            assert(key_lt(self.entries()[i].0, self.entries()[mid as int].0));
                        }
                    }
                    return (mid, true);
                },
                KeyOrder::After => {
                    proof {
                        assert forall|i: int| mid <= i < self.entries().len() implies key_lt(
                            key@,
                            #[trigger] self.entries()[i].0,
                        ) by {
                            if mid < i {
                                assert(key_lt(self.entries()[mid as int].0, self.entries()[i].0));
                                lemma_lt_transitive(
                                    encode_utf8(key@),
                                    encode_utf8(mid_key@),
                                    encode_utf8(self.entries()[i].0),
                                );
                            }
                        }
                    }
                    hi = mid;
                },
            }
        }
        (lo, false)
    }

    /// The value kept under `key`, if there is one.
    pub fn get(&self, key: &str) -> (r: Option<&V>)
        requires
            self.wf(),
        ensures
            match r {
                Some(v) => self@.contains_key(key@) && *v == self@[key@],
                None => !self@.contains_key(key@),
            },
    {
        let (p, found) = self.position(key);
        if found {
            proof {
                lemma_index_of_key(self.entries(), p as int);
            }
            Some(&self.items[p].1)
        } else {
            proof {
                lemma_gap_has_no_key(self.entries(), p as int, key@);
            }
            None
        }
    }

    /// Whether `key` is in the map.
    pub fn contains_key(&self, key: &str) -> (r: bool)
        requires
            self.wf(),
        ensures
            r == self@.contains_key(key@),
    {
        self.get(key).is_some()
    }

    /// Puts `value` under `key`, replacing what was kept there.
    pub fn insert(&mut self, key: String, value: V)
        requires
            old(self).wf(),
        ensures
            final(self).wf(),
            final(self)@ == old(self)@.insert(key@, value),
            final(self).entries().len() == old(self).entries().len() + (if old(self)@.contains_key(
                key@,
            ) {
                0int
            } else {
                1int
            }),
    {
        let (p, found) = self.position(key.as_str());
        let ghost before = self.entries();
        if found {
            proof {
                lemma_index_of_key(before, p as int);
                lemma_update_at(before, p as int, value);
            }
            self.items.set(p, (key, value));
            assert(self.entries() =~= before.update(p as int, (key@, value)));
        } else {
            proof {
                lemma_gap_has_no_key(before, p as int, key@);
                lemma_insert_at(before, p as int, key@, value);
            }
            self.items.insert(p, (key, value));
            assert(self.entries() =~= before.insert(p as int, (key@, value)));
        }
    }

    /// Takes `key` and its value out of the map.
    pub fn remove(&mut self, key: &str)
        requires
            old(self).wf(),
        ensures
            final(self).wf(),
            final(self)@ == old(self)@.remove(key@),
            final(self).entries().len() == old(self).entries().len() - (if old(self)@.contains_key(
                key@,
            ) {
                1int
            } else {
                0int
            }),
    {
        let (p, found) = self.position(key);
        let ghost before = self.entries();
        if found {
            proof {
                lemma_index_of_key(before, p as int);
                lemma_remove_at(before, p as int);
            }
            self.items.remove(p);
            assert(self.entries() =~= before.remove(p as int));
        } else {
            proof {
                lemma_gap_has_no_key(before, p as int, key@);
                assert(self@.remove(key@) =~= self@);
            }
        }
    }

    /// Empties the map.
    pub fn clear(&mut self)
        ensures
            final(self).wf(),
            final(self).entries() == Seq::<(Seq<char>, V)>::empty(),
            final(self)@ == Map::<Seq<char>, V>::empty(),
    {
        self.items.clear();
        assert(self.entries() =~= Seq::<(Seq<char>, V)>::empty());
        assert(self@ =~= Map::<Seq<char>, V>::empty());
    }
}

} // verus!
