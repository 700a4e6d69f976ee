//! A map from strings to values that keeps its entries in insertion order.
//!
//! Its view is the sequence of its entries, each a key and the deep view of its
//! value. A key stands at most once: `insert` replaces the value of a key that
//! is present and appends the entry otherwise.
use vstd::prelude::*;
use crate::text::str_eq;

verus! {

/// Whether some entry of `m` has the key `k`.
pub open spec fn has_key<X>(m: Seq<(Seq<char>, X)>, k: Seq<char>) -> bool {
    exists|i: int| 0 <= i < m.len() && #[trigger] m[i].0 == k
}

/// Whether `i` is the first index of `m` whose entry has key `k`.
pub open spec fn is_first_key_index<X>(m: Seq<(Seq<char>, X)>, k: Seq<char>, i: int) -> bool {
    &&& 0 <= i < m.len()
    &&& m[i].0 == k
    &&& forall|j: int| 0 <= j < i ==> #[trigger] m[j].0 != k
}

/// The index of the first entry of `m` with key `k` (meaningful when `has_key(m, k)`).
pub open spec fn key_index<X>(m: Seq<(Seq<char>, X)>, k: Seq<char>) -> int {
    choose|i: int| is_first_key_index(m, k, i)
}

/// The value that `m` holds for `k`, if any.
pub open spec fn map_get<X>(m: Seq<(Seq<char>, X)>, k: Seq<char>) -> Option<X> {
    if has_key(m, k) {
        Some(m[key_index(m, k)].1)
    } else {
        None
    }
}

/// `m` after inserting `v` under `k`: the value of the entry with key `k` is
/// replaced if there is one; otherwise the entry is appended.
pub open spec fn map_insert<X>(m: Seq<(Seq<char>, X)>, k: Seq<char>, v: X) -> Seq<(Seq<char>, X)> {
    if has_key(m, k) {
        m.update(key_index(m, k), (k, v))
    } else {
        m.push((k, v))
    }
}

/// `m` after inserting each of `es` in turn.
pub open spec fn map_insert_all<X>(m: Seq<(Seq<char>, X)>, es: Seq<(Seq<char>, X)>) -> Seq<(Seq<char>, X)>
    decreases es.len(),
{
    if es.len() == 0 {
        m
    } else {
        let prev = map_insert_all(m, es.drop_last());
        map_insert(prev, es.last().0, es.last().1)
    }
}

/// Whether no key stands twice in `m`.
pub open spec fn keys_distinct<X>(m: Seq<(Seq<char>, X)>) -> bool {
    forall|i: int, j: int| 0 <= i < m.len() && 0 <= j < m.len() && i != j ==> #[trigger] m[i].0 != #[trigger] m[j].0
}

/// The first index with a given key is unique, so `key_index` finds it.
pub proof fn lemma_key_index<X>(m: Seq<(Seq<char>, X)>, k: Seq<char>, i: int)
    requires
        is_first_key_index(m, k, i),
    ensures
        has_key(m, k),
        key_index(m, k) == i,
{
    assert(m[i].0 == k);
    let j = key_index(m, k);
    assert(is_first_key_index(m, k, j));
    if j < i {
        assert(m[j].0 != k);
    } else if i < j {
        assert(m[i].0 != k);
    }
}

/// Whenever a key is present, there is a first index that holds it.
pub proof fn lemma_has_key_first<X>(m: Seq<(Seq<char>, X)>, k: Seq<char>)
    requires
        has_key(m, k),
    ensures
        is_first_key_index(m, k, key_index(m, k)),
{
    let w = choose|w: int| 0 <= w < m.len() && #[trigger] m[w].0 == k;
    lemma_first_below(m, k, w);
}

proof fn lemma_first_below<X>(m: Seq<(Seq<char>, X)>, k: Seq<char>, w: int)
    requires
        0 <= w < m.len(),
        m[w].0 == k,
    ensures
        exists|i: int| is_first_key_index(m, k, i),
    decreases w,
{
    if exists|j: int| 0 <= j < w && #[trigger] m[j].0 == k {
        let j = choose|j: int| 0 <= j < w && #[trigger] m[j].0 == k;
        lemma_first_below(m, k, j);
    } else {
        assert(is_first_key_index(m, k, w));
    }
}

/// Inserting keeps keys distinct.
pub proof fn lemma_insert_keeps_distinct<X>(m: Seq<(Seq<char>, X)>, k: Seq<char>, v: X)
    requires
        keys_distinct(m),
    ensures
        keys_distinct(map_insert(m, k, v)),
{
    if has_key(m, k) {
        lemma_has_key_first(m, k);
    }
}

/// A read after a write gives back what was written, and a write leaves the
/// value of every other key as it was.
pub proof fn lemma_get_after_insert<X>(m: Seq<(Seq<char>, X)>, k: Seq<char>, v: X, other: Seq<char>)
    ensures
        map_get(map_insert(m, k, v), k) == Some(v),
        other != k ==> map_get(map_insert(m, k, v), other) == map_get(m, other),
{
    let m2 = map_insert(m, k, v);
    if has_key(m, k) {
        lemma_has_key_first(m, k);
        let i = key_index(m, k);
        assert(is_first_key_index(m2, k, i));
        lemma_key_index(m2, k, i);
        if other != k {
            if has_key(m, other) {
                lemma_has_key_first(m, other);
                let j = key_index(m, other);
                assert(is_first_key_index(m2, other, j));
                lemma_key_index(m2, other, j);
            } else {
                assert forall|x: int| 0 <= x < m2.len() implies #[trigger] m2[x].0 != other by {
                    if x != i {
                        assert(m2[x] == m[x]);
                    }
                }
            }
        }
    } else {
        assert(is_first_key_index(m2, k, m.len() as int));
        lemma_key_index(m2, k, m.len() as int);
        if other != k {
            if has_key(m, other) {
                lemma_has_key_first(m, other);
                let j = key_index(m, other);
                assert(is_first_key_index(m2, other, j));
                lemma_key_index(m2, other, j);
            } else {
                assert forall|x: int| 0 <= x < m2.len() implies #[trigger] m2[x].0 != other by {
                    if x < m.len() {
                        assert(m2[x] == m[x]);
                    }
                }
            }
        }
    }
}

/// A key of either part of a concatenation is a key of the whole.
pub proof fn lemma_has_key_append<X>(a: Seq<(Seq<char>, X)>, b: Seq<(Seq<char>, X)>, k: Seq<char>)
    ensures
        has_key(a, k) || has_key(b, k) ==> has_key(a + b, k),
{
    if has_key(a, k) {
        let w = choose|w: int| 0 <= w < a.len() && #[trigger] a[w].0 == k;
        assert((a + b)[w] == a[w]);
    } else if has_key(b, k) {
        let w = choose|w: int| 0 <= w < b.len() && #[trigger] b[w].0 == k;
        assert((a + b)[a.len() + w] == b[w]);
    }
}

/// After inserting a sequence of entries, every key among them is present.
pub proof fn lemma_insert_all_has_keys<X>(m: Seq<(Seq<char>, X)>, es: Seq<(Seq<char>, X)>, j: int)
    requires
        0 <= j < es.len(),
    ensures
        has_key(map_insert_all(m, es), es[j].0),
    decreases es.len(),
{
    let prev = map_insert_all(m, es.drop_last());
    lemma_get_after_insert(prev, es.last().0, es.last().1, es[j].0);
    if j < es.len() - 1 {
        lemma_insert_all_has_keys(m, es.drop_last(), j);
        assert(es.drop_last()[j] == es[j]);
        if es[j].0 != es.last().0 {
            assert(map_get(prev, es[j].0) is Some);
        }
    }
}

/// A map from strings to values, in insertion order, in which no key stands
/// twice.
pub struct StringMap<V> {
    entries: Vec<(String, V)>,
}

impl<V: DeepView> DeepView for StringMap<V> {
    type V = Seq<(Seq<char>, V::V)>;

    closed spec fn deep_view(&self) -> Seq<(Seq<char>, V::V)> {
        self.entries.deep_view()
    }
}

impl<V> StringMap<V> {
    #[verifier::type_invariant]
    spec fn well_formed(self) -> bool {
        forall|i: int, j: int|
            0 <= i < self.entries@.len() && 0 <= j < self.entries@.len() && i != j
                ==> #[trigger] self.entries@[i].0@ != #[trigger] self.entries@[j].0@
    }
}

/// The entries' keys are distinct exactly when the keys of their view are.
proof fn lemma_keys_distinct_view<V: DeepView>(entries: Vec<(String, V)>)
    ensures
        keys_distinct(entries.deep_view()) <==> forall|i: int, j: int|
            0 <= i < entries@.len() && 0 <= j < entries@.len() && i != j
                ==> #[trigger] entries@[i].0@ != #[trigger] entries@[j].0@,
{
    let m = entries.deep_view();
    let e = entries@;
    assert(m.len() == e.len());
    if keys_distinct(m) {
        assert forall|i: int, j: int| 0 <= i < e.len() && 0 <= j < e.len() && i != j implies #[trigger] e[i].0@
            != #[trigger] e[j].0@ by {
            assert(m[i].0 == e[i].0@);
            assert(m[j].0 == e[j].0@);
        }
    }
    if forall|i: int, j: int|
        0 <= i < e.len() && 0 <= j < e.len() && i != j ==> #[trigger] e[i].0@ != #[trigger] e[j].0@ {
        assert forall|i: int, j: int| 0 <= i < m.len() && 0 <= j < m.len() && i != j implies #[trigger] m[i].0
            != #[trigger] m[j].0 by {
            assert(m[i].0 == e[i].0@);
            assert(m[j].0 == e[j].0@);
        }
    }
}

impl<V: DeepView> StringMap<V> {

    /// An empty map.
    pub fn new() -> (res: Self)
        ensures
            res.deep_view() == Seq::<(Seq<char>, V::V)>::empty(),
    {
        let entries: Vec<(String, V)> = Vec::new();
        assert(entries.deep_view() =~= Seq::<(Seq<char>, V::V)>::empty());
        assert(entries@.len() == 0);
        StringMap { entries }
    }

    /// The entries, in insertion order; no key stands twice among them.
    pub fn entries(&self) -> (r: &Vec<(String, V)>)
        ensures
            r.deep_view() == self.deep_view(),
            keys_distinct(self.deep_view()),
    {
        proof {
            use_type_invariant(self);
            lemma_keys_distinct_view(self.entries);
        }
        &self.entries
    }

    /// The number of entries.
    pub fn len(&self) -> (n: usize)
        ensures
            n == self.deep_view().len(),
    {
        self.entries.len()
    }

    /// The index of the entry with key `k`, if there is one.
    pub fn find(&self, k: &str) -> (res: Option<usize>)
        ensures
            match res {
                Some(i) => is_first_key_index(self.deep_view(), k@, i as int),
                None => !has_key(self.deep_view(), k@),
            },
    {
        find_key(&self.entries, k)
    }

    /// Whether some entry has key `k`.
    pub fn contains_key(&self, k: &str) -> (b: bool)
        ensures
            b == has_key(self.deep_view(), k@),
    {
        self.find(k).is_some()
    }

    /// The value held under `k`, if any.
    pub fn get(&self, k: &str) -> (res: Option<&V>)
        ensures
            match map_get(self.deep_view(), k@) {
                Some(v) => res matches Some(x) && x.deep_view() == v,
                None => res is None,
            },
    {
        match self.find(k) {
            Some(i) => {
                proof {
                    lemma_key_index(self.deep_view(), k@, i as int);
                }
                Some(&self.entries[i].1)
            },
            None => None,
        }
    }

    /// Inserts `v` under `k`, replacing the value of an entry with that key.
    pub fn insert(&mut self, k: String, v: V)
        ensures
            final(self).deep_view() == map_insert(old(self).deep_view(), k@, v.deep_view()),
    {
        proof {
            use_type_invariant(&*self);
            lemma_keys_distinct_view(self.entries);
        }
        let ghost m = self.deep_view();
        let ghost kv = k@;
        let ghost vv = v.deep_view();
        proof {
            lemma_insert_keeps_distinct(m, kv, vv);
        }
        let mut entries: Vec<(String, V)> = Vec::new();
        core::mem::swap(&mut entries, &mut self.entries);
        match find_key(&entries, k.as_str()) {
            Some(i) => {
                proof {
                    lemma_key_index(m, kv, i as int);
                }
                entries.set(i, (k, v));
                assert(entries.deep_view() =~= m.update(i as int, (kv, vv)));
            },
            None => {
                entries.push((k, v));
                assert(entries.deep_view() =~= m.push((kv, vv)));
            },
        }
        proof {
            lemma_keys_distinct_view(entries);
        }
        self.entries = entries;
    }
}

/// The index of the first entry of `entries` with key `k`, if there is one.
fn find_key<V: DeepView>(entries: &Vec<(String, V)>, k: &str) -> (res: Option<usize>)
    ensures
        match res {
            Some(i) => is_first_key_index(entries.deep_view(), k@, i as int),
            None => !has_key(entries.deep_view(), k@),
        },
{
    let ghost m = entries.deep_view();
    let mut i: usize = 0;
    while i < entries.len()
        invariant
            i <= entries.len(),
            m == entries.deep_view(),
            m.len() == entries.len(),
            forall|j: int| 0 <= j < i ==> #[trigger] m[j].0 != k@,
        decreases entries.len() - i,
    {
        assert(m[i as int].0 == entries@[i as int].0@);
        if str_eq(entries[i].0.as_str(), k) {
            return Some(i);
        }
        i = i + 1;
    }
    None
}

} // verus!
