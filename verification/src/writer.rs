//! What the writer computes before it writes: the name of a generated script,
//! and the localisation entries in human-friendly order.
use vstd::prelude::*;
use crate::case::{snake_case, to_snake_case};
use crate::dialogue::LocalisationMap;
use crate::maps::has_key;
use crate::text::{chars_of, is_digit, is_digit_char};

verus! {

/// How `human_sort` orders two strings: -1 (less), 0 (equal) or 1 (greater).
pub uninterp spec fn human_order(a: Seq<char>, b: Seq<char>) -> i8;

/// The value of the run of ASCII digits with which `s` ends; 0 when `s` does
/// not end in a digit.
pub open spec fn trailing_run_value(s: Seq<char>) -> int
    decreases s.len(),
{
    if s.len() == 0 || !is_digit(s.last()) {
        0
    } else {
        trailing_run_value(s.drop_last()) * 10 + (s.last() as int - '0' as int)
    }
}

/// Whether `s` holds a run of ASCII digits, taken as far as it goes on both
/// sides, whose value exceeds `u32::MAX`. `human_sort` adds up the digits of a
/// run in a `u32`, which overflows only on such a run.
pub open spec fn has_oversized_digit_run(s: Seq<char>) -> bool {
    exists|j: int|
        0 <= j <= s.len() && (j == s.len() || !is_digit(s[j])) && #[trigger] trailing_run_value(
            s.take(j),
        ) > u32::MAX
}

proof fn lemma_trailing_run_value_nonneg(s: Seq<char>)
    ensures
        trailing_run_value(s) >= 0,
    decreases s.len(),
{
    if s.len() > 0 {
        lemma_trailing_run_value_nonneg(s.drop_last());
    }
}

/// Compares two strings in human-friendly order (runs of digits compared as
/// numbers).
///
/// Trusted: calls `human_sort::compare`, whose result depends on its two
/// arguments alone; it is named `human_order`, with `Less`, `Equal` and
/// `Greater` written -1, 0 and 1. It adds up runs of ASCII digits in a `u32`
/// (`sum * 10 + n`, from where the two strings first differ to the end of the
/// run), which overflows when a run is worth more than `u32::MAX`; strings that
/// hold such a run are left out.
#[verifier::external_body]
fn human_compare(a: &str, b: &str) -> (r: i8)
    requires
        !has_oversized_digit_run(a@),
        !has_oversized_digit_run(b@),
    ensures
        r == human_order(a@, b@),
        -1 <= r <= 1,
{
    match human_sort::compare(a, b) {
        core::cmp::Ordering::Less => -1,
        core::cmp::Ordering::Equal => 0,
        core::cmp::Ordering::Greater => 1,
    }
}

/// Where an entry with key `key` goes in `sorted`: after every entry that does
/// not compare greater than it, counting from the end.
pub open spec fn insertion_point(sorted: Seq<(Seq<char>, Seq<char>)>, key: Seq<char>) -> int
    decreases sorted.len(),
{
    if sorted.len() == 0 {
        0
    } else if human_order(sorted.last().0, key) == 1 {
        insertion_point(sorted.drop_last(), key)
    } else {
        sorted.len() as int
    }
}

/// The entries sorted by key in human-friendly order, by insertion: each entry
/// goes after the entries before it whose key does not compare greater.
pub open spec fn human_sorted(entries: Seq<(Seq<char>, Seq<char>)>) -> Seq<(Seq<char>, Seq<char>)>
    decreases entries.len(),
{
    if entries.len() == 0 {
        Seq::empty()
    } else {
        let prev = human_sorted(entries.drop_last());
        prev.insert(insertion_point(prev, entries.last().0), entries.last())
    }
}

/// Every entry from the insertion point on compares greater than `key`; the
/// entry just before it does not.
proof fn lemma_insertion_point(sorted: Seq<(Seq<char>, Seq<char>)>, key: Seq<char>)
    ensures
        0 <= insertion_point(sorted, key) <= sorted.len(),
        forall|q: int|
            insertion_point(sorted, key) <= q < sorted.len() ==> human_order(
                #[trigger] sorted[q].0,
                key,
            ) == 1,
        insertion_point(sorted, key) > 0 ==> human_order(
            sorted[insertion_point(sorted, key) - 1].0,
            key,
        ) != 1,
    decreases sorted.len(),
{
    if sorted.len() > 0 && human_order(sorted.last().0, key) == 1 {
        let d = sorted.drop_last();
        lemma_insertion_point(d, key);
        assert forall|q: int| insertion_point(sorted, key) <= q < sorted.len() implies human_order(
            #[trigger] sorted[q].0,
            key,
        ) == 1 by {
            if q < sorted.len() - 1 {
                assert(sorted[q] == d[q]);
            }
        }
        if insertion_point(sorted, key) > 0 {
            assert(sorted[insertion_point(sorted, key) - 1] == d[insertion_point(d, key) - 1]);
        }
    }
}

/// Sorting keeps every entry, each as often as it was there.
pub proof fn lemma_human_sorted_permutation(entries: Seq<(Seq<char>, Seq<char>)>)
    ensures
        human_sorted(entries).to_multiset() == entries.to_multiset(),
    decreases entries.len(),
{
    broadcast use vstd::seq_lib::to_multiset_insert, vstd::seq_lib::to_multiset_build;

    if entries.len() == 0 {
        assert(human_sorted(entries) =~= entries);
    } else {
        let prev = human_sorted(entries.drop_last());
        lemma_human_sorted_permutation(entries.drop_last());
        lemma_insertion_point(prev, entries.last().0);
        assert(entries == entries.drop_last().push(entries.last()));
    }
}

/// Each entry of the sorted sequence is one of the entries.
proof fn lemma_human_sorted_from(entries: Seq<(Seq<char>, Seq<char>)>)
    ensures
        human_sorted(entries).len() == entries.len(),
        forall|q: int|
            0 <= q < entries.len() ==> entries.contains(#[trigger] human_sorted(entries)[q]),
    decreases entries.len(),
{
    if entries.len() > 0 {
        let d = entries.drop_last();
        let prev = human_sorted(d);
        let p = insertion_point(prev, entries.last().0);
        lemma_human_sorted_from(d);
        lemma_insertion_point(prev, entries.last().0);
        let sorted = human_sorted(entries);
        assert forall|q: int| 0 <= q < entries.len() implies entries.contains(
            #[trigger] sorted[q],
        ) by {
            if q == p {
                assert(sorted[q] == entries[entries.len() - 1]);
            } else {
                let q2 = if q < p {
                    q
                } else {
                    q - 1
                };
                assert(sorted[q] == prev[q2]);
                assert(d.contains(prev[q2]));
                let x = choose|x: int| 0 <= x < d.len() && d[x] == prev[q2];
                assert(entries[x] == d[x]);
            }
        }
    }
}

/// Whether no entry of `s` has a key that compares greater than the key of an
/// entry after it.
pub open spec fn human_ordered(s: Seq<(Seq<char>, Seq<char>)>) -> bool {
    forall|i: int, j: int|
        #![trigger s[i], s[j]]
        0 <= i < j < s.len() ==> human_order(s[i].0, s[j].0) != 1
}

/// Whether `human_order` orders the keys of `entries` as a total preorder
/// does: a key greater than another is not also less than or equal to it, and
/// "not greater than" is transitive.
pub open spec fn human_order_is_preorder(entries: Seq<(Seq<char>, Seq<char>)>) -> bool {
    &&& forall|i: int, j: int|
        #![trigger human_order(entries[i].0, entries[j].0)]
        0 <= i < entries.len() && 0 <= j < entries.len() && human_order(entries[i].0, entries[j].0)
            == 1 ==> human_order(entries[j].0, entries[i].0) != 1
    &&& forall|i: int, j: int, k: int|
        #![trigger human_order(entries[i].0, entries[j].0), human_order(entries[j].0, entries[k].0)]
        0 <= i < entries.len() && 0 <= j < entries.len() && 0 <= k < entries.len() && human_order(
            entries[i].0,
            entries[j].0,
        ) != 1 && human_order(entries[j].0, entries[k].0) != 1 ==> human_order(
            entries[i].0,
            entries[k].0,
        ) != 1
}

/// Sorting puts the entries in human-friendly order of their keys wherever
/// `human_order` orders those keys as a total preorder: no key comes before one
/// that it compares greater than.
pub proof fn lemma_human_sorted_ordered(entries: Seq<(Seq<char>, Seq<char>)>)
    ensures
        human_order_is_preorder(entries) ==> human_ordered(human_sorted(entries)),
    decreases entries.len(),
{
    if entries.len() > 0 && human_order_is_preorder(entries) {
        let n = entries.len() - 1;
        let d = entries.drop_last();
        assert(human_order_is_preorder(d)) by {
            assert forall|i: int, j: int|
                0 <= i < d.len() && 0 <= j < d.len() && human_order(d[i].0, d[j].0) == 1 implies
                human_order(d[j].0, d[i].0) != 1 by {
                assert(d[i] == entries[i] && d[j] == entries[j]);
                assert(human_order(entries[i].0, entries[j].0) == 1);
            }
            assert forall|i: int, j: int, k: int|
                0 <= i < d.len() && 0 <= j < d.len() && 0 <= k < d.len() && human_order(d[i].0, d[j].0)
                    != 1 && human_order(d[j].0, d[k].0) != 1 implies human_order(d[i].0, d[k].0)
                != 1 by {
                assert(d[i] == entries[i] && d[j] == entries[j] && d[k] == entries[k]);
                assert(human_order(entries[i].0, entries[j].0) != 1);
                assert(human_order(entries[j].0, entries[k].0) != 1);
            }
        }
        lemma_human_sorted_ordered(d);
        lemma_human_sorted_from(d);
        let prev = human_sorted(d);
        let key = entries[n].0;
        let p = insertion_point(prev, key);
        lemma_insertion_point(prev, key);
        let sorted = human_sorted(entries);
        assert(sorted == prev.insert(p, entries[n]));
        assert forall|i: int, j: int| 0 <= i < j < sorted.len() implies human_order(
            #[trigger] sorted[i].0,
            #[trigger] sorted[j].0,
        ) != 1 by {
            if i == p {
                // The new entry, before one that compares greater than it.
                assert(sorted[j] == prev[j - 1]);
                assert(d.contains(prev[j - 1]));
                let x = choose|x: int| 0 <= x < d.len() && d[x] == prev[j - 1];
                assert(entries[x] == prev[j - 1]);
                assert(human_order(entries[x].0, entries[n].0) == 1);
            } else if j == p {
                // An entry before the new one, which no entry before it exceeds.
                assert(sorted[i] == prev[i]);
                assert(d.contains(prev[i]));
                assert(d.contains(prev[p - 1]));
                let x = choose|x: int| 0 <= x < d.len() && d[x] == prev[i];
                let y = choose|y: int| 0 <= y < d.len() && d[y] == prev[p - 1];
                assert(entries[x] == prev[i]);
                assert(entries[y] == prev[p - 1]);
                assert(human_order(entries[y].0, entries[n].0) != 1);
                if i < p - 1 {
                    assert(human_order(prev[i].0, prev[p - 1].0) != 1);
                    assert(human_order(entries[x].0, entries[y].0) != 1);
                }
            } else {
                let i2 = if i < p {
                    i
                } else {
                    i - 1
                };
                let j2 = if j < p {
                    j
                } else {
                    j - 1
                };
                assert(sorted[i] == prev[i2]);
                assert(sorted[j] == prev[j2]);
                assert(human_order(prev[i2].0, prev[j2].0) != 1);
            }
        }
    }
}

/// The name of the script of a class: the class name in snake_case, with `.gd`.
pub fn gdscript_file_name(class_name: &str) -> (res: String)
    ensures
        res@ == snake_case(class_name@) + ".gd"@,
{
    let mut res = to_snake_case(class_name);
    res.append(".gd");
    res
}

/// Whether `s` holds a run of ASCII digits worth more than `u32::MAX`.
pub fn holds_oversized_digit_run(s: &str) -> (b: bool)
    ensures
        b == has_oversized_digit_run(s@),
{
    let cs = chars_of(s);
    // The value of the run that ends at `i`, or `u32::MAX + 1` once it exceeds
    // `u32::MAX`.
    let mut v: u64 = 0;
    let mut i: usize = 0;
    while i < cs.len()
        invariant
            cs@ == s@,
            i <= cs.len(),
            v == (if trailing_run_value(s@.take(i as int)) > u32::MAX {
                u32::MAX + 1
            } else {
                trailing_run_value(s@.take(i as int))
            }),
            forall|j: int|
                0 <= j < i && !is_digit(s@[j]) ==> #[trigger] trailing_run_value(s@.take(j))
                    <= u32::MAX,
        decreases cs.len() - i,
    {
        proof {
            lemma_trailing_run_value_nonneg(s@.take(i as int));
            assert(s@.take(i + 1).drop_last() == s@.take(i as int));
            assert(s@.take(i + 1).last() == s@[i as int]);
        }
        let c = cs[i];
        if is_digit_char(c) {
            if v <= 4294967295 {
                let d = (c as u32 - '0' as u32) as u64;
                v = v * 10 + d;
                if v > 4294967295 {
                    v = 4294967296;
                }
            }
        } else {
            if v > 4294967295 {
                assert(trailing_run_value(s@.take(i as int)) > u32::MAX);
                return true;
            }
            v = 0;
        }
        i = i + 1;
    }
    assert(s@.take(cs.len() as int) == s@);
    if v > 4294967295 {
        assert(trailing_run_value(s@.take(s@.len() as int)) > u32::MAX);
        true
    } else {
        assert forall|j: int|
            0 <= j <= s@.len() && (j == s@.len() || !is_digit(s@[j])) implies !(
            #[trigger] trailing_run_value(s@.take(j)) > u32::MAX) by {
            if j == s@.len() {
                assert(s@.take(j) == s@.take(cs.len() as int));
            }
        }
        false
    }
}

/// Whether every key of the map can be handed to `human_sort`: none holds a
/// run of ASCII digits worth more than `u32::MAX`.
pub fn keys_sortable(localisation_map: &LocalisationMap) -> (b: bool)
    ensures
        b == forall|k: Seq<char>| has_key(localisation_map.deep_view(), k) ==> !has_oversized_digit_run(k),
{
    let es = localisation_map.entries();
    let ghost m = localisation_map.deep_view();
    let mut i: usize = 0;
    while i < es.len()
        invariant
            i <= es.len(),
            m == es.deep_view(),
            m == localisation_map.deep_view(),
            forall|j: int| 0 <= j < i ==> !has_oversized_digit_run(#[trigger] m[j].0),
        decreases es.len() - i,
    {
        assert(m[i as int].0 == es@[i as int].0@);
        if holds_oversized_digit_run(es[i].0.as_str()) {
            assert(has_key(m, m[i as int].0));
            return false;
        }
        i = i + 1;
    }
    assert forall|k: Seq<char>| has_key(m, k) implies !has_oversized_digit_run(k) by {
        let w = choose|w: int| 0 <= w < m.len() && #[trigger] m[w].0 == k;
        assert(!has_oversized_digit_run(m[w].0));
    }
    true
}

/// The localisation entries, as the translation table lists them: sorted by
/// key in human-friendly order. No key may hold a run of ASCII digits worth more
/// than `u32::MAX` (`keys_sortable` says whether none does).
pub fn sorted_localisation_entries(localisation_map: &LocalisationMap) -> (res: Vec<(String, String)>)
    requires
        forall|k: Seq<char>| has_key(localisation_map.deep_view(), k) ==> !has_oversized_digit_run(k),
    ensures
        res.deep_view() == human_sorted(localisation_map.deep_view()),
{
    let ghost entries = localisation_map.deep_view();
    let es = localisation_map.entries();
    let mut res: Vec<(String, String)> = Vec::new();
    let mut i: usize = 0;
    assert(entries.take(0) =~= Seq::<(Seq<char>, Seq<char>)>::empty());
    assert(res.deep_view() =~= Seq::<(Seq<char>, Seq<char>)>::empty());
    while i < es.len()
        invariant
            i <= es.len(),
            entries == es.deep_view(),
            res.deep_view() == human_sorted(entries.take(i as int)),
            forall|k: Seq<char>| has_key(entries, k) ==> !has_oversized_digit_run(k),
            forall|j: int| 0 <= j < res.len() ==> has_key(entries, #[trigger] res.deep_view()[j].0),
        decreases es.len() - i,
    {
        let (key, text) = &es[i];
        assert(entries.take(i + 1).drop_last() == entries.take(i as int));
        assert(entries.take(i + 1).last() == (key@, text@));
        let ghost sorted = res.deep_view();
        assert(has_key(entries, entries[i as int].0));
        // Walk back over the entries that compare greater than this one.
        let mut j = res.len();
        assert(sorted.take(j as int) == sorted);
        while j > 0 && human_compare(res[j - 1].0.as_str(), key.as_str()) == 1
            invariant
                j <= res.len(),
                sorted == res.deep_view(),
                insertion_point(sorted, key@) == insertion_point(sorted.take(j as int), key@),
                forall|k: Seq<char>| has_key(entries, k) ==> !has_oversized_digit_run(k),
                forall|x: int| 0 <= x < res.len() ==> has_key(entries, #[trigger] sorted[x].0),
                has_key(entries, key@),
            decreases j,
        {
            assert(sorted.take(j as int).drop_last() == sorted.take(j - 1));
            assert(sorted.take(j as int).last().0 == res@[j - 1].0@);
            j = j - 1;
        }
        proof {
            if j > 0 {
                assert(sorted.take(j as int).last().0 == res@[j - 1].0@);
            } else {
                assert(sorted.take(0) =~= Seq::<(Seq<char>, Seq<char>)>::empty());
            }
        }
        res.insert(j, (key.clone(), text.clone()));
        assert(res.deep_view() =~= sorted.insert(j as int, (key@, text@)));
        assert forall|x: int| 0 <= x < res.len() implies has_key(entries, #[trigger] res.deep_view()[x].0) by {
            if x < j {
                assert(res.deep_view()[x] == sorted[x]);
            } else if x > j {
                assert(res.deep_view()[x] == sorted[x - 1]);
            }
        }
        i = i + 1;
    }
    assert(entries.take(es.len() as int) == entries);
    res
}

} // verus!
