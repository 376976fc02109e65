//! What holds of a map as a whole: how inserting, removing, looking up and walking over a range
//! go together. The entries of a well-formed map are sorted (see `BTreeMap::lemma_sorted`), so
//! each of these holds of every such map.

use crate::compare::same_entries;
use crate::map::BTreeMap;
use crate::model::{
    extended, inserted, lemma_inserted_sorted, lemma_lookup_found, lemma_rank, lemma_rank_key,
    lemma_rank_len, lemma_removed_sorted, lookup, rank, removed, update_outcome, updated, value_at,
};
use crate::node::{lemma_le_lt, lemma_lt_le, sorted};
use crate::order::{
    is_after, is_before, is_sought, key_eq, key_le, key_lt, lawful_probe, lemma_key_probe,
    total_order, Probe,
};
use crate::range::{
    in_range, lawful_bound, lemma_range_entries, lemma_range_positions, range_entries, range_start,
    range_stop, Bound,
};
use vstd::prelude::*;
use vstd::std_specs::cmp::PartialEqSpec;

verus! {

/// Equivalence of keys is an equivalence relation.
pub proof fn law_equivalence<K: Ord>(a: K, b: K, c: K)
    requires
        total_order::<K>(),
    ensures
        key_eq(a, a),
        key_eq(a, b) ==> key_eq(b, a),
        key_eq(a, b) && key_eq(b, c) ==> key_eq(a, c),
{
    assert(key_lt(a, a) <==> !key_le(a, a));
    assert(key_lt(a, b) <==> !key_le(b, a));
    assert(key_lt(b, a) <==> !key_le(a, b));
    if key_eq(a, b) && key_eq(b, c) {
        assert(key_le(a, b) && key_le(b, c));
        assert(key_lt(b, c) <==> !key_le(c, b));
        assert(key_lt(c, b) <==> !key_le(b, c));
        assert(key_le(c, b) && key_le(b, a));
        assert(key_lt(a, c) <==> !key_le(c, a));
    }
}

/// What is looked for is found exactly if there is an entry with such a key.
pub proof fn law_lookup<K: Ord, V, Q: Probe<K>>(s: Seq<(K, V)>, key: Q)
    requires
        total_order::<K>(),
        lawful_probe(key),
        sorted(s),
    ensures
        lookup(s, key) is Some <==> exists|i: int|
            0 <= i < s.len() && is_sought((#[trigger] s[i]).0, key),
        forall|i: int|
            0 <= i < s.len() && is_sought((#[trigger] s[i]).0, key) ==> lookup(s, key) == Some(i),
        lookup(s, key) matches Some(at) ==> 0 <= at < s.len() && is_sought(s[at].0, key),
{
    assert forall|i: int|
        0 <= i < s.len() && is_sought((#[trigger] s[i]).0, key) implies lookup(s, key) == Some(
        i,
    ) by {
        lemma_lookup_found(s, key, i);
    }
    if lookup(s, key) is Some {
        assert(is_sought(s[lookup(s, key)->0].0, key));
    }
}

/// A key looks for itself and its equivalents.
pub proof fn law_lookup_key<K: Ord, V>(s: Seq<(K, V)>, key: K)
    requires
        total_order::<K>(),
        sorted(s),
    ensures
        lookup(s, key) is Some <==> exists|i: int|
            0 <= i < s.len() && key_eq((#[trigger] s[i]).0, key),
        forall|i: int|
            0 <= i < s.len() && key_eq((#[trigger] s[i]).0, key) ==> lookup(s, key) == Some(i),
        lookup(s, key) matches Some(at) ==> 0 <= at < s.len() && key_eq(s[at].0, key),
{
    lemma_key_probe(key);
    law_lookup(s, key);
    assert forall|i: int|
        0 <= i < s.len() && key_eq((#[trigger] s[i]).0, key) implies lookup(s, key) == Some(i) by {
        assert(is_sought(s[i].0, key));
    }
}

/// Equivalent keys find the same entry.
pub proof fn law_lookup_equivalent<K: Ord, V>(s: Seq<(K, V)>, a: K, b: K)
    requires
        total_order::<K>(),
        sorted(s),
        key_eq(a, b),
    ensures
        lookup(s, a) == lookup(s, b),
        rank(s, a) == rank(s, b),
{
    lemma_rank_key(s, a);
    lemma_key_probe(b);
    law_equivalence(a, b, a);
    let at = rank(s, a) as int;
    assert(key_le(a, b) && key_le(b, a));
    assert forall|i: int| 0 <= i < at implies is_before((#[trigger] s[i]).0, b) by {
        lemma_lt_le(s[i].0, a, b);
    }
    assert forall|i: int| at <= i < s.len() implies !is_before((#[trigger] s[i]).0, b) by {
        assert(key_le(a, s[i].0));
        assert(key_le(b, s[i].0));
    }
    lemma_rank(s, b, at);
    if at < s.len() {
        law_equivalence(s[at].0, a, b);
        law_equivalence(s[at].0, b, a);
    }
}

/// A key that is equivalent to one that is looked for is looked for too.
pub proof fn law_sought_equivalent<K: Ord, Q: Probe<K>>(a: K, b: K, probe: Q)
    requires
        total_order::<K>(),
        lawful_probe(probe),
        key_eq(a, b),
    ensures
        is_before(a, probe) <==> is_before(b, probe),
        is_sought(a, probe) <==> is_sought(b, probe),
        is_after(a, probe) <==> is_after(b, probe),
{
    law_equivalence(a, b, a);
    assert(key_le(a, b) && key_le(b, a));
    assert(is_before(a, probe) ==> is_before(b, probe));
    assert(is_before(b, probe) ==> is_before(a, probe));
    assert(is_after(a, probe) ==> is_after(b, probe));
    assert(is_after(b, probe) ==> is_after(a, probe));
}

/// What was inserted is found by whatever looks for its key, and nothing changes for the others.
pub proof fn law_insert_get<K: Ord, V, Q: Probe<K>>(s: Seq<(K, V)>, key: K, val: V, other: Q)
    requires
        total_order::<K>(),
        lawful_probe(other),
        sorted(s),
    ensures
        value_at(inserted(s, key, val), other) == if is_sought(key, other) {
            Some(val)
        } else {
            value_at(s, other)
        },
{
    let t = inserted(s, key, val);
    let at = rank(s, key) as int;
    lemma_rank_key(s, key);
    lemma_inserted_sorted(s, key, val);
    law_lookup(s, other);
    law_lookup(t, other);
    if lookup(s, key) is Some {
        law_sought_equivalent(s[at].0, key, other);
        assert(t[at].0 == s[at].0);
    } else {
        assert(t[at].0 == key);
    }
    if is_sought(key, other) {
        assert(is_sought(t[at].0, other));
    } else {
        let shift = if lookup(s, key) is Some { 0int } else { 1 };
        if let Some(i) = lookup(s, other) {
            let j = if i < at { i } else { i + shift };
            assert(t[j] == s[i]);
        }
        if let Some(j) = lookup(t, other) {
            let i = if j < at { j } else { j - shift };
            assert(j != at);
            assert(t[j] == s[i]);
        }
    }
}

/// Once removed, a key is found no more, and nothing changes for the others.
pub proof fn law_remove_get<K: Ord, V, Q: Probe<K>, R: Probe<K>>(
    s: Seq<(K, V)>,
    key: Q,
    other: R,
)
    requires
        total_order::<K>(),
        lawful_probe(key),
        lawful_probe(other),
        sorted(s),
    ensures
        value_at(removed(s, key), other) == match lookup(s, key) {
            Some(at) => if is_sought(s[at].0, other) {
                None
            } else {
                value_at(s, other)
            },
            None => value_at(s, other),
        },
{
    let t = removed(s, key);
    lemma_removed_sorted(s, key);
    law_lookup(s, key);
    law_lookup(s, other);
    law_lookup(t, other);
    if let Some(at) = lookup(s, key) {
        if let Some(j) = lookup(t, other) {
            let i = if j < at { j } else { j + 1 };
            assert(t[j] == s[i]);
            assert(is_sought(s[i].0, other));
            assert(lookup(s, other) == Some(i));
        }
        if let Some(i) = lookup(s, other) {
            if i != at {
                let j = if i < at { i } else { i - 1 };
                assert(t[j] == s[i]);
            }
        }
    }
}

/// Once removed, a key is not found any more.
pub proof fn law_removed_is_gone<K: Ord, V, Q: Probe<K>>(s: Seq<(K, V)>, key: Q)
    requires
        total_order::<K>(),
        lawful_probe(key),
        sorted(s),
    ensures
        lookup(removed(s, key), key) is None,
        removed(removed(s, key), key) == removed(s, key),
{
    law_remove_get(s, key, key);
    law_lookup(s, key);
}

/// Inserting and removing keep the entries sorted.
pub proof fn law_stays_sorted<K: Ord, V>(s: Seq<(K, V)>, key: K, val: V)
    requires
        total_order::<K>(),
        sorted(s),
    ensures
        sorted(inserted(s, key, val)),
        sorted(removed(s, key)),
{
    lemma_inserted_sorted(s, key, val);
    lemma_removed_sorted(s, key);
}

/// Inserting makes one entry more exactly if the key was not there, and removing makes one
/// fewer exactly if it was.
pub proof fn law_len<K: Ord, V>(s: Seq<(K, V)>, key: K, val: V)
    ensures
        inserted(s, key, val).len() == s.len() + if lookup(s, key) is None {
            1int
        } else {
            0
        },
        removed(s, key).len() == s.len() - if lookup(s, key) is None {
            0int
        } else {
            1
        },
{
    lemma_rank_len(s, key);
}

/// Removing a key that was just inserted for the first time leaves the entries as they were.
pub proof fn law_insert_remove<K: Ord, V>(s: Seq<(K, V)>, key: K, val: V)
    requires
        total_order::<K>(),
        sorted(s),
        lookup(s, key) is None,
    ensures
        removed(inserted(s, key, val), key) == s,
{
    let t = inserted(s, key, val);
    let at = rank(s, key) as int;
    lemma_rank_len(s, key);
    lemma_inserted_sorted(s, key, val);
    law_equivalence(key, key, key);
    lemma_key_probe(key);
    lemma_lookup_found(t, key, at);
    assert(t.remove(at) =~= s);
}

/// Removing an entry and inserting its key again with another value is giving it that value.
pub proof fn law_remove_insert<K: Ord, V>(s: Seq<(K, V)>, key: K, val: V)
    requires
        total_order::<K>(),
        sorted(s),
        lookup(s, key) is Some,
    ensures
        lookup(removed(s, key), s[lookup(s, key)->0].0) is None,
        inserted(removed(s, key), s[lookup(s, key)->0].0, val) == inserted(s, key, val),
{
    let at = lookup(s, key)->0;
    let k = s[at].0;
    let t = s.remove(at);
    lemma_rank_len(s, key);
    lemma_key_probe(k);
    assert forall|i: int| 0 <= i < at implies is_before((#[trigger] t[i]).0, k) by {
        assert(t[i] == s[i]);
    }
    assert forall|i: int| at <= i < t.len() implies is_after((#[trigger] t[i]).0, k) by {
        assert(t[i] == s[i + 1]);
        assert(key_lt(s[at].0, s[i + 1].0));
    }
    assert forall|i: int| at <= i < t.len() implies !is_before((#[trigger] t[i]).0, k) by {
        assert(is_after(t[i].0, k));
    }
    lemma_rank(t, k, at);
    if at < t.len() {
        assert(is_after(t[at].0, k));
    }
    assert(inserted(t, k, val) =~= inserted(s, key, val));
}

/// Of two values inserted at one key the second stays.
pub proof fn law_insert_twice<K: Ord, V>(s: Seq<(K, V)>, key: K, first: V, second: V)
    requires
        total_order::<K>(),
        sorted(s),
    ensures
        inserted(inserted(s, key, first), key, second) == inserted(s, key, second),
{
    let t = inserted(s, key, first);
    let at = rank(s, key) as int;
    lemma_rank_len(s, key);
    lemma_inserted_sorted(s, key, first);
    law_equivalence(key, key, key);
    lemma_key_probe(key);
    lemma_lookup_found(t, key, at);
    assert(inserted(t, key, second) =~= inserted(s, key, second));
}

/// What was inserted at a key is an entry, and so is what was there before at other keys.
proof fn lemma_inserted_contains<K: Ord, V>(s: Seq<(K, V)>, key: K, val: V, entry: (K, V))
    requires
        total_order::<K>(),
        sorted(s),
        lookup(s, key) is None,
    ensures
        inserted(s, key, val).contains(entry) <==> entry == (key, val) || s.contains(entry),
{
    let t = inserted(s, key, val);
    let at = rank(s, key) as int;
    lemma_rank_len(s, key);
    assert(t[at] == (key, val));
    if s.contains(entry) {
        let i = s.index_of(entry);
        let j = if i < at { i } else { i + 1 };
        assert(t[j] == entry);
    }
    if t.contains(entry) {
        let j = t.index_of(entry);
        if j != at {
            let i = if j < at { j } else { j - 1 };
            assert(s[i] == entry);
        }
    }
}

/// There is only one way to order a set of entries.
pub proof fn law_unique_order<K: Ord, V>(s: Seq<(K, V)>, t: Seq<(K, V)>)
    requires
        total_order::<K>(),
        sorted(s),
        sorted(t),
        forall|entry: (K, V)| #[trigger] s.contains(entry) <==> t.contains(entry),
    ensures
        s == t,
    decreases s.len(),
{
    if s.len() == 0 {
        if t.len() > 0 {
            assert(t.contains(t[0]));
            assert(s.contains(t[0]));
        }
        assert(s =~= t);
    } else {
        let (m, n) = (s.len() - 1, t.len() - 1);
        assert(s.contains(s[m]));
        let j = t.index_of(s[m]);
        assert(t[j] == s[m]);
        assert(t.contains(t[n]));
        assert(s.contains(t[n]));
        let i = s.index_of(t[n]);
        assert(s[i] == t[n]);
        if j < n {
            assert(key_lt(s[m].0, t[n].0));
            if i < m {
                assert(key_lt(t[n].0, s[m].0));
                assert(key_le(s[m].0, t[n].0));
            } else {
                assert(key_le(s[m].0, s[m].0));
            }
        }
        let (s1, t1) = (s.drop_last(), t.drop_last());
        assert forall|a: int, b: int|
            #![trigger s1[a], s1[b]]
            0 <= a < b < s1.len() implies key_lt(s1[a].0, s1[b].0) by {
            assert(s1[a] == s[a] && s1[b] == s[b]);
        }
        assert forall|a: int, b: int|
            #![trigger t1[a], t1[b]]
            0 <= a < b < t1.len() implies key_lt(t1[a].0, t1[b].0) by {
            assert(t1[a] == t[a] && t1[b] == t[b]);
        }
        assert forall|entry: (K, V)| #[trigger] s1.contains(entry) <==> t1.contains(entry) by {
            if s1.contains(entry) {
                let a = s1.index_of(entry);
                assert(s[a] == entry);
                assert(s.contains(entry));
                let b = t.index_of(entry);
                assert(t[b] == entry);
                assert(key_lt(s[a].0, s[m].0));
                if b == n {
                    assert(key_le(s[m].0, s[a].0));
                }
                assert(t1[b] == entry);
            }
            if t1.contains(entry) {
                let b = t1.index_of(entry);
                assert(t[b] == entry);
                assert(t.contains(entry));
                assert(s.contains(entry));
                let a = s.index_of(entry);
                assert(s[a] == entry);
                assert(key_lt(t[b].0, t[n].0));
                if a == m {
                    assert(key_le(t[n].0, t[b].0));
                }
                assert(s1[a] == entry);
            }
        }
        law_unique_order(s1, t1);
        assert(s =~= s1.push(s[m]));
        assert(t =~= t1.push(t[n]));
    }
}

/// It does not matter in which order two new keys are inserted.
pub proof fn law_insert_order<K: Ord, V>(s: Seq<(K, V)>, a: K, x: V, b: K, y: V)
    requires
        total_order::<K>(),
        sorted(s),
        lookup(s, a) is None,
        lookup(s, b) is None,
        !key_eq(a, b),
    ensures
        inserted(inserted(s, a, x), b, y) == inserted(inserted(s, b, y), a, x),
{
    law_equivalence(a, b, a);
    law_equivalence(b, a, b);
    lemma_inserted_sorted(s, a, x);
    lemma_inserted_sorted(s, b, y);
    let (sa, sb) = (inserted(s, a, x), inserted(s, b, y));
    lemma_key_probe(a);
    lemma_key_probe(b);
    law_insert_get(s, a, x, b);
    law_insert_get(s, b, y, a);
    lemma_inserted_sorted(sa, b, y);
    lemma_inserted_sorted(sb, a, x);
    let (sab, sba) = (inserted(sa, b, y), inserted(sb, a, x));
    assert forall|entry: (K, V)| #[trigger] sab.contains(entry) <==> sba.contains(entry) by {
        lemma_inserted_contains(s, a, x, entry);
        lemma_inserted_contains(s, b, y, entry);
        lemma_inserted_contains(sa, b, y, entry);
        lemma_inserted_contains(sb, a, x, entry);
    }
    law_unique_order(sab, sba);
}

/// The first key of a map comes before all others, and the last after all others.
pub proof fn law_first_last<K: Ord, V>(s: Seq<(K, V)>, i: int)
    requires
        total_order::<K>(),
        sorted(s),
        0 <= i < s.len(),
    ensures
        i > 0 ==> key_lt(s[0].0, s[i].0),
        i < s.len() - 1 ==> key_lt(s[i].0, s.last().0),
{
}

/// The value of the last pair whose key `key` looks for.
pub open spec fn last_value<K, V, Q: Probe<K>>(pairs: Seq<(K, V)>, key: Q) -> Option<V>
    decreases pairs.len(),
{
    if pairs.len() == 0 {
        None
    } else if is_sought(pairs.last().0, key) {
        Some(pairs.last().1)
    } else {
        last_value(pairs.drop_last(), key)
    }
}

/// After a number of pairs was inserted, what is found is the value of the last pair with the key
/// that is looked for, or the one that was there before if there is none.
pub proof fn law_extend_get<K: Ord, V, Q: Probe<K>>(
    s: Seq<(K, V)>,
    more: Seq<(K, V)>,
    key: Q,
)
    requires
        total_order::<K>(),
        lawful_probe(key),
        sorted(s),
    ensures
        sorted(extended(s, more)),
        value_at(extended(s, more), key) == match last_value(more, key) {
            Some(val) => Some(val),
            None => value_at(s, key),
        },
    decreases more.len(),
{
    if more.len() > 0 {
        let init = more.drop_last();
        law_extend_get(s, init, key);
        lemma_inserted_sorted(extended(s, init), more.last().0, more.last().1);
        law_insert_get(extended(s, init), more.last().0, more.last().1, key);
    }
}

/// An entry is in a range exactly if its key is, and the entries of a range are in order.
pub proof fn law_range<K: Ord, V, Q: Probe<K>>(
    s: Seq<(K, V)>,
    start: Bound<&Q>,
    end: Bound<&Q>,
)
    requires
        total_order::<K>(),
        lawful_bound::<K, Q>(start),
        lawful_bound::<K, Q>(end),
        sorted(s),
    ensures
        range_entries(s, start, end) == s.filter(|entry: (K, V)| in_range(entry.0, start, end)),
        sorted(range_entries(s, start, end)),
        forall|i: int|
            0 <= i < s.len() ==> (in_range((#[trigger] s[i]).0, start, end)
                <==> range_entries(s, start, end).contains(s[i])),
{
    lemma_range_entries(s, start, end);
    lemma_range_positions(s, start, end);
    let r = range_entries(s, start, end);
    let lo = range_start(s, start);
    assert forall|i: int, j: int|
        #![trigger r[i], r[j]]
        0 <= i < j < r.len() implies key_lt(r[i].0, r[j].0) by {
        assert(r[i] == s[lo + i] && r[j] == s[lo + j]);
    }
    assert forall|i: int| 0 <= i < s.len() implies (in_range(
        (#[trigger] s[i]).0,
        start,
        end,
    ) <==> r.contains(s[i])) by {
        if in_range(s[i].0, start, end) {
            assert(r[i - lo] == s[i]);
        }
        if r.contains(s[i]) {
            let j = r.index_of(s[i]);
            assert(r[j] == s[lo + j]);
            assert(in_range(s[lo + j].0, start, end));
        }
    }
}

/// A range without bounds takes in every entry.
pub proof fn law_range_full<K, V, Q: Probe<K>>(s: Seq<(K, V)>)
    ensures
        range_entries(s, Bound::<&Q>::Unbounded, Bound::<&Q>::Unbounded) == s,
{
    assert(s.subrange(0, s.len() as int) =~= s);
    if s.len() == 0 {
        assert(s =~= Seq::empty());
    }
}

/// The entries before what is looked for and those from it on are all entries.
pub proof fn law_range_split<K: Ord, V, Q: Probe<K>>(s: Seq<(K, V)>, key: &Q)
    requires
        total_order::<K>(),
        lawful_probe(*key),
        sorted(s),
    ensures
        range_entries(s, Bound::Unbounded, Bound::Excluded(key)) + range_entries(
            s,
            Bound::Included(key),
            Bound::Unbounded,
        ) == s,
{
    lemma_rank_len(s, *key);
    let at = rank(s, *key) as int;
    let a = range_entries(s, Bound::Unbounded, Bound::Excluded(key));
    let b = range_entries(s, Bound::Included(key), Bound::Unbounded);
    assert(a =~= s.take(at));
    assert(b =~= s.skip(at));
    assert(a + b =~= s);
}

/// A range that no key can be in takes in nothing.
pub proof fn law_range_empty<K: Ord, V, Q: Probe<K>>(
    s: Seq<(K, V)>,
    start: Bound<&Q>,
    end: Bound<&Q>,
)
    requires
        total_order::<K>(),
        lawful_bound::<K, Q>(start),
        lawful_bound::<K, Q>(end),
        sorted(s),
        forall|key: K| !#[trigger] in_range(key, start, end),
    ensures
        range_entries(s, start, end) == Seq::<(K, V)>::empty(),
{
    lemma_range_positions(s, start, end);
    if range_start(s, start) < range_stop(s, end) {
        assert(in_range(s[range_start(s, start)].0, start, end));
    }
}

/// The range ends before it starts, or at the same key without holding it.
pub open spec fn inverted<K: Ord>(start: Bound<&K>, end: Bound<&K>) -> bool {
    match (start, end) {
        (Bound::Included(a), Bound::Included(b)) => key_lt(*b, *a),
        (Bound::Included(a), Bound::Excluded(b)) => key_le(*b, *a),
        (Bound::Excluded(a), Bound::Included(b)) => key_le(*b, *a),
        (Bound::Excluded(a), Bound::Excluded(b)) => key_le(*b, *a),
        _ => false,
    }
}

/// A range that ends before it starts takes in nothing, and neither does one that starts and ends
/// at the same key without holding it.
pub proof fn law_range_inverted<K: Ord, V>(s: Seq<(K, V)>, start: Bound<&K>, end: Bound<&K>)
    requires
        total_order::<K>(),
        sorted(s),
        inverted(start, end),
    ensures
        range_entries(s, start, end) == Seq::<(K, V)>::empty(),
{
    let a = match start {
        Bound::Included(a) => a,
        Bound::Excluded(a) => a,
        Bound::Unbounded => arbitrary(),
    };
    let b = match end {
        Bound::Included(b) => b,
        Bound::Excluded(b) => b,
        Bound::Unbounded => arbitrary(),
    };
    lemma_key_probe(*a);
    lemma_key_probe(*b);
    assert forall|key: K| !#[trigger] in_range(key, start, end) by {
        if in_range(key, start, end) {
            assert(key_lt(key, *a) <==> !key_le(*a, key));
            assert(key_lt(*b, key) <==> !key_le(key, *b));
            assert(key_lt(*b, *a) <==> !key_le(*a, *b));
            assert(key_lt(key, *b) <==> !key_le(*b, key));
            assert(key_lt(*a, key) <==> !key_le(key, *a));
            assert(key_le(*a, key) && key_le(key, *b));
        }
    }
    law_range_empty(s, start, end);
}

/// Transforming a value into a fixed one is inserting it, transforming it into none is removing
/// it, and leaving it as it is changes nothing.
pub proof fn law_update<K: Ord, V, F: FnOnce(Option<V>) -> Option<V>>(
    s: Seq<(K, V)>,
    key: K,
    val: V,
    update: F,
    t: Seq<(K, V)>,
)
    requires
        update_outcome(s, key, update, t),
    ensures
        (forall|o: Option<V>, out: Option<V>| #[trigger]
            update.ensures((o,), out) ==> out == Some(val)) ==> t == inserted(s, key, val),
        (forall|o: Option<V>, out: Option<V>| #[trigger]
            update.ensures((o,), out) ==> out is None) ==> t == removed(s, key),
        (forall|o: Option<V>, out: Option<V>| #[trigger]
            update.ensures((o,), out) ==> out == o) ==> t == s,
{
    let out = choose|out: Option<V>|
        #[trigger] update.ensures((value_at(s, key),), out) && t == updated(s, key, out);
    assert(update.ensures((value_at(s, key),), out));
    if out == value_at(s, key) {
        assert(t =~= s);
    }
}

/// The entry that `key` looks for, if it is there.
pub open spec fn entry_for<K, V, Q: Probe<K>>(s: Seq<(K, V)>, key: Q) -> Option<(K, V)> {
    match lookup(s, key) {
        Some(at) => Some(s[at]),
        None => None,
    }
}

/// The key that an entry at `key` has: the one that is already there, or else `key` itself.
spec fn kept_key<K: Ord, V>(s: Seq<(K, V)>, key: K) -> K {
    match lookup(s, key) {
        Some(at) => s[at].0,
        None => key,
    }
}

/// No two of the pairs have equivalent keys.
pub open spec fn distinct_keys<K: Ord, V>(pairs: Seq<(K, V)>) -> bool {
    forall|i: int, j: int|
        #![trigger pairs[i], pairs[j]]
        0 <= i < pairs.len() && 0 <= j < pairs.len() && i != j ==> !key_eq(
            pairs[i].0,
            pairs[j].0,
        )
}

/// Maps in which every key finds the same entry have the same entries.
pub proof fn law_same_lookups<K: Ord, V>(s: Seq<(K, V)>, t: Seq<(K, V)>)
    requires
        total_order::<K>(),
        sorted(s),
        sorted(t),
        forall|key: K| #[trigger] entry_for(s, key) == entry_for(t, key),
    ensures
        s == t,
{
    assert forall|entry: (K, V)| #[trigger] s.contains(entry) <==> t.contains(entry) by {
        law_lookup_key(s, entry.0);
        law_lookup_key(t, entry.0);
        law_equivalence(entry.0, entry.0, entry.0);
        assert(entry_for(s, entry.0) == entry_for(t, entry.0));
        if s.contains(entry) {
            let i = s.index_of(entry);
            assert(s[i] == entry);
            assert(t[lookup(t, entry.0)->0] == entry);
        }
        if t.contains(entry) {
            let i = t.index_of(entry);
            assert(t[i] == entry);
            assert(s[lookup(s, entry.0)->0] == entry);
        }
    }
    law_unique_order(s, t);
}

/// Inserting any number of pairs keeps the entries sorted.
pub proof fn lemma_extended_sorted<K: Ord, V>(s: Seq<(K, V)>, more: Seq<(K, V)>)
    requires
        total_order::<K>(),
        sorted(s),
    ensures
        sorted(extended(s, more)),
    decreases more.len(),
{
    if more.len() > 0 {
        lemma_extended_sorted(s, more.drop_last());
        lemma_inserted_sorted(extended(s, more.drop_last()), more.last().0, more.last().1);
    }
}

proof fn lemma_inserted_entry_for<K: Ord, V>(s: Seq<(K, V)>, key: K, val: V, other: K)
    requires
        total_order::<K>(),
        sorted(s),
    ensures
        entry_for(inserted(s, key, val), other) == if key_eq(key, other) {
            Some((kept_key(s, key), val))
        } else {
            entry_for(s, other)
        },
{
    let t = inserted(s, key, val);
    let at = rank(s, key) as int;
    lemma_rank_key(s, key);
    lemma_inserted_sorted(s, key, val);
    law_lookup_key(s, key);
    law_lookup_key(s, other);
    law_lookup_key(t, other);
    law_equivalence(key, other, other);
    law_equivalence(key, key, key);
    law_equivalence(t[at].0, key, other);
    law_equivalence(key, t[at].0, other);
    law_equivalence(t[at].0, key, key);
    assert(t[at] == (kept_key(s, key), val));
    assert(key_eq(t[at].0, key));
    if !key_eq(key, other) {
        assert(!key_eq(t[at].0, other));
        let shift = if lookup(s, key) is Some { 0int } else { 1 };
        if let Some(i) = lookup(s, other) {
            let j = if i < at { i } else { i + shift };
            assert(t[j] == s[i] || i == at);
            if i == at && shift == 0 {
                assert(key_eq(s[at].0, other));
            }
            assert(t[j] == s[i]);
        }
        if let Some(j) = lookup(t, other) {
            let i = if j < at { j } else { j - shift };
            assert(j != at);
            assert(t[j] == s[i]);
        }
    }
}

/// What is found after pairs with distinct keys were inserted, one after the other.
proof fn lemma_extended_entry_for<K: Ord, V>(s: Seq<(K, V)>, more: Seq<(K, V)>, key: K)
    requires
        total_order::<K>(),
        sorted(s),
        distinct_keys(more),
    ensures
        forall|i: int|
            0 <= i < more.len() && key_eq((#[trigger] more[i]).0, key) ==> entry_for(
                extended(s, more),
                key,
            ) == Some((kept_key(s, more[i].0), more[i].1)),
        (forall|i: int| 0 <= i < more.len() ==> !key_eq((#[trigger] more[i]).0, key))
            ==> entry_for(extended(s, more), key) == entry_for(s, key),
    decreases more.len(),
{
    if more.len() > 0 {
        let init = more.drop_last();
        let n = init.len() as int;
        let last = more[n];
        let t = extended(s, init);
        assert forall|i: int, j: int|
            #![trigger init[i], init[j]]
            0 <= i < init.len() && 0 <= j < init.len() && i != j implies !key_eq(
            init[i].0,
            init[j].0,
        ) by {
            assert(init[i] == more[i] && init[j] == more[j]);
        }
        lemma_extended_sorted(s, init);
        lemma_extended_entry_for(s, init, key);
        lemma_inserted_entry_for(t, last.0, last.1, key);
        if key_eq(last.0, key) {
            assert forall|i: int| 0 <= i < init.len() implies !key_eq(
                (#[trigger] init[i]).0,
                last.0,
            ) by {
                assert(init[i] == more[i]);
            }
            lemma_extended_entry_for(s, init, last.0);
            assert(entry_for(t, last.0) == entry_for(s, last.0));
            assert(kept_key(t, last.0) == kept_key(s, last.0));
            assert forall|i: int| 0 <= i < more.len() && key_eq((#[trigger] more[i]).0, key)
                implies i == n by {
                law_equivalence(last.0, key, more[i].0);
                law_equivalence(more[i].0, key, last.0);
                law_equivalence(key, more[i].0, last.0);
                if i < n {
                    assert(!key_eq(more[i].0, more[n].0));
                    law_equivalence(key, last.0, last.0);
                    law_equivalence(last.0, key, key);
                }
            }
        } else {
            assert forall|i: int|
                0 <= i < more.len() && key_eq((#[trigger] more[i]).0, key) implies entry_for(
                extended(s, more),
                key,
            ) == Some((kept_key(s, more[i].0), more[i].1)) by {
                assert(i < n);
                assert(init[i] == more[i]);
            }
            if forall|i: int| 0 <= i < more.len() ==> !key_eq((#[trigger] more[i]).0, key) {
                assert forall|i: int| 0 <= i < init.len() implies !key_eq(
                    (#[trigger] init[i]).0,
                    key,
                ) by {
                    assert(init[i] == more[i]);
                }
            }
        }
    }
}

/// It does not matter in which order pairs with distinct keys are inserted.
pub proof fn law_extend_order<K: Ord, V>(s: Seq<(K, V)>, a: Seq<(K, V)>, b: Seq<(K, V)>)
    requires
        total_order::<K>(),
        sorted(s),
        distinct_keys(a),
        distinct_keys(b),
        forall|pair: (K, V)| #[trigger] a.contains(pair) <==> b.contains(pair),
    ensures
        extended(s, a) == extended(s, b),
{
    let (sa, sb) = (extended(s, a), extended(s, b));
    assert forall|key: K| #[trigger] entry_for(sa, key) == entry_for(sb, key) by {
        lemma_extended_entry_for(s, a, key);
        lemma_extended_entry_for(s, b, key);
        if exists|i: int| 0 <= i < a.len() && key_eq((#[trigger] a[i]).0, key) {
            let i = choose|i: int| 0 <= i < a.len() && key_eq((#[trigger] a[i]).0, key);
            assert(a.contains(a[i]));
            let j = b.index_of(a[i]);
            assert(b[j] == a[i]);
        } else {
            assert forall|j: int| 0 <= j < b.len() implies !key_eq((#[trigger] b[j]).0, key) by {
                assert(b.contains(b[j]));
                assert(a.contains(b[j]));
                let i = a.index_of(b[j]);
                assert(a[i] == b[j]);
            }
        }
    }
    lemma_extended_sorted(s, a);
    lemma_extended_sorted(s, b);
    law_same_lookups(sa, sb);
}

/// Where the pairs of `a` are found in `b`: further back for every further pair, so that at least
/// `k - i` of them lie between those found for pairs `i` and `k`.
proof fn lemma_found_apart<K: Ord, V>(a: Seq<(K, V)>, b: Seq<(K, V)>, i: int, k: int)
    requires
        total_order::<K>(),
        sorted(a),
        sorted(b),
        forall|j: int| 0 <= j < a.len() ==> lookup(b, (#[trigger] a[j]).0) is Some,
        0 <= i <= k < a.len(),
    ensures
        lookup(b, a[i].0)->0 + (k - i) <= lookup(b, a[k].0)->0,
    decreases k - i,
{
    if i < k {
        lemma_found_apart(a, b, i, k - 1);
        law_lookup_key(b, a[k - 1].0);
        law_lookup_key(b, a[k].0);
        let p = lookup(b, a[k - 1].0)->0;
        let q = lookup(b, a[k].0)->0;
        law_equivalence(b[p].0, a[k - 1].0, a[k - 1].0);
        law_equivalence(b[q].0, a[k].0, a[k].0);
        assert(key_lt(a[k - 1].0, a[k].0));
        lemma_le_lt(b[p].0, a[k - 1].0, a[k].0);
        lemma_lt_le(b[p].0, a[k].0, b[q].0);
        if q < p {
            assert(key_lt(b[q].0, b[p].0));
            assert(key_le(b[p].0, b[q].0));
        }
        if q == p {
            assert(key_le(b[q].0, b[p].0));
        }
    }
}

/// Maps are equal exactly if they have the same length and every pair of the one is found in the
/// other, as long as keys of the two are equal exactly if they are equivalent. Nothing but the
/// entries matters: neither the stores, nor the shapes of the trees, nor how they came about.
pub proof fn law_equal<K: Ord, V: PartialEq>(a: Seq<(K, V)>, b: Seq<(K, V)>)
    requires
        total_order::<K>(),
        sorted(a),
        sorted(b),
        forall|i: int, j: int|
            #![trigger a[i], b[j]]
            0 <= i < a.len() && 0 <= j < b.len() ==> (a[i].0.eq_spec(&b[j].0) <==> key_eq(
                a[i].0,
                b[j].0,
            )),
    ensures
        same_entries(a, b) <==> {
            &&& a.len() == b.len()
            &&& forall|i: int|
                #![trigger a[i]]
                0 <= i < a.len() ==> (value_at(b, a[i].0) matches Some(val) && a[i].1.eq_spec(
                    &val,
                ))
        },
{
    if same_entries(a, b) {
        assert forall|i: int| #![trigger a[i]] 0 <= i < a.len() implies (value_at(
            b,
            a[i].0,
        ) matches Some(val) && a[i].1.eq_spec(&val)) by {
            assert(a[i].0.eq_spec(&b[i].0) && a[i].1.eq_spec(&b[i].1));
            law_equivalence(a[i].0, b[i].0, b[i].0);
            law_lookup_key(b, a[i].0);
        }
    }
    if a.len() == b.len() && forall|i: int|
        #![trigger a[i]]
        0 <= i < a.len() ==> (value_at(b, a[i].0) matches Some(val) && a[i].1.eq_spec(&val)) {
        let n = a.len() as int;
        assert forall|i: int|
            #![trigger a[i], b[i]]
            0 <= i < n implies a[i].0.eq_spec(&b[i].0) && a[i].1.eq_spec(&b[i].1) by {
            lemma_found_apart(a, b, 0, i);
            lemma_found_apart(a, b, i, n - 1);
            law_lookup_key(b, a[0].0);
            law_lookup_key(b, a[i].0);
            law_lookup_key(b, a[n - 1].0);
            assert(lookup(b, a[i].0) == Some(i));
            law_equivalence(b[i].0, a[i].0, a[i].0);
        }
    }
}

/// The same of two maps, with what is found on the left of the comparison too where that makes no
/// difference.
pub proof fn law_equal_maps<'store, K: Ord, V: PartialEq>(
    a: BTreeMap<'store, K, V>,
    b: BTreeMap<'store, K, V>,
)
    requires
        total_order::<K>(),
        a.wf(),
        b.wf(),
        forall|i: int, j: int|
            #![trigger a@[i], b@[j]]
            0 <= i < a@.len() && 0 <= j < b@.len() ==> (a@[i].0.eq_spec(&b@[j].0) <==> key_eq(
                a@[i].0,
                b@[j].0,
            )),
    ensures
        a.eq_spec(&b) <==> {
            &&& a@.len() == b@.len()
            &&& forall|i: int|
                #![trigger a@[i]]
                0 <= i < a@.len() ==> (value_at(b@, a@[i].0) matches Some(val)
                    && a@[i].1.eq_spec(&val))
        },
        (forall|x: V, y: V| #[trigger] x.eq_spec(&y) ==> y.eq_spec(&x)) ==> (a.eq_spec(&b) <==> {
            &&& a@.len() == b@.len()
            &&& forall|i: int|
                #![trigger a@[i]]
                0 <= i < a@.len() ==> (value_at(b@, a@[i].0) matches Some(val) && val.eq_spec(
                    &a@[i].1,
                ))
        }),
{
    a.lemma_sorted();
    b.lemma_sorted();
    law_equal(a@, b@);
}

} // verus!
