//! What calls of a map's methods do, said of its entries one by one.

use crate::laws::{law_lookup, law_lookup_key, lemma_extended_sorted};
use crate::map::BTreeMap;
use crate::model::{
    extended, inserted, lemma_inserted_sorted, lemma_rank_len, rank, updated, value_at,
};
use crate::node::{sorted, Node};
use crate::order::{is_sought, key_eq, key_le, key_lt, key_model, lawful_probe, total_order, Probe};
use crate::path::{lemma_replaced, node_at, on_the_way};
use crate::range::{in_range, lawful_bound, Bound, Range, RangeKeys, RangeValues};
use vstd::prelude::*;
use vstd::std_specs::cmp::PartialEqSpec;

verus! {

/// No entry has a key that is equivalent to `key`.
pub open spec fn lacks_key<K: Ord, V>(s: Seq<(K, V)>, key: K) -> bool {
    forall|i: int| 0 <= i < s.len() ==> !key_eq((#[trigger] s[i]).0, key)
}

/// No entry has a key that `key` looks for.
pub open spec fn lacks_sought<K, V, Q: Probe<K>>(s: Seq<(K, V)>, key: Q) -> bool {
    forall|i: int| 0 <= i < s.len() ==> !is_sought((#[trigger] s[i]).0, key)
}

/// `t` is `s` with one entry more.
pub open spec fn one_more<K, V>(s: Seq<(K, V)>, t: Seq<(K, V)>, entry: (K, V)) -> bool {
    exists|at: int| 0 <= at <= s.len() && t == #[trigger] s.insert(at, entry)
}

/// Looking a key up finds the entry with an equivalent key, and nothing if there is none.
pub proof fn law_lookups<'store, K: Ord, V, Q: Probe<K>>(
    map: BTreeMap<'store, K, V>,
    key: Q,
    there: bool,
    stored: Option<&K>,
    val: Option<&V>,
    entry: Option<(&K, &V)>,
)
    requires
        total_order::<K>(),
        lawful_probe(key),
        map.wf(),
        call_ensures(BTreeMap::<'store, K, V>::contains_key::<Q>, (&map, &key), there),
        call_ensures(BTreeMap::<'store, K, V>::get_key::<Q>, (&map, &key), stored),
        call_ensures(BTreeMap::<'store, K, V>::get::<Q>, (&map, &key), val),
        call_ensures(BTreeMap::<'store, K, V>::get_key_value::<Q>, (&map, &key), entry),
    ensures
        forall|i: int|
            0 <= i < map@.len() && is_sought((#[trigger] map@[i]).0, key) ==> {
                &&& there
                &&& stored == Some(&map@[i].0)
                &&& val == Some(&map@[i].1)
                &&& entry == Some((&map@[i].0, &map@[i].1))
            },
        lacks_sought(map@, key) ==> !there && stored is None && val is None && entry is None,
{
    map.lemma_sorted();
    law_lookup(map@, key);
}

/// Inserting gives the entry with an equivalent key another value, and hands out the one that it
/// had. If there is none, it makes one entry more. Nothing else changes.
pub proof fn law_insert_effect<'a, 'store, K: Ord + Clone, V>(
    map: &'a mut BTreeMap<'store, K, V>,
    key: K,
    val: V,
    r: Option<V>,
)
    requires
        key_model::<K>(),
        map.wf(),
        call_ensures(BTreeMap::<'store, K, V>::insert, (map, key, val), r),
    ensures
        sorted(final(map)@),
        forall|i: int|
            0 <= i < old(map)@.len() && key_eq((#[trigger] old(map)@[i]).0, key) ==> {
                &&& r == Some(old(map)@[i].1)
                &&& final(map)@ == old(map)@.update(i, (old(map)@[i].0, val))
            },
        lacks_key(old(map)@, key) ==> r is None && one_more(
            old(map)@,
            final(map)@,
            (key, val),
        ),
{
    map.lemma_sorted();
    final(map).lemma_sorted();
    law_lookup_key(map@, key);
    lemma_rank_len(map@, key);
}

/// What becomes of the tree when a leaf changes: its entries are others, the nodes on the way to it
/// keep their keys, and all other nodes stay as they are.
pub open spec fn only_leaf_changes<K, V>(
    a: Option<Box<Node<K, V>>>,
    b: Option<Box<Node<K, V>>>,
    path: Seq<usize>,
    q: Seq<usize>,
) -> bool {
    &&& a matches Some(a)
    &&& b matches Some(b)
    &&& !on_the_way(q, path) ==> node_at(*b, q) == node_at(*a, q)
    &&& on_the_way(q, path) && q.len() < path.len() ==> match (node_at(*a, q), node_at(*b, q)) {
        (Some(Node::Internal { keys: xk, edges: xe }), Some(
            Node::Internal { keys: yk, edges: ye },
        )) => xk@ == yk@ && xe@.len() == ye@.len(),
        _ => false,
    }
}

/// Where the leaf that a new key belongs in has room, nothing but that leaf changes.
pub proof fn law_insert_with_room<'a, 'store, K: Ord + Clone, V>(
    map: &'a mut BTreeMap<'store, K, V>,
    key: K,
    val: V,
    r: Option<V>,
    path: Seq<usize>,
    i: int,
    q: Seq<usize>,
)
    requires
        key_model::<K>(),
        map.wf(),
        lacks_key(map@, key),
        map.has_room(path, i, key),
        call_ensures(BTreeMap::<'store, K, V>::insert, (map, key, val), r),
    ensures
        final(map).leads_to_leaf(path),
        final(map).leaf(path) == old(map).leaf(path).insert(i, (key, val)),
        only_leaf_changes(old(map).tree(), final(map).tree(), path, q),
{
    map.lemma_sorted();
    law_lookup_key(map@, key);
    let (a, b) = (map.tree()->0, final(map).tree()->0);
    assert(map.differs_in_leaf(*final(map), path, map.leaf(path).insert(i, (key, val))));
    lemma_replaced(*a, *b, path, map.leaf(path).insert(i, (key, val)), q);
}

/// Where a leaf can do without the entry that is removed, nothing but that leaf changes. In
/// particular the keys above it stay.
pub proof fn law_remove_with_spare<'a, 'store, K: Ord + Clone, V, Q: Probe<K>>(
    map: &'a mut BTreeMap<'store, K, V>,
    key: Q,
    r: Option<(K, V)>,
    path: Seq<usize>,
    i: int,
    q: Seq<usize>,
)
    requires
        key_model::<K>(),
        lawful_probe(key),
        map.wf(),
        map.can_spare(path, i),
        is_sought(map.leaf(path)[i].0, key),
        call_ensures(BTreeMap::<'store, K, V>::remove_key_value::<Q>, (map, &key), r),
    ensures
        final(map).leads_to_leaf(path),
        final(map).leaf(path) == old(map).leaf(path).remove(i),
        only_leaf_changes(old(map).tree(), final(map).tree(), path, q),
{
    let (a, b) = (map.tree()->0, final(map).tree()->0);
    assert(map.differs_in_leaf(*final(map), path, map.leaf(path).remove(i)));
    lemma_replaced(*a, *b, path, map.leaf(path).remove(i), q);
}

/// Inserting unless there is a value already does the same, and the value that is there can be
/// changed.
pub proof fn law_get_or_insert_effect<'a, 'store, K: Ord + Clone, V>(
    map: &'a mut BTreeMap<'store, K, V>,
    key: K,
    val: V,
    r: &'a mut V,
)
    requires
        key_model::<K>(),
        map.wf(),
        call_ensures(BTreeMap::<'store, K, V>::get_or_insert, (map, key, val), r),
    ensures
        sorted(final(map)@),
        forall|i: int|
            0 <= i < old(map)@.len() && key_eq((#[trigger] old(map)@[i]).0, key) ==> {
                &&& *old(r) == old(map)@[i].1
                &&& final(map)@ == old(map)@.update(i, (old(map)@[i].0, *final(r)))
            },
        lacks_key(old(map)@, key) ==> *old(r) == val && exists|k: K|
            #![trigger one_more(old(map)@, final(map)@, (k, *final(r)))]
            key_eq(key, k) && one_more(old(map)@, final(map)@, (k, *final(r))),
{
    map.lemma_sorted();
    final(map).lemma_sorted();
    law_lookup_key(map@, key);
    lemma_rank_len(map@, key);
    if lacks_key(map@, key) {
        let k = choose|k: K|
            cloned(key, k) && (map@.len() == 0 ==> k == key) && final(map)@
                == #[trigger] map@.insert(rank(map@, key) as int, (k, *final(r)));
        crate::laws::law_equivalence(key, key, key);
        assert(cloned(key, k));
        assert(key_eq(key, k));
        assert(one_more(map@, final(map)@, (k, *final(r))));
    }
}

/// Removing takes out the entry with a key that is looked for, and hands it out. If there is none,
/// nothing happens.
pub proof fn law_remove_effect<'a, 'store, K: Ord + Clone, V, Q: Probe<K>>(
    map: &'a mut BTreeMap<'store, K, V>,
    key: Q,
    r: Option<(K, V)>,
)
    requires
        key_model::<K>(),
        lawful_probe(key),
        map.wf(),
        call_ensures(BTreeMap::<'store, K, V>::remove_key_value::<Q>, (map, &key), r),
    ensures
        forall|i: int|
            0 <= i < old(map)@.len() && is_sought((#[trigger] old(map)@[i]).0, key) ==> {
                &&& r == Some(old(map)@[i])
                &&& final(map)@ == old(map)@.remove(i)
            },
        lacks_sought(old(map)@, key) ==> r is None && final(map)@ == old(map)@,
{
    map.lemma_sorted();
    law_lookup(map@, key);
}

/// The same of removing by value.
pub proof fn law_remove_value_effect<'a, 'store, K: Ord + Clone, V, Q: Probe<K>>(
    map: &'a mut BTreeMap<'store, K, V>,
    key: Q,
    r: Option<V>,
)
    requires
        key_model::<K>(),
        lawful_probe(key),
        map.wf(),
        call_ensures(BTreeMap::<'store, K, V>::remove::<Q>, (map, &key), r),
    ensures
        forall|i: int|
            0 <= i < old(map)@.len() && is_sought((#[trigger] old(map)@[i]).0, key) ==> {
                &&& r == Some(old(map)@[i].1)
                &&& final(map)@ == old(map)@.remove(i)
            },
        lacks_sought(old(map)@, key) ==> r is None && final(map)@ == old(map)@,
{
    map.lemma_sorted();
    law_lookup(map@, key);
}

/// Transforming the value at a key hands the function the value that is there, or none, and puts
/// what it returns in the place of that value. Nothing else changes.
pub proof fn law_update_effect<
    'a,
    'store,
    K: Ord + Clone,
    V,
    R,
    F: FnOnce(Option<V>) -> (Option<V>, R),
>(map: &'a mut BTreeMap<'store, K, V>, key: K, update: F, r: R)
    requires
        key_model::<K>(),
        map.wf(),
        call_ensures(BTreeMap::<'store, K, V>::update_and_return, (map, key, update), r),
    ensures
        sorted(final(map)@),
        forall|i: int|
            0 <= i < old(map)@.len() && key_eq((#[trigger] old(map)@[i]).0, key) ==> exists|
                out: Option<V>,
            |
                #[trigger] update.ensures((Some(old(map)@[i].1),), (out, r)) && final(map)@
                    == match out {
                    Some(val) => old(map)@.update(i, (old(map)@[i].0, val)),
                    None => old(map)@.remove(i),
                },
        lacks_key(old(map)@, key) ==> exists|out: Option<V>|
            #[trigger] update.ensures((None,), (out, r)) && match out {
                Some(val) => one_more(old(map)@, final(map)@, (key, val)),
                None => final(map)@ == old(map)@,
            },
{
    map.lemma_sorted();
    final(map).lemma_sorted();
    law_lookup_key(map@, key);
    lemma_rank_len(map@, key);
    let out = choose|out: Option<V>|
        #[trigger] update.ensures((value_at(map@, key),), (out, r)) && final(map)@ == updated(
            map@,
            key,
            out,
        );
    assert(update.ensures((value_at(map@, key),), (out, r)));
}

/// The same of transforming without a result.
pub proof fn law_plain_update_effect<
    'a,
    'store,
    K: Ord + Clone,
    V,
    F: FnOnce(Option<V>) -> Option<V>,
>(map: &'a mut BTreeMap<'store, K, V>, key: K, update: F)
    requires
        key_model::<K>(),
        map.wf(),
        call_ensures(BTreeMap::<'store, K, V>::update, (map, key, update), ()),
    ensures
        sorted(final(map)@),
        forall|i: int|
            0 <= i < old(map)@.len() && key_eq((#[trigger] old(map)@[i]).0, key) ==> exists|
                out: Option<V>,
            |
                #[trigger] update.ensures((Some(old(map)@[i].1),), out) && final(map)@
                    == match out {
                    Some(val) => old(map)@.update(i, (old(map)@[i].0, val)),
                    None => old(map)@.remove(i),
                },
        lacks_key(old(map)@, key) ==> exists|out: Option<V>|
            #[trigger] update.ensures((None,), out) && match out {
                Some(val) => one_more(old(map)@, final(map)@, (key, val)),
                None => final(map)@ == old(map)@,
            },
{
    map.lemma_sorted();
    final(map).lemma_sorted();
    law_lookup_key(map@, key);
    lemma_rank_len(map@, key);
    let out = choose|out: Option<V>|
        #[trigger] update.ensures((value_at(map@, key),), out) && final(map)@ == updated(
            map@,
            key,
            out,
        );
    assert(update.ensures((value_at(map@, key),), out));
}

/// `t` is what `s` becomes when a pair is inserted.
pub open spec fn takes_in<K: Ord, V>(s: Seq<(K, V)>, pair: (K, V), t: Seq<(K, V)>) -> bool {
    &&& sorted(t)
    &&& forall|i: int|
        0 <= i < s.len() && key_eq((#[trigger] s[i]).0, pair.0) ==> t == s.update(
            i,
            (s[i].0, pair.1),
        )
    &&& lacks_key(s, pair.0) ==> one_more(s, t, pair)
}

/// Extending a map is inserting the pairs one after the other.
pub proof fn law_extend_effect<'a, 'store, K: Ord + Clone, V>(
    map: &'a mut BTreeMap<'store, K, V>,
    pairs: Vec<(K, V)>,
)
    requires
        key_model::<K>(),
        map.wf(),
        call_ensures(BTreeMap::<'store, K, V>::extend, (map, pairs), ()),
    ensures
        exists|states: Seq<Seq<(K, V)>>|
            #![trigger states.len()]
            {
                &&& states.len() == pairs@.len() + 1
                &&& states[0] == old(map)@
                &&& states.last() == final(map)@
                &&& forall|i: int|
                    0 <= i < pairs@.len() ==> takes_in(
                        states[i],
                        #[trigger] pairs@[i],
                        states[i + 1],
                    )
            },
{
    map.lemma_sorted();
    let s = map@;
    let more = pairs@;
    let states = Seq::new(more.len() + 1, |i: int| extended(s, more.take(i)));
    assert(more.take(0) =~= Seq::empty());
    assert(more.take(more.len() as int) =~= more);
    assert forall|i: int| 0 <= i < more.len() implies takes_in(
        states[i],
        #[trigger] more[i],
        states[i + 1],
    ) by {
        let (before, after) = (states[i], states[i + 1]);
        let (key, val) = more[i];
        assert(more.take(i + 1).drop_last() =~= more.take(i));
        assert(after == inserted(before, key, val));
        lemma_extended_sorted(s, more.take(i));
        lemma_inserted_sorted(before, key, val);
        law_lookup_key(before, key);
        lemma_rank_len(before, key);
    }
    assert(states.len() == more.len() + 1);
}

/// Maps are equal exactly if they have as many entries and these are equal one by one, key to key
/// and value to value.
pub proof fn law_equal_entries<'store, K: PartialEq, V: PartialEq>(
    a: BTreeMap<'store, K, V>,
    b: BTreeMap<'store, K, V>,
)
    ensures
        a.eq_spec(&b) <==> {
            &&& a@.len() == b@.len()
            &&& forall|i: int|
                #![trigger a@[i]]
                0 <= i < a@.len() ==> a@[i].0.eq_spec(&b@[i].0) && a@[i].1.eq_spec(&b@[i].1)
        },
{
}

/// A range hands out the entries of the map whose keys are in it, in order, and so do the ranges of
/// keys and values.
pub proof fn law_range_effect<'a, 'store, K: Ord, V, Q: Probe<K>>(
    map: &'a BTreeMap<'store, K, V>,
    start: Bound<&'a Q>,
    end: Bound<&'a Q>,
    range: Range<'a, K, V>,
    keys: RangeKeys<'a, K, V>,
    values: RangeValues<'a, K, V>,
)
    requires
        total_order::<K>(),
        lawful_bound::<K, Q>(start),
        lawful_bound::<K, Q>(end),
        map.wf(),
        call_ensures(BTreeMap::<'store, K, V>::range::<Q>, (map, start, end), range),
        call_ensures(BTreeMap::<'store, K, V>::range_keys::<Q>, (map, start, end), keys),
        call_ensures(BTreeMap::<'store, K, V>::range_values::<Q>, (map, start, end), values),
    ensures
        range@ == map@.filter(|entry: (K, V)| in_range(entry.0, start, end)),
        keys@ == range@.map_values(|entry: (K, V)| entry.0),
        values@ == range@.map_values(|entry: (K, V)| entry.1),
{
}

/// The key is beyond the start of the range.
pub open spec fn from_start<K: Ord>(start: Bound<&K>, key: K) -> bool {
    match start {
        Bound::Included(a) => key_le(*a, key),
        Bound::Excluded(a) => key_lt(*a, key),
        Bound::Unbounded => true,
    }
}

/// The key is not beyond the end of the range.
pub open spec fn to_end<K: Ord>(end: Bound<&K>, key: K) -> bool {
    match end {
        Bound::Included(b) => key_le(key, *b),
        Bound::Excluded(b) => key_lt(key, *b),
        Bound::Unbounded => true,
    }
}

/// Between two keys, a range takes in exactly the keys between them, with a key at its end if that
/// is included.
pub proof fn law_in_range<K: Ord>(start: Bound<&K>, end: Bound<&K>, key: K)
    requires
        total_order::<K>(),
    ensures
        in_range(key, start, end) <==> from_start(start, key) && to_end(end, key),
{
    match start {
        Bound::Included(a) => {
            assert(key_lt(key, *a) <==> !key_le(*a, key));
        },
        Bound::Excluded(a) => {
            assert(key_lt(*a, key) <==> !key_le(key, *a));
            assert(key_lt(key, *a) <==> !key_le(*a, key));
        },
        Bound::Unbounded => {},
    }
    match end {
        Bound::Included(b) => {
            assert(key_lt(*b, key) <==> !key_le(key, *b));
            assert(key_lt(key, *b) <==> !key_le(*b, key));
        },
        Bound::Excluded(b) => {
            assert(key_lt(key, *b) <==> !key_le(*b, key));
        },
        Bound::Unbounded => {},
    }
}

} // verus!
