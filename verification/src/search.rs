//! Looking a key up: the way down to the leaf where it is or where it belongs.

use crate::node::{
    all_ge, all_lt, concat, lemma_concat_all_ge, lemma_concat_all_lt, lemma_concat_at, lemma_le_lt,
    lemma_lt_le, separated, sorted, sorted_keys, within, Node,
};
use crate::order::{
    is_after, is_before, is_sought, key_eq, key_le, key_lt, lawful_probe, lemma_after, lemma_before,
    lemma_key_probe, total_order, Probe, Relation,
};
use crate::path::{leaf_entries, leaf_start, valid_path};
use vstd::prelude::*;

verus! {

/// What `key` looks for belongs at place `idx` of the leaf that `path` leads to: the keys on the
/// way say so, and the entries of the leaf before that place come before it, the others after it.
pub open spec fn fits<K: Ord, V, Q: Probe<K>>(
    node: Node<K, V>,
    path: Seq<usize>,
    idx: int,
    key: Q,
) -> bool
    decreases node,
{
    match node {
        Node::Leaf { entries } => {
            &&& forall|i: int|
                0 <= i < idx && i < entries@.len() ==> is_before((#[trigger] entries@[i]).0, key)
            &&& forall|i: int|
                idx <= i < entries@.len() ==> is_after((#[trigger] entries@[i]).0, key)
        },
        Node::Internal { keys, edges } => {
            &&& path.len() > 0
            &&& path[0] < edges@.len()
            &&& forall|j: int|
                0 <= j < path[0] && j < keys@.len() ==> !is_after(#[trigger] keys@[j], key)
            &&& forall|j: int| path[0] <= j < keys@.len() ==> is_after(#[trigger] keys@[j], key)
            &&& fits(*edges@[path[0] as int], path.drop_first(), idx, key)
        },
    }
}

/// A key belongs where an equivalent key belongs.
pub proof fn lemma_fits_equivalent<K: Ord, V>(
    node: Node<K, V>,
    path: Seq<usize>,
    idx: int,
    key: K,
    other: K,
)
    requires
        total_order::<K>(),
        key_eq(key, other),
        fits(node, path, idx, key),
    ensures
        fits(node, path, idx, other),
    decreases node,
{
    lemma_key_probe(key);
    lemma_key_probe(other);
    assert(key_lt(key, other) <==> !key_le(other, key));
    assert(key_le(key, other) && key_le(other, key));
    match node {
        Node::Leaf { entries } => {
            assert forall|i: int| 0 <= i < idx && i < entries@.len() implies is_before(
                (#[trigger] entries@[i]).0,
                other,
            ) by {
                assert(is_before(entries@[i].0, key));
                lemma_lt_le(entries@[i].0, key, other);
            }
            assert forall|i: int| idx <= i < entries@.len() implies is_after(
                (#[trigger] entries@[i]).0,
                other,
            ) by {
                assert(is_after(entries@[i].0, key));
                lemma_le_lt(other, key, entries@[i].0);
            }
        },
        Node::Internal { keys, edges } => {
            assert forall|j: int| 0 <= j < path[0] && j < keys@.len() implies !is_after(
                #[trigger] keys@[j],
                other,
            ) by {
                assert(!is_after(keys@[j], key));
                if is_after(keys@[j], other) {
                    lemma_le_lt(key, other, keys@[j]);
                }
            }
            assert forall|j: int| path[0] <= j < keys@.len() implies is_after(
                #[trigger] keys@[j],
                other,
            ) by {
                assert(is_after(keys@[j], key));
                lemma_le_lt(other, key, keys@[j]);
            }
            lemma_fits_equivalent(*edges@[path[0] as int], path.drop_first(), idx, key, other);
        },
    }
}

/// There is only one place where a key belongs.
pub proof fn lemma_fits_unique<K: Ord, V, Q: Probe<K>>(
    node: Node<K, V>,
    path1: Seq<usize>,
    idx1: int,
    path2: Seq<usize>,
    idx2: int,
    key: Q,
)
    requires
        valid_path(node, path1),
        valid_path(node, path2),
        0 <= idx1 <= leaf_entries(node, path1).len(),
        0 <= idx2 <= leaf_entries(node, path2).len(),
        fits(node, path1, idx1, key),
        fits(node, path2, idx2, key),
        well_filled(node),
    ensures
        path1 == path2,
        idx1 == idx2,
    decreases node,
{
    match node {
        Node::Leaf { entries } => {
            assert(path1 =~= path2);
            if idx1 < idx2 {
                assert(is_after(entries@[idx1].0, key));
            } else if idx2 < idx1 {
                assert(is_after(entries@[idx2].0, key));
            }
        },
        Node::Internal { keys, edges } => {
            let (c1, c2) = (path1[0] as int, path2[0] as int);
            if c1 < c2 {
                assert(is_after(keys@[c1], key));
            } else if c2 < c1 {
                assert(is_after(keys@[c2], key));
            }
            assert(well_filled(*edges@[c1]));
            lemma_fits_unique(
                *edges@[c1],
                path1.drop_first(),
                idx1,
                path2.drop_first(),
                idx2,
                key,
            );
            assert(path1 =~= seq![path1[0]] + path1.drop_first());
            assert(path2 =~= seq![path2[0]] + path2.drop_first());
        },
    }
}

/// No internal node has more edges than its keys can tell apart.
pub open spec fn well_filled<K, V>(node: Node<K, V>) -> bool
    decreases node,
{
    match node {
        Node::Leaf { .. } => true,
        Node::Internal { keys, edges } => {
            &&& edges@.len() == keys@.len() + 1
            &&& forall|i: int| 0 <= i < edges@.len() ==> well_filled(*#[trigger] edges@[i])
        },
    }
}

/// The internal nodes of a b-tree have as many edges as their keys can tell apart.
pub proof fn lemma_shaped_filled<K, V>(node: Node<K, V>, h: nat)
    requires
        node.shaped(h),
    ensures
        well_filled(node),
    decreases h,
{
    if let Node::Internal { edges, .. } = node {
        assert forall|i: int| 0 <= i < edges@.len() implies well_filled(*#[trigger] edges@[i]) by {
            assert(edges@[i].full((h - 1) as nat));
            lemma_shaped_filled(*edges@[i], (h - 1) as nat);
        }
    }
}

/// The number of keys that do not come after what `key` looks for.
pub fn upper_bound<K: Ord, Q: Probe<K>>(keys: &Vec<K>, key: &Q) -> (n: usize)
    requires
        total_order::<K>(),
        lawful_probe(*key),
        sorted_keys(keys@),
    ensures
        n <= keys@.len(),
        forall|j: int| 0 <= j < n ==> !is_after(#[trigger] keys@[j], *key),
        forall|j: int| n <= j < keys@.len() ==> is_after(#[trigger] keys@[j], *key),
{
    let mut lo: usize = 0;
    let mut hi: usize = keys.len();
    while lo < hi
        invariant
            total_order::<K>(),
            lawful_probe(*key),
            sorted_keys(keys@),
            lo <= hi <= keys@.len(),
            forall|j: int| 0 <= j < lo ==> !is_after(#[trigger] keys@[j], *key),
            forall|j: int| hi <= j < keys@.len() ==> is_after(#[trigger] keys@[j], *key),
        decreases hi - lo,
    {
        let mid: usize = lo + (hi - lo) / 2;
        match key.relate_key(&keys[mid]) {
            Relation::After => {
                assert forall|j: int| mid <= j < keys@.len() implies is_after(
                    #[trigger] keys@[j],
                    *key,
                ) by {
                    if j > mid {
                        lemma_after(keys@[mid as int], keys@[j], *key);
                    }
                }
                hi = mid;
            },
            _ => {
                assert forall|j: int| 0 <= j <= mid implies !is_after(
                    #[trigger] keys@[j],
                    *key,
                ) by {
                    if j < mid {
                        lemma_before(keys@[j], keys@[mid as int], *key);
                    }
                }
                lo = mid + 1;
            },
        }
    }
    lo
}

/// Looks `key` up in a leaf: whether it is there, and the place where it is or belongs.
pub fn search_leaf<K: Ord, V, Q: Probe<K>>(entries: &Vec<(K, V)>, key: &Q) -> (r: (bool, usize))
    requires
        total_order::<K>(),
        lawful_probe(*key),
        sorted(entries@),
    ensures
        r.1 <= entries@.len(),
        forall|i: int| 0 <= i < r.1 ==> is_before((#[trigger] entries@[i]).0, *key),
        r.0 ==> r.1 < entries@.len() && is_sought(entries@[r.1 as int].0, *key),
        !r.0 ==> forall|i: int|
            r.1 <= i < entries@.len() ==> is_after((#[trigger] entries@[i]).0, *key),
{
    let mut lo: usize = 0;
    let mut hi: usize = entries.len();
    while lo < hi
        invariant
            total_order::<K>(),
            lawful_probe(*key),
            sorted(entries@),
            lo <= hi <= entries@.len(),
            forall|i: int| 0 <= i < lo ==> is_before((#[trigger] entries@[i]).0, *key),
            forall|i: int| hi <= i < entries@.len() ==> is_after((#[trigger] entries@[i]).0, *key),
        decreases hi - lo,
    {
        let mid: usize = lo + (hi - lo) / 2;
        let ghost here = entries@[mid as int].0;
        match key.relate_key(&entries[mid].0) {
            Relation::After => {
                assert forall|i: int| mid <= i < entries@.len() implies is_after(
                    (#[trigger] entries@[i]).0,
                    *key,
                ) by {
                    if i > mid {
                        lemma_after(here, entries@[i].0, *key);
                    }
                }
                hi = mid;
            },
            Relation::Before => {
                assert forall|i: int| 0 <= i <= mid implies is_before(
                    (#[trigger] entries@[i]).0,
                    *key,
                ) by {
                    if i < mid {
                        lemma_before(entries@[i].0, here, *key);
                    }
                }
                lo = mid + 1;
            },
            Relation::Same => {
                assert forall|i: int| 0 <= i < mid implies is_before(
                    (#[trigger] entries@[i]).0,
                    *key,
                ) by {
                    lemma_before(entries@[i].0, here, *key);
                }
                return (true, mid);
            },
        }
    }
    (false, lo)
}

/// Looks `key` up under `node`: pushes the steps to the leaf on `path` and returns whether
/// the key is there, and the place in the leaf where it is or belongs.
pub fn find_in<K: Ord, V, Q: Probe<K>>(
    node: &Node<K, V>,
    key: &Q,
    path: &mut Vec<usize>,
    Ghost(h): Ghost<nat>,
) -> (r: (bool, usize))
    requires
        total_order::<K>(),
        lawful_probe(*key),
        node.shaped(h),
        node.ordered(),
    ensures
        final(path)@.len() >= old(path)@.len(),
        final(path)@.take(old(path)@.len() as int) == old(path)@,
        ({
            let p = final(path)@.skip(old(path)@.len() as int);
            let at = leaf_start(*node, p) + r.1;
            &&& valid_path(*node, p)
            &&& r.1 <= leaf_entries(*node, p).len()
            &&& at <= node.entries().len()
            &&& forall|i: int| 0 <= i < at ==> is_before((#[trigger] node.entries()[i]).0, *key)
            &&& r.0 ==> {
                &&& r.1 < leaf_entries(*node, p).len()
                &&& at < node.entries().len()
                &&& is_sought(node.entries()[at].0, *key)
            }
            &&& !r.0 ==> {
                &&& fits(*node, p, r.1 as int, *key)
                &&& forall|i: int|
                    at <= i < node.entries().len() ==> is_after(
                        (#[trigger] node.entries()[i]).0,
                        *key,
                    )
            }
        }),
    decreases h,
{
    let ghost n = path@.len() as int;
    match node {
        Node::Leaf { entries } => {
            assert(path@.skip(n) =~= Seq::<usize>::empty());
            assert(path@.take(n) =~= path@);
            search_leaf(entries, key)
        },
        Node::Internal { keys, edges } => {
            let ghost path0 = path@;
            let c: usize = upper_bound(keys, key);
            assert(edges@[c as int].full((h - 1) as nat));
            assert(edges@[c as int].ordered());
            path.push(c);
            let r = find_in(&edges[c], key, path, Ghost((h - 1) as nat));
            proof {
                assert(path@.take(n) =~= path@.take(n + 1).take(n));
                assert(path0.push(c).take(n) =~= path0);
                assert(path@[n] == path@.take(n + 1)[n]);
                assert(path@.skip(n).drop_first() =~= path@.skip(n + 1));
                let before = edges@.take(c as int);
                let after = edges@.skip(c + 1);
                lemma_concat_at(edges@, c as int);
                lemma_around(keys@, edges@, c as int, *key);
                let p = path@.skip(n);
                let s = edges@[c as int].entries();
                let at = leaf_start(*node, p) + r.1;
                let off = concat(before).len();
                assert forall|i: int| 0 <= i < at implies is_before(
                    (#[trigger] node.entries()[i]).0,
                    *key,
                ) by {
                    if i < off {
                        assert(node.entries()[i] == concat(before)[i]);
                    } else {
                        assert(node.entries()[i] == s[i - off]);
                    }
                }
                if !r.0 {
                    assert forall|i: int| at <= i < node.entries().len() implies is_after(
                        (#[trigger] node.entries()[i]).0,
                        *key,
                    ) by {
                        if i < off + s.len() {
                            assert(node.entries()[i] == s[i - off]);
                        } else {
                            assert(node.entries()[i] == concat(after)[i - off - s.len()]);
                        }
                    }
                }
            }
            r
        },
    }
}

/// The entries under the edges before the one that the keys point to come before what `key`
/// looks for, and those under the edges after it come after it.
proof fn lemma_around<K: Ord, V, Q: Probe<K>>(
    keys: Seq<K>,
    edges: Seq<Box<Node<K, V>>>,
    c: int,
    key: Q,
)
    requires
        total_order::<K>(),
        lawful_probe(key),
        separated(keys, edges),
        edges.len() == keys.len() + 1,
        0 <= c <= keys.len(),
        forall|j: int| 0 <= j < c ==> !is_after(#[trigger] keys[j], key),
        forall|j: int| c <= j < keys.len() ==> is_after(#[trigger] keys[j], key),
    ensures
        forall|i: int|
            0 <= i < concat(edges.take(c)).len() ==> is_before(
                (#[trigger] concat(edges.take(c))[i]).0,
                key,
            ),
        forall|i: int|
            0 <= i < concat(edges.skip(c + 1)).len() ==> is_after(
                (#[trigger] concat(edges.skip(c + 1))[i]).0,
                key,
            ),
{
    let before = edges.take(c);
    let after = edges.skip(c + 1);
    if c > 0 {
        let k = keys[c - 1];
        assert forall|i: int| 0 <= i < before.len() implies all_lt(
            (#[trigger] before[i]).entries(),
            k,
        ) by {
            assert(within(edges[i].entries(), keys, i));
        }
        lemma_concat_all_lt(before, k);
        assert forall|i: int| 0 <= i < concat(before).len() implies is_before(
            (#[trigger] concat(before)[i]).0,
            key,
        ) by {
            lemma_before(concat(before)[i].0, k, key);
        }
    } else {
        assert(before =~= Seq::empty());
    }
    if c < keys.len() {
        let k = keys[c];
        assert forall|i: int| 0 <= i < after.len() implies all_ge(
            (#[trigger] after[i]).entries(),
            k,
        ) by {
            assert(within(edges[i + c + 1].entries(), keys, i + c + 1));
        }
        lemma_concat_all_ge(after, k);
        assert forall|i: int| 0 <= i < concat(after).len() implies is_after(
            (#[trigger] concat(after)[i]).0,
            key,
        ) by {
            assert(is_after(k, key));
            assert(key_le(k, concat(after)[i].0));
        }
    } else {
        assert(after =~= Seq::empty());
    }
}

} // verus!
