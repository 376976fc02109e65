//! Inserting an entry into a tree, splitting the nodes that overflow.

use crate::node::{
    all_ge, all_lt, concat, lemma_concat_add, lemma_concat_at, lemma_concat_one, lemma_entries_len,
    lemma_le_lt, lemma_lt_le, lemma_separated_divide, lemma_separated_split, lemma_separated_update,
    separated, sorted, within, M, Node,
};
use crate::order::{key_eq, key_le, key_lt, key_model, total_order};
use crate::path::{leaf_entries, leaf_start, lemma_leaf_entries, replaced, valid_path};
use crate::search::fits;
use crate::store::BTreeStore;
use vstd::prelude::*;

verus! {

/// A sequence whose entries come from `s`, and one more entry with `key`, belongs in the gap
/// of `keys` in which `s` and `key` belong.
proof fn lemma_within_insert<K: Ord, V>(
    s: Seq<(K, V)>,
    at: int,
    entry: (K, V),
    keys: Seq<K>,
    i: int,
)
    requires
        within(s, keys, i),
        0 <= at <= s.len(),
        forall|j: int| 0 <= j < i && j < keys.len() ==> key_le(#[trigger] keys[j], entry.0),
        forall|j: int| i <= j < keys.len() ==> key_lt(entry.0, #[trigger] keys[j]),
    ensures
        within(s.insert(at, entry), keys, i),
{
    let s2 = s.insert(at, entry);
    assert forall|p: int| 0 <= p < s2.len() implies s2[p] == entry || exists|q: int|
        0 <= q < s.len() && s[q] == #[trigger] s2[p] by {
        if p < at {
            assert(s[p] == s2[p]);
        } else if p > at {
            assert(s[p - 1] == s2[p]);
        }
    }
    assert forall|j: int| 0 <= j < i && j < keys.len() implies all_ge(s2, #[trigger] keys[j]) by {
        assert(all_ge(s, keys[j]));
    }
    assert forall|j: int| i <= j < keys.len() implies all_lt(s2, #[trigger] keys[j]) by {
        assert(all_lt(s, keys[j]));
    }
}

/// Where the entries under edge `i` become those of `mid`, with one more among them, so do
/// the entries under all edges.
proof fn lemma_concat_insert<K, V>(
    edges: Seq<Box<Node<K, V>>>,
    i: int,
    at: int,
    entry: (K, V),
    mid: Seq<(K, V)>,
)
    requires
        0 <= i < edges.len(),
        0 <= at <= edges[i].entries().len(),
        mid == edges[i].entries().insert(at, entry),
    ensures
        concat(edges.take(i)) + mid + concat(edges.skip(i + 1)) == concat(edges).insert(
            concat(edges.take(i)).len() + at,
            entry,
        ),
{
    lemma_concat_at(edges, i);
    assert(concat(edges.take(i)) + mid + concat(edges.skip(i + 1)) =~= concat(edges).insert(
        concat(edges.take(i)).len() + at,
        entry,
    ));
}

/// A new edge adds its entries at its place.
proof fn lemma_concat_new_edge<K, V>(
    edges: Seq<Box<Node<K, V>>>,
    i: int,
    node: Box<Node<K, V>>,
)
    requires
        0 <= i <= edges.len(),
    ensures
        concat(edges.insert(i, node)) == concat(edges.take(i)) + node.entries() + concat(
            edges.skip(i),
        ),
{
    assert(edges.insert(i, node) =~= edges.take(i) + seq![node] + edges.skip(i));
    lemma_concat_add(edges.take(i) + seq![node], edges.skip(i));
    lemma_concat_add(edges.take(i), seq![node]);
    lemma_concat_one(node);
}

/// The first part of what belongs in a gap belongs there too.
proof fn lemma_within_prefix<K: Ord, V>(
    a: Seq<(K, V)>,
    b: Seq<(K, V)>,
    keys: Seq<K>,
    i: int,
)
    requires
        within(a + b, keys, i),
    ensures
        within(a, keys, i),
{
    assert forall|p: int| 0 <= p < a.len() implies #[trigger] a[p] == (a + b)[p] by {}
    assert forall|j: int| 0 <= j < i && j < keys.len() implies all_ge(a, #[trigger] keys[j]) by {
        assert(all_ge(a + b, keys[j]));
    }
    assert forall|j: int| i <= j < keys.len() implies all_lt(a, #[trigger] keys[j]) by {
        assert(all_lt(a + b, keys[j]));
    }
}

/// Every node on the way from `node` to the leaf that `path` leads to holds as much as it can.
pub open spec fn path_full<K, V>(node: Node<K, V>, path: Seq<usize>) -> bool
    decreases node,
{
    &&& node.count() == M
    &&& match node {
        Node::Leaf { .. } => true,
        Node::Internal { keys, edges } => {
            &&& path.len() > 0
            &&& path[0] < edges@.len()
            &&& path_full(*edges@[path[0] as int], path.drop_first())
        },
    }
}

/// Inserts an entry into a leaf, splitting it where it overflows.
fn insert_leaf<K: Ord + Clone, V>(
    entries: &mut Vec<(K, V)>,
    idx: usize,
    key: K,
    val: V,
    store: &BTreeStore<K, V>,
) -> (split: Option<(K, Box<Node<K, V>>)>)
    requires
        key_model::<K>(),
        1 <= old(entries).len() <= M,
        idx <= old(entries).len(),
        sorted(old(entries)@),
        forall|i: int| 0 <= i < idx ==> key_lt((#[trigger] old(entries)@[i]).0, key),
        forall|i: int|
            idx <= i < old(entries)@.len() ==> key_lt(key, (#[trigger] old(entries)@[i]).0),
    ensures
        split is Some <==> old(entries)@.len() == M,
        match split {
            None => {
                &&& final(entries)@ == old(entries)@.insert(idx as int, (key, val))
                &&& final(entries)@.len() <= M
                &&& sorted(final(entries)@)
            },
            Some((sep, right)) => {
                &&& final(entries)@ + right.entries() == old(entries)@.insert(
                    idx as int,
                    (key, val),
                )
                &&& M / 2 <= final(entries)@.len() <= M
                &&& sorted(final(entries)@)
                &&& right.full(0)
                &&& right.ordered()
                &&& all_lt(final(entries)@, sep)
                &&& all_ge(right.entries(), sep)
            },
        },
{
    let ghost entries0 = entries@;
    entries.insert(idx, (key, val));
    let ghost all = entries@;
    proof {
        assert forall|i: int, j: int|
            #![trigger all[i], all[j]]
            0 <= i < j < all.len() implies key_lt(all[i].0, all[j].0) by {
            let i1 = if i < idx { i } else { i - 1 };
            let j1 = if j < idx { j } else { j - 1 };
            if i != idx {
                assert(all[i] == entries0[i1]);
            }
            if j != idx {
                assert(all[j] == entries0[j1]);
            }
        }
    }
    if entries.len() <= M {
        None
    } else {
        let mid: usize = entries.len() / 2;
        let upper = entries.split_off(mid);
        let sep = upper[0].0.clone();
        proof {
            assert(key_eq(upper@[0].0, sep));
            assert(upper@[0] == all[mid as int]);
            assert forall|i: int| 0 <= i < entries@.len() implies key_lt(
                (#[trigger] entries@[i]).0,
                sep,
            ) by {
                assert(entries@[i] == all[i]);
                lemma_lt_le(all[i].0, all[mid as int].0, sep);
            }
            assert forall|i: int| 0 <= i < upper@.len() implies key_le(
                sep,
                (#[trigger] upper@[i]).0,
            ) by {
                assert(upper@[i] == all[mid + i]);
                assert(!key_lt(upper@[0].0, sep));
                if i > 0 {
                    lemma_le_lt(sep, all[mid as int].0, all[mid + i].0);
                }
            }
            assert(entries@ + upper@ =~= all);
        }
        let right = store.take_in(Node::Leaf { entries: upper });
        Some((sep, right))
    }
}

/// Splits the keys and edges of an overflowing internal node around its middle key.
fn split_internal<K: Ord, V>(
    keys: &mut Vec<K>,
    edges: &mut Vec<Box<Node<K, V>>>,
    store: &BTreeStore<K, V>,
    Ghost(h): Ghost<nat>,
) -> (split: (K, Box<Node<K, V>>))
    requires
        total_order::<K>(),
        h > 0,
        old(keys).len() == M + 1,
        old(edges).len() == M + 2,
        separated(old(keys)@, old(edges)@),
        forall|i: int|
            0 <= i < old(edges)@.len() ==> (#[trigger] old(edges)@[i]).full((h - 1) as nat),
        forall|i: int| 0 <= i < old(edges)@.len() ==> (#[trigger] old(edges)@[i]).ordered(),
    ensures
        concat(final(edges)@) + split.1.entries() == concat(old(edges)@),
        all_lt(concat(final(edges)@), split.0),
        all_ge(split.1.entries(), split.0),
        split.1.full(h),
        split.1.ordered(),
        M / 2 <= final(keys)@.len() <= M,
        final(edges)@.len() == final(keys)@.len() + 1,
        separated(final(keys)@, final(edges)@),
        forall|i: int|
            0 <= i < final(edges)@.len() ==> (#[trigger] final(edges)@[i]).full((h - 1) as nat),
        forall|i: int| 0 <= i < final(edges)@.len() ==> (#[trigger] final(edges)@[i]).ordered(),
{
    let ghost keys0 = keys@;
    let ghost edges0 = edges@;
    let mid: usize = keys.len() / 2;
    let upper_keys = keys.split_off(mid + 1);
    let upper_edges = edges.split_off(mid + 1);
    let middle = keys.pop().unwrap();
    proof {
        lemma_separated_divide(keys0, edges0, mid as int);
        assert(keys@ =~= keys0.take(mid as int));
        assert(upper_keys@ =~= keys0.skip(mid + 1));
        assert(edges@ =~= edges0.take(mid + 1));
        assert(upper_edges@ =~= edges0.skip(mid + 1));
        assert forall|i: int| 0 <= i < edges@.len() implies (#[trigger] edges@[i]).full(
            (h - 1) as nat,
        ) && edges@[i].ordered() by {
            assert(edges@[i] == edges0[i]);
        }
        assert forall|i: int| 0 <= i < upper_edges@.len() implies (
        #[trigger] upper_edges@[i]).full((h - 1) as nat) && upper_edges@[i].ordered() by {
            assert(upper_edges@[i] == edges0[mid + 1 + i]);
        }
    }
    let right = store.take_in(Node::Internal { keys: upper_keys, edges: upper_edges });
    (middle, right)
}

/// Puts a new edge behind edge `i`, with the key that separates the two, and splits the node
/// where it overflows.
fn insert_edge<K: Ord, V>(
    keys: &mut Vec<K>,
    edges: &mut Vec<Box<Node<K, V>>>,
    i: usize,
    sep: K,
    right: Box<Node<K, V>>,
    store: &BTreeStore<K, V>,
    Ghost(h): Ghost<nat>,
) -> (split: Option<(K, Box<Node<K, V>>)>)
    requires
        total_order::<K>(),
        h > 0,
        old(keys).len() <= M,
        old(edges).len() == old(keys).len() + 1,
        i < old(edges).len(),
        separated(old(keys)@, old(edges)@),
        forall|j: int|
            0 <= j < old(edges)@.len() ==> (#[trigger] old(edges)@[j]).full((h - 1) as nat),
        forall|j: int| 0 <= j < old(edges)@.len() ==> (#[trigger] old(edges)@[j]).ordered(),
        right.full((h - 1) as nat),
        right.ordered(),
        within(old(edges)@[i as int].entries() + right.entries(), old(keys)@, i as int),
        all_lt(old(edges)@[i as int].entries(), sep),
        all_ge(right.entries(), sep),
    ensures
        split is Some <==> old(keys)@.len() == M,
        final(edges)@.len() == final(keys)@.len() + 1,
        separated(final(keys)@, final(edges)@),
        forall|j: int|
            0 <= j < final(edges)@.len() ==> (#[trigger] final(edges)@[j]).full((h - 1) as nat),
        forall|j: int| 0 <= j < final(edges)@.len() ==> (#[trigger] final(edges)@[j]).ordered(),
        ({
            let after = concat(old(edges)@.take(i + 1)) + right.entries() + concat(
                old(edges)@.skip(i + 1),
            );
            match split {
                None => {
                    &&& concat(final(edges)@) == after
                    &&& final(keys)@.len() == old(keys)@.len() + 1
                    &&& final(keys)@.len() <= M
                },
                Some((sep2, right2)) => {
                    &&& concat(final(edges)@) + right2.entries() == after
                    &&& M / 2 <= final(keys)@.len() <= M
                    &&& right2.full(h)
                    &&& right2.ordered()
                    &&& all_lt(concat(final(edges)@), sep2)
                    &&& all_ge(right2.entries(), sep2)
                },
            }
        }),
{
    let ghost keys0 = keys@;
    let ghost edges0 = edges@;
    let ghost ii = i as int;
    proof {
        assert(edges0[ii].full((h - 1) as nat));
        lemma_entries_len(*edges0[ii], (h - 1) as nat);
        lemma_entries_len(*right, (h - 1) as nat);
        lemma_separated_split(keys0, edges0, ii, edges0[ii], sep, right);
        assert(edges0.update(ii, edges0[ii]) =~= edges0);
        lemma_concat_new_edge(edges0, ii + 1, right);
    }
    keys.insert(i, sep);
    edges.insert(i + 1, right);
    assert forall|j: int| 0 <= j < edges@.len() implies (#[trigger] edges@[j]).full(
        (h - 1) as nat,
    ) && edges@[j].ordered() by {
        if j <= ii {
            assert(edges@[j] == edges0[j]);
        } else if j > ii + 1 {
            assert(edges@[j] == edges0[j - 1]);
        }
    }
    if keys.len() <= M {
        None
    } else {
        Some(split_internal(keys, edges, store, Ghost(h)))
    }
}

/// Inserts an entry at place `idx` of the leaf that `path`, from step `depth` on, leads to.
///
/// Where the node overflows, as it does if all nodes on the way to the leaf hold as much as they
/// can, it is split: it keeps the lower half, and the upper half is returned with the key that
/// separates the two.
pub fn insert_at<K: Ord + Clone, V>(
    node: &mut Node<K, V>,
    path: &Vec<usize>,
    depth: usize,
    idx: usize,
    key: K,
    val: V,
    store: &BTreeStore<K, V>,
) -> (split: Option<(K, Box<Node<K, V>>)>)
    requires
        key_model::<K>(),
        depth <= path.len(),
        old(node).shaped((path.len() - depth) as nat),
        old(node).count() >= 1,
        old(node).ordered(),
        valid_path(*old(node), path@.skip(depth as int)),
        idx <= leaf_entries(*old(node), path@.skip(depth as int)).len(),
        fits(*old(node), path@.skip(depth as int), idx as int, key),
    ensures
        split is Some <==> path_full(*old(node), path@.skip(depth as int)),
        leaf_entries(*old(node), path@.skip(depth as int)).len() < M ==> split is None && replaced(
            *old(node),
            *final(node),
            path@.skip(depth as int),
            leaf_entries(*old(node), path@.skip(depth as int)).insert(idx as int, (key, val)),
        ),
        ({
            let h = (path.len() - depth) as nat;
            let at = leaf_start(*old(node), path@.skip(depth as int)) + idx;
            let after = old(node).entries().insert(at, (key, val));
            match split {
                None => {
                    &&& final(node).entries() == after
                    &&& final(node).shaped(h)
                    &&& final(node).count() >= old(node).count()
                    &&& final(node).ordered()
                },
                Some((sep, right)) => {
                    &&& final(node).entries() + right.entries() == after
                    &&& final(node).full(h)
                    &&& final(node).ordered()
                    &&& right.full(h)
                    &&& right.ordered()
                    &&& all_lt(final(node).entries(), sep)
                    &&& all_ge(right.entries(), sep)
                },
            }
        }),
    decreases path.len() - depth,
{
    let ghost node0 = *node;
    let ghost h = (path.len() - depth) as nat;
    match node {
        Node::Leaf { entries } => insert_leaf(entries, idx, key, val, store),
        Node::Internal { keys, edges } => {
            let ghost keys0 = keys@;
            let ghost edges0 = edges@;
            let c: usize = path[depth];
            let ghost ci = c as int;
            let ghost entry = (key, val);
            let ghost sub = path@.skip(depth + 1);
            let ghost sub_at = leaf_start(*edges0[ci], sub) + idx;
            let ghost at = leaf_start(node0, path@.skip(depth as int)) + idx;
            proof {
                assert(path@.skip(depth as int).drop_first() =~= sub);
                assert(edges0[ci].full((h - 1) as nat));
                assert(edges0[ci].ordered());
                lemma_leaf_entries(*edges0[ci], sub);
                assert(within(edges0[ci].entries(), keys0, ci));
                lemma_within_insert(edges0[ci].entries(), sub_at, entry, keys0, ci);
                lemma_concat_insert(
                    edges0,
                    ci,
                    sub_at,
                    entry,
                    edges0[ci].entries().insert(sub_at, entry),
                );
            }
            let split = insert_at(&mut *edges[c], path, depth + 1, idx, key, val, store);
            let ghost edges1 = edges@;
            let ghost left = edges1[ci];
            proof {
                assert(edges1 =~= edges0.update(ci, left));
                assert(edges1.take(ci) =~= edges0.take(ci));
                assert(edges1.skip(ci + 1) =~= edges0.skip(ci + 1));
                lemma_concat_at(edges1, ci);
            }
            match split {
                None => {
                    proof {
                        lemma_separated_update(keys0, edges0, ci, left);
                        assert forall|i: int| 0 <= i < edges1.len() implies (
                        #[trigger] edges1[i]).full((h - 1) as nat) && edges1[i].ordered() by {
                            if i != ci {
                                assert(edges1[i] == edges0[i]);
                            }
                        }
                    }
                    None
                },
                Some((sep, right)) => {
                    proof {
                        let both = left.entries() + right.entries();
                        assert(within(both, keys0, ci));
                        lemma_within_prefix(left.entries(), right.entries(), keys0, ci);
                        lemma_separated_update(keys0, edges0, ci, left);
                        assert forall|i: int| 0 <= i < edges1.len() implies (
                        #[trigger] edges1[i]).full((h - 1) as nat) && edges1[i].ordered() by {
                            if i != ci {
                                assert(edges1[i] == edges0[i]);
                            }
                        }
                        assert(concat(edges1.take(ci + 1)) + right.entries() + concat(
                            edges1.skip(ci + 1),
                        ) =~= concat(edges0.take(ci)) + both + concat(edges0.skip(ci + 1)));
                    }
                    insert_edge(keys, edges, c, sep, right, store, Ghost(h))
                },
            }
        },
    }
}

} // verus!
