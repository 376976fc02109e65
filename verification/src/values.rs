//! Changing the values of a tree in place.

use crate::node::{concat, lemma_concat_at, Node};
use crate::path::{leaf_entries, leaf_start, lemma_leaf_entries, valid_path};
use vstd::prelude::*;

verus! {

/// The two sequences of entries have the same keys.
pub open spec fn same_keys<K, V>(a: Seq<(K, V)>, b: Seq<(K, V)>) -> bool {
    &&& a.len() == b.len()
    &&& forall|i: int|
        #![trigger a[i]]
        #![trigger b[i]]
        0 <= i < a.len() ==> a[i].0 == b[i].0
}

/// The two trees have the same nodes with the same keys, and differ in values at most.
pub open spec fn same_layout<K, V>(a: Node<K, V>, b: Node<K, V>) -> bool
    decreases a,
{
    match (a, b) {
        (Node::Leaf { entries: x }, Node::Leaf { entries: y }) => same_keys(x@, y@),
        (
            Node::Internal { keys: xk, edges: xe },
            Node::Internal { keys: yk, edges: ye },
        ) => {
            &&& xk@ == yk@
            &&& xe@.len() == ye@.len()
            &&& forall|i: int|
                0 <= i < xe@.len() ==> same_layout(*#[trigger] xe@[i], *ye@[i])
        },
        _ => false,
    }
}

pub proof fn lemma_same_layout_refl<K, V>(a: Node<K, V>)
    ensures
        same_layout(a, a),
    decreases a,
{
    if let Node::Internal { keys, edges } = a {
        assert forall|i: int| 0 <= i < edges@.len() implies same_layout(
            *#[trigger] edges@[i],
            *edges@[i],
        ) by {
            lemma_same_layout_refl(*edges@[i]);
        }
    }
}

/// Trees with the same layout have the same keys in the same places.
pub proof fn lemma_same_layout_entries<K, V>(a: Node<K, V>, b: Node<K, V>)
    requires
        same_layout(a, b),
    ensures
        same_keys(a.entries(), b.entries()),
        a.count() == b.count(),
    decreases a,
{
    match (a, b) {
        (
            Node::Internal { keys: xk, edges: xe },
            Node::Internal { keys: yk, edges: ye },
        ) => {
            assert forall|i: int| 0 <= i < xe@.len() implies same_keys(
                (#[trigger] xe@[i]).entries(),
                ye@[i].entries(),
            ) by {
                lemma_same_layout_entries(*xe@[i], *ye@[i]);
            }
            lemma_same_keys_concat(xe@, ye@);
        },
        _ => {},
    }
}

proof fn lemma_same_keys_concat<K, V>(xe: Seq<Box<Node<K, V>>>, ye: Seq<Box<Node<K, V>>>)
    requires
        xe.len() == ye.len(),
        forall|i: int|
            0 <= i < xe.len() ==> same_keys((#[trigger] xe[i]).entries(), ye[i].entries()),
    ensures
        same_keys(concat(xe), concat(ye)),
    decreases xe.len(),
{
    if xe.len() > 0 {
        lemma_same_keys_concat(xe.drop_last(), ye.drop_last());
        assert(same_keys(xe[xe.len() - 1].entries(), ye[xe.len() - 1].entries()));
    }
}

/// Trees with the same layout have the same shape.
pub proof fn lemma_same_layout_shaped<K, V>(a: Node<K, V>, b: Node<K, V>, h: nat)
    requires
        same_layout(a, b),
        a.shaped(h),
    ensures
        b.shaped(h),
    decreases h,
{
    match (a, b) {
        (
            Node::Internal { keys: xk, edges: xe },
            Node::Internal { keys: yk, edges: ye },
        ) => {
            assert forall|i: int| 0 <= i < ye@.len() implies (#[trigger] ye@[i]).full(
                (h - 1) as nat,
            ) by {
                assert(xe@[i].full((h - 1) as nat));
                lemma_same_layout_shaped(*xe@[i], *ye@[i], (h - 1) as nat);
                lemma_same_layout_entries(*xe@[i], *ye@[i]);
            }
        },
        _ => {},
    }
}

/// Entry `idx` of the leaf that `path`, from step `depth` on, leads to, with its value open to
/// change.
pub fn entry_at_mut<'a, K, V>(
    node: &'a mut Node<K, V>,
    path: &Vec<usize>,
    depth: usize,
    idx: usize,
) -> (entry: (&'a K, &'a mut V))
    requires
        depth <= path.len(),
        valid_path(*old(node), path@.skip(depth as int)),
        idx < leaf_entries(*old(node), path@.skip(depth as int)).len(),
    ensures
        ({
            let at = leaf_start(*old(node), path@.skip(depth as int)) + idx;
            &&& at < old(node).entries().len()
            &&& *entry.0 == old(node).entries()[at].0
            &&& *entry.1 == old(node).entries()[at].1
            &&& final(node).entries() == old(node).entries().update(
                at,
                (*entry.0, *final(entry.1)),
            )
        }),
        same_layout(*old(node), *final(node)),
    decreases path.len() - depth,
{
    let ghost node0 = *node;
    match node {
        Node::Leaf { entries } => {
            let entry = &mut entries[idx];
            (&entry.0, &mut entry.1)
        },
        Node::Internal { keys, edges } => {
            let ghost edges0 = edges@;
            let c: usize = path[depth];
            let ghost ci = c as int;
            proof {
                assert(path@.skip(depth as int).drop_first() =~= path@.skip(depth + 1));
                lemma_concat_at(edges0, ci);
                lemma_leaf_entries(*edges0[ci], path@.skip(depth + 1));
                lemma_children_same_layout(edges0);
                lemma_concat_update(edges0, ci);
            }
            entry_at_mut(&mut *edges[c], path, depth + 1, idx)
        },
    }
}

/// What the entries under all edges are when edge `i` is exchanged.
proof fn lemma_concat_update<K, V>(edges: Seq<Box<Node<K, V>>>, i: int)
    requires
        0 <= i < edges.len(),
    ensures
        forall|node: Box<Node<K, V>>|
            concat(#[trigger] edges.update(i, node)) == concat(edges.take(i)) + node.entries()
                + concat(edges.skip(i + 1)),
{
    assert forall|node: Box<Node<K, V>>|
        concat(#[trigger] edges.update(i, node)) == concat(edges.take(i)) + node.entries()
            + concat(edges.skip(i + 1)) by {
        let edges2 = edges.update(i, node);
        lemma_concat_at(edges2, i);
        assert(edges2.take(i) =~= edges.take(i));
        assert(edges2.skip(i + 1) =~= edges.skip(i + 1));
    }
}

proof fn lemma_children_same_layout<K, V>(edges: Seq<Box<Node<K, V>>>)
    ensures
        forall|i: int|
            0 <= i < edges.len() ==> same_layout(*#[trigger] edges[i], *edges[i]),
{
    assert forall|i: int| 0 <= i < edges.len() implies same_layout(
        *#[trigger] edges[i],
        *edges[i],
    ) by {
        lemma_same_layout_refl(*edges[i]);
    }
}

} // verus!
