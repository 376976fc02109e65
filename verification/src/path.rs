//! Paths: the way from a node down to one of its leaves, as the index of the edge taken at
//! each level.

use crate::node::{concat, lemma_concat_at, Node};
use vstd::prelude::*;

verus! {

/// `path` leads from `node` to a leaf.
pub open spec fn valid_path<K, V>(node: Node<K, V>, path: Seq<usize>) -> bool
    decreases node,
{
    match node {
        Node::Leaf { .. } => path.len() == 0,
        Node::Internal { keys, edges } => {
            &&& path.len() > 0
            &&& path[0] < edges@.len()
            &&& valid_path(*edges@[path[0] as int], path.drop_first())
        },
    }
}

/// The node that `path` leads to, not necessarily all the way down.
pub open spec fn node_at<K, V>(node: Node<K, V>, path: Seq<usize>) -> Option<Node<K, V>>
    decreases path.len(),
{
    if path.len() == 0 {
        Some(node)
    } else {
        match node {
            Node::Leaf { .. } => None,
            Node::Internal { edges, .. } => if path[0] < edges@.len() {
                node_at(*edges@[path[0] as int], path.drop_first())
            } else {
                None
            },
        }
    }
}

/// `b` is `a`, except that the leaf that `path` leads to holds `entries`.
pub open spec fn replaced<K, V>(
    a: Node<K, V>,
    b: Node<K, V>,
    path: Seq<usize>,
    entries: Seq<(K, V)>,
) -> bool
    decreases a,
{
    match (a, b) {
        (Node::Leaf { .. }, Node::Leaf { entries: y }) => path.len() == 0 && y@ == entries,
        (
            Node::Internal { keys: xk, edges: xe },
            Node::Internal { keys: yk, edges: ye },
        ) => {
            &&& path.len() > 0
            &&& path[0] < xe@.len()
            &&& yk@ == xk@
            &&& ye@ == xe@.update(path[0] as int, ye@[path[0] as int])
            &&& replaced(
                *xe@[path[0] as int],
                *ye@[path[0] as int],
                path.drop_first(),
                entries,
            )
        },
        _ => false,
    }
}

/// The path `q` is where `path` comes by.
pub open spec fn on_the_way(q: Seq<usize>, path: Seq<usize>) -> bool {
    q.len() <= path.len() && path.take(q.len() as int) == q
}

/// What has been replaced is one leaf: all nodes that are not on the way to it are as they were,
/// and those on the way have the same keys.
pub proof fn lemma_replaced<K, V>(
    a: Node<K, V>,
    b: Node<K, V>,
    path: Seq<usize>,
    entries: Seq<(K, V)>,
    q: Seq<usize>,
)
    requires
        replaced(a, b, path, entries),
    ensures
        valid_path(b, path),
        leaf_entries(b, path) == entries,
        !on_the_way(q, path) ==> node_at(b, q) == node_at(a, q),
        on_the_way(q, path) && q.len() < path.len() ==> match (node_at(a, q), node_at(b, q)) {
            (Some(Node::Internal { keys: xk, edges: xe }), Some(
                Node::Internal { keys: yk, edges: ye },
            )) => xk@ == yk@ && xe@.len() == ye@.len(),
            _ => false,
        },
    decreases path.len(),
{
    match (a, b) {
        (
            Node::Internal { keys: xk, edges: xe },
            Node::Internal { keys: yk, edges: ye },
        ) => {
            let c = path[0] as int;
            let rest = q.drop_first();
            lemma_replaced(*xe@[c], *ye@[c], path.drop_first(), entries, rest);
            if q.len() == 0 {
                assert(path.take(0) =~= q);
            } else if q[0] == path[0] {
                if on_the_way(q, path) {
                    assert(path.drop_first().take(rest.len() as int) =~= rest) by {
                        assert forall|i: int| 0 <= i < rest.len() implies path.drop_first()[i]
                            == rest[i] by {
                            assert(path.take(q.len() as int)[i + 1] == q[i + 1]);
                        }
                    }
                }
                if on_the_way(rest, path.drop_first()) {
                    assert(path.take(q.len() as int) =~= q) by {
                        assert forall|i: int| 0 < i < q.len() implies path[i] == q[i] by {
                            assert(path.drop_first().take(rest.len() as int)[i - 1] == rest[i - 1]);
                        }
                    }
                }
            } else {
                if on_the_way(q, path) {
                    assert(path.take(q.len() as int)[0] == q[0]);
                }
            }
        },
        _ => {
            if q.len() == 0 {
                assert(path.take(0) =~= q);
            }
        },
    }
}

/// The number of entries before the leaf that `path` leads to.
pub open spec fn leaf_start<K, V>(node: Node<K, V>, path: Seq<usize>) -> nat
    recommends
        valid_path(node, path),
    decreases node,
{
    match node {
        Node::Leaf { .. } => 0,
        Node::Internal { keys, edges } => {
            if 0 <= path[0] < edges@.len() {
                concat(edges@.take(path[0] as int)).len() + leaf_start(
                    *edges@[path[0] as int],
                    path.drop_first(),
                )
            } else {
                0
            }
        },
    }
}

/// The entries of the leaf that `path` leads to.
pub open spec fn leaf_entries<K, V>(node: Node<K, V>, path: Seq<usize>) -> Seq<(K, V)>
    recommends
        valid_path(node, path),
    decreases node,
{
    match node {
        Node::Leaf { entries } => entries@,
        Node::Internal { keys, edges } => {
            if 0 <= path[0] < edges@.len() {
                leaf_entries(*edges@[path[0] as int], path.drop_first())
            } else {
                Seq::empty()
            }
        },
    }
}

/// The entries of a leaf stand together among the entries of the tree.
pub proof fn lemma_leaf_entries<K, V>(node: Node<K, V>, path: Seq<usize>)
    requires
        valid_path(node, path),
    ensures
        leaf_start(node, path) + leaf_entries(node, path).len() <= node.entries().len(),
        forall|i: int|
            0 <= i < leaf_entries(node, path).len() ==> #[trigger] leaf_entries(node, path)[i]
                == node.entries()[leaf_start(node, path) + i],
    decreases node,
{
    match node {
        Node::Leaf { .. } => {},
        Node::Internal { keys, edges } => {
            let c = path[0] as int;
            lemma_leaf_entries(*edges@[c], path.drop_first());
            lemma_concat_at(edges@, c);
        },
    }
}

/// In a tree of height `h` every path has `h` steps and leads to a leaf with entries.
pub proof fn lemma_path_len<K, V>(node: Node<K, V>, path: Seq<usize>, h: nat)
    requires
        valid_path(node, path),
        node.shaped(h),
        node.count() >= 1,
    ensures
        path.len() == h,
        leaf_entries(node, path).len() > 0,
    decreases h,
{
    match node {
        Node::Leaf { .. } => {},
        Node::Internal { keys, edges } => {
            assert(edges@[path[0] as int].full((h - 1) as nat));
            lemma_path_len(*edges@[path[0] as int], path.drop_first(), (h - 1) as nat);
        },
    }
}

/// Two places in the tree with the same position are the same place.
pub proof fn lemma_place_unique<K, V>(
    node: Node<K, V>,
    path1: Seq<usize>,
    idx1: int,
    path2: Seq<usize>,
    idx2: int,
)
    requires
        valid_path(node, path1),
        valid_path(node, path2),
        0 <= idx1 < leaf_entries(node, path1).len(),
        0 <= idx2 < leaf_entries(node, path2).len(),
        leaf_start(node, path1) + idx1 == leaf_start(node, path2) + idx2,
    ensures
        path1 == path2,
        idx1 == idx2,
    decreases node,
{
    match node {
        Node::Leaf { .. } => {
            assert(path1 =~= path2);
        },
        Node::Internal { keys, edges } => {
            let c1 = path1[0] as int;
            let c2 = path2[0] as int;
            lemma_leaf_entries(*edges@[c1], path1.drop_first());
            lemma_leaf_entries(*edges@[c2], path2.drop_first());
            if c1 < c2 {
                lemma_prefix_len(edges@, c1, c2);
            } else if c2 < c1 {
                lemma_prefix_len(edges@, c2, c1);
            }
            lemma_place_unique(
                *edges@[c1],
                path1.drop_first(),
                idx1,
                path2.drop_first(),
                idx2,
            );
            assert(path1 =~= seq![path1[0]] + path1.drop_first());
            assert(path2 =~= seq![path2[0]] + path2.drop_first());
        },
    }
}

/// The entries under edge `a` all come before those under a later edge `b`.
pub proof fn lemma_prefix_len<K, V>(edges: Seq<Box<Node<K, V>>>, a: int, b: int)
    requires
        0 <= a < b <= edges.len(),
    ensures
        concat(edges.take(a)).len() + edges[a].entries().len() <= concat(edges.take(b)).len(),
    decreases b,
{
    lemma_concat_at(edges, b - 1);
    if a < b - 1 {
        lemma_prefix_len(edges, a, b - 1);
    }
}

/// Goes to the first leaf under `node`: pushes the steps to it on `path`.
pub fn first_leaf<K, V>(node: &Node<K, V>, path: &mut Vec<usize>, Ghost(h): Ghost<nat>)
    requires
        node.shaped(h),
    ensures
        final(path)@.len() >= old(path)@.len(),
        final(path)@.take(old(path)@.len() as int) == old(path)@,
        valid_path(*node, final(path)@.skip(old(path)@.len() as int)),
        leaf_start(*node, final(path)@.skip(old(path)@.len() as int)) == 0,
    decreases h,
{
    let ghost n = path@.len() as int;
    match node {
        Node::Leaf { .. } => {
            assert(path@.skip(n) =~= Seq::<usize>::empty());
            assert(path@.take(n) =~= path@);
        },
        Node::Internal { keys, edges } => {
            let ghost path0 = path@;
            assert(edges@[0].full((h - 1) as nat));
            path.push(0);
            first_leaf(&edges[0], path, Ghost((h - 1) as nat));
            assert(path@.take(n) =~= path@.take(n + 1).take(n));
            assert(path0.push(0).take(n) =~= path0);
            assert(path@[n] == path@.take(n + 1)[n]);
            assert(path@.skip(n).drop_first() =~= path@.skip(n + 1));
            assert(edges@.take(0) =~= Seq::empty());
        },
    }
}

/// Goes to the last leaf under `node`: pushes the steps to it on `path`.
pub fn last_leaf<K, V>(node: &Node<K, V>, path: &mut Vec<usize>, Ghost(h): Ghost<nat>)
    requires
        node.shaped(h),
    ensures
        final(path)@.len() >= old(path)@.len(),
        final(path)@.take(old(path)@.len() as int) == old(path)@,
        valid_path(*node, final(path)@.skip(old(path)@.len() as int)),
        leaf_start(*node, final(path)@.skip(old(path)@.len() as int)) + leaf_entries(
            *node,
            final(path)@.skip(old(path)@.len() as int),
        ).len() == node.entries().len(),
    decreases h,
{
    let ghost n = path@.len() as int;
    match node {
        Node::Leaf { .. } => {
            assert(path@.skip(n) =~= Seq::<usize>::empty());
            assert(path@.take(n) =~= path@);
        },
        Node::Internal { keys, edges } => {
            let ghost path0 = path@;
            let last: usize = edges.len() - 1;
            assert(edges@[last as int].full((h - 1) as nat));
            path.push(last);
            last_leaf(&edges[last], path, Ghost((h - 1) as nat));
            assert(path@.take(n) =~= path@.take(n + 1).take(n));
            assert(path0.push(last).take(n) =~= path0);
            assert(path@[n] == path@.take(n + 1)[n]);
            assert(path@.skip(n).drop_first() =~= path@.skip(n + 1));
            assert(edges@.take(last as int) =~= edges@.drop_last());
        },
    }
}

/// The number of entries of the leaf that `path`, from step `depth` on, leads to.
pub fn leaf_len<K, V>(node: &Node<K, V>, path: &Vec<usize>, depth: usize) -> (n: usize)
    requires
        depth <= path.len(),
        valid_path(*node, path@.skip(depth as int)),
    ensures
        n == leaf_entries(*node, path@.skip(depth as int)).len(),
    decreases path@.len() - depth,
{
    match node {
        Node::Leaf { entries } => entries.len(),
        Node::Internal { keys, edges } => {
            assert(path@.skip(depth as int).drop_first() =~= path@.skip(depth + 1));
            leaf_len(&edges[path[depth]], path, depth + 1)
        },
    }
}

/// Entry `idx` of the leaf that `path`, from step `depth` on, leads to.
pub fn entry_at<'a, K, V>(
    node: &'a Node<K, V>,
    path: &Vec<usize>,
    depth: usize,
    idx: usize,
) -> (entry: &'a (K, V))
    requires
        depth <= path.len(),
        valid_path(*node, path@.skip(depth as int)),
        idx < leaf_entries(*node, path@.skip(depth as int)).len(),
    ensures
        leaf_start(*node, path@.skip(depth as int)) + idx < node.entries().len(),
        *entry == node.entries()[leaf_start(*node, path@.skip(depth as int)) + idx],
    decreases path@.len() - depth,
{
    match node {
        Node::Leaf { entries } => &entries[idx],
        Node::Internal { keys, edges } => {
            proof {
                assert(path@.skip(depth as int).drop_first() =~= path@.skip(depth + 1));
                lemma_concat_at(edges@, path@[depth as int] as int);
            }
            entry_at(&edges[path[depth]], path, depth + 1, idx)
        },
    }
}

/// Goes from the leaf that `path` leads to on to the next one, if there is one.
pub fn next_leaf<K, V>(
    node: &Node<K, V>,
    path: &mut Vec<usize>,
    depth: usize,
    Ghost(h): Ghost<nat>,
) -> (moved: bool)
    requires
        depth <= old(path).len(),
        node.shaped(h),
        valid_path(*node, old(path)@.skip(depth as int)),
    ensures
        final(path)@.len() >= depth,
        final(path)@.take(depth as int) == old(path)@.take(depth as int),
        valid_path(*node, final(path)@.skip(depth as int)),
        moved <==> leaf_start(*node, old(path)@.skip(depth as int)) + leaf_entries(
            *node,
            old(path)@.skip(depth as int),
        ).len() < node.entries().len(),
        moved ==> leaf_start(*node, final(path)@.skip(depth as int)) == leaf_start(
            *node,
            old(path)@.skip(depth as int),
        ) + leaf_entries(*node, old(path)@.skip(depth as int)).len(),
        !moved ==> final(path)@ == old(path)@,
    decreases h,
{
    match node {
        Node::Leaf { .. } => false,
        Node::Internal { keys, edges } => {
            let ghost d = depth as int;
            let ghost path0 = path@;
            let c: usize = path[depth];
            proof {
                assert(path0.skip(d).drop_first() =~= path0.skip(d + 1));
                assert(edges@[c as int].full((h - 1) as nat));
                lemma_concat_at(edges@, c as int);
                lemma_leaf_entries(*edges@[c as int], path0.skip(d + 1));
            }
            if next_leaf(&edges[c], path, depth + 1, Ghost((h - 1) as nat)) {
                proof {
                    assert(path@.skip(d).drop_first() =~= path@.skip(d + 1));
                    assert(path@.take(d + 1)[d] == path0.take(d + 1)[d]);
                    assert(path@.take(d) =~= path@.take(d + 1).take(d));
                    assert(path0.take(d) =~= path0.take(d + 1).take(d));
                }
                true
            } else if c + 1 < edges.len() {
                assert(edges@[c + 1].full((h - 1) as nat));
                path.truncate(depth);
                path.push(c + 1);
                let ghost path1 = path@;
                first_leaf(&edges[c + 1], path, Ghost((h - 1) as nat));
                proof {
                    assert(path@.skip(d).drop_first() =~= path@.skip(d + 1));
                    assert(path@.take(d + 1)[d] == path1[d]);
                    assert(path@.take(d) =~= path@.take(d + 1).take(d));
                    assert(path0.take(d) =~= path1.take(d));
                    assert(edges@.skip(c + 1)[0] == edges@[c + 1]);
                    lemma_concat_at(edges@.skip(c + 1), 0);
                    crate::node::lemma_entries_len(*edges@[c + 1], (h - 1) as nat);
                    assert(edges@.skip(c + 1).take(0) =~= Seq::empty());
                }
                true
            } else {
                assert(edges@.skip(c + 1) =~= Seq::empty());
                false
            }
        },
    }
}

/// Goes from the leaf that `path` leads to back to the one before it, if there is one.
pub fn prev_leaf<K, V>(
    node: &Node<K, V>,
    path: &mut Vec<usize>,
    depth: usize,
    Ghost(h): Ghost<nat>,
) -> (moved: bool)
    requires
        depth <= old(path).len(),
        node.shaped(h),
        valid_path(*node, old(path)@.skip(depth as int)),
    ensures
        final(path)@.len() >= depth,
        final(path)@.take(depth as int) == old(path)@.take(depth as int),
        valid_path(*node, final(path)@.skip(depth as int)),
        moved <==> leaf_start(*node, old(path)@.skip(depth as int)) > 0,
        moved ==> leaf_start(*node, final(path)@.skip(depth as int)) + leaf_entries(
            *node,
            final(path)@.skip(depth as int),
        ).len() == leaf_start(*node, old(path)@.skip(depth as int)),
        !moved ==> final(path)@ == old(path)@,
    decreases h,
{
    match node {
        Node::Leaf { .. } => false,
        Node::Internal { keys, edges } => {
            let ghost d = depth as int;
            let ghost path0 = path@;
            let c: usize = path[depth];
            proof {
                assert(path0.skip(d).drop_first() =~= path0.skip(d + 1));
                assert(edges@[c as int].full((h - 1) as nat));
            }
            if prev_leaf(&edges[c], path, depth + 1, Ghost((h - 1) as nat)) {
                proof {
                    assert(path@.skip(d).drop_first() =~= path@.skip(d + 1));
                    assert(path@.take(d + 1)[d] == path0.take(d + 1)[d]);
                    assert(path@.take(d) =~= path@.take(d + 1).take(d));
                    assert(path0.take(d) =~= path0.take(d + 1).take(d));
                }
                true
            } else if c > 0 {
                assert(edges@[c - 1].full((h - 1) as nat));
                path.truncate(depth);
                path.push(c - 1);
                let ghost path1 = path@;
                last_leaf(&edges[c - 1], path, Ghost((h - 1) as nat));
                proof {
                    assert(path@.skip(d).drop_first() =~= path@.skip(d + 1));
                    assert(path@.take(d + 1)[d] == path1[d]);
                    assert(path@.take(d) =~= path@.take(d + 1).take(d));
                    assert(path0.take(d) =~= path1.take(d));
                    lemma_concat_at(edges@, c - 1);
                    crate::node::lemma_entries_len(*edges@[c - 1], (h - 1) as nat);
                }
                true
            } else {
                assert(edges@.take(0) =~= Seq::empty());
                false
            }
        },
    }
}

} // verus!
