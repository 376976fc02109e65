//! Taking back the removal of an entry: what a removal records, and how the tree is set right.

use crate::node::{concat, lemma_concat_at, M, Node};
use crate::path::{leaf_entries, leaf_start, lemma_leaf_entries, replaced, valid_path};
use crate::shrink::loses_key;
use crate::values::{lemma_same_layout_refl, same_layout};
use vstd::prelude::*;

verus! {

/// How a node was refilled: edges `at` and `at + 1` shared what they held, or were merged.
pub struct Mend<K, V> {
    pub at: usize,
    /// What edge `at` held before.
    pub left: usize,
    /// The key that was between the two, if they are leaves. That of internal nodes is in one of
    /// them, or still between them.
    pub sep: Option<K>,
    /// The node of the second, if it was merged into the first.
    pub spare: Option<Box<Node<K, V>>>,
}

/// What happened to an internal node on the way to a removed entry.
pub struct Step<K, V> {
    pub mend: Option<Mend<K, V>>,
    /// The edge on the way, when the entry had been removed under it.
    pub child: Ghost<Box<Node<K, V>>>,
}

impl<K, V> Step<K, V> {
    /// A node has been emptied.
    pub open spec fn spares(self) -> bool {
        self.mend matches Some(mend) && mend.spare is Some
    }
}

/// An internal node has one more edge than keys.
pub open spec fn well_edged<K, V>(node: Node<K, V>) -> bool {
    match node {
        Node::Leaf { .. } => true,
        Node::Internal { keys, edges } => edges@.len() == keys@.len() + 1,
    }
}

/// The two nodes hold the same.
pub open spec fn same_parts<K, V>(a: Node<K, V>, b: Node<K, V>) -> bool {
    match (a, b) {
        (Node::Leaf { entries: x }, Node::Leaf { entries: y }) => x@ == y@,
        (
            Node::Internal { keys: xk, edges: xe },
            Node::Internal { keys: yk, edges: ye },
        ) => xk@ == yk@ && xe@ == ye@,
        _ => false,
    }
}

/// `node` holds all that `left` and `right` hold, and `sep` between them if they are internal
/// nodes.
pub open spec fn joins<K, V>(
    node: Node<K, V>,
    left: Node<K, V>,
    sep: K,
    right: Node<K, V>,
) -> bool {
    match (node, left, right) {
        (
            Node::Leaf { entries },
            Node::Leaf { entries: l },
            Node::Leaf { entries: r },
        ) => entries@ == l@ + r@,
        (
            Node::Internal { keys, edges },
            Node::Internal { keys: lk, edges: le },
            Node::Internal { keys: rk, edges: re },
        ) => keys@ == lk@.push(sep) + rk@ && edges@ == le@ + re@,
        _ => false,
    }
}

/// The pairs hold the same, divided differently.
pub open spec fn same_pair<K, V>(
    left1: Node<K, V>,
    sep1: K,
    right1: Node<K, V>,
    left2: Node<K, V>,
    sep2: K,
    right2: Node<K, V>,
) -> bool {
    match (left1, right1, left2, right2) {
        (
            Node::Leaf { entries: l1 },
            Node::Leaf { entries: r1 },
            Node::Leaf { entries: l2 },
            Node::Leaf { entries: r2 },
        ) => l1@ + r1@ == l2@ + r2@,
        (
            Node::Internal { keys: lk1, edges: le1 },
            Node::Internal { keys: rk1, edges: re1 },
            Node::Internal { keys: lk2, edges: le2 },
            Node::Internal { keys: rk2, edges: re2 },
        ) => {
            &&& lk1@.push(sep1) + rk1@ == lk2@.push(sep2) + rk2@
            &&& le1@ + re1@ == le2@ + re2@
        },
        _ => false,
    }
}

/// `mend` says how `keys` and `edges` have come from `keys0` and `edges0`.
pub open spec fn records<K, V>(
    mend: Mend<K, V>,
    keys: Seq<K>,
    edges: Seq<Box<Node<K, V>>>,
    keys0: Seq<K>,
    edges0: Seq<Box<Node<K, V>>>,
) -> bool {
    let i = mend.at as int;
    &&& edges0.len() == keys0.len() + 1
    &&& i < keys0.len()
    &&& well_edged(*edges0[i])
    &&& well_edged(*edges0[i + 1])
    &&& mend.left == edges0[i].count()
    &&& mend.sep == if *edges0[i] is Leaf {
        Some(keys0[i])
    } else {
        None
    }
    &&& match mend.spare {
        None => {
            &&& keys == keys0.update(i, keys[i])
            &&& edges == edges0.update(i, edges[i]).update(i + 1, edges[i + 1])
            &&& same_pair(
                *edges[i],
                keys[i],
                *edges[i + 1],
                *edges0[i],
                keys0[i],
                *edges0[i + 1],
            )
        },
        Some(spare) => {
            &&& keys == keys0.remove(i)
            &&& edges == edges0.update(i, edges[i]).remove(i + 1)
            &&& joins(*edges[i], *edges0[i], keys0[i], *edges0[i + 1])
            &&& spare.vacant()
            &&& *spare is Leaf <==> *edges0[i] is Leaf
        },
    }
}

/// `node` is what has become of `node0` when entry `idx` of the leaf that `path` leads to was
/// removed, and the last steps say how. A step spares a node exactly if its node lost a key.
pub open spec fn removal<K, V>(
    node: Node<K, V>,
    steps: Seq<Step<K, V>>,
    node0: Node<K, V>,
    path: Seq<usize>,
    idx: int,
) -> bool
    decreases node0,
{
    match (node, node0) {
        (Node::Leaf { entries }, Node::Leaf { entries: entries0 }) => {
            0 <= idx < entries0@.len() && entries@ == entries0@.remove(idx)
        },
        (
            Node::Internal { keys, edges },
            Node::Internal { keys: keys0, edges: edges0 },
        ) => {
            &&& path.len() > 0
            &&& path[0] < edges0@.len()
            &&& steps.len() > 0
            &&& {
                let c = path[0] as int;
                let child = steps.last().child@;
                let edges1 = edges0@.update(c, child);
                &&& match steps.last().mend {
                    None => keys@ == keys0@ && edges@ == edges1,
                    Some(mend) => records(mend, keys@, edges@, keys0@, edges1),
                }
                &&& steps.last().mend is Some <==> child.count() < M / 2
                &&& steps.last().spares() <==> loses_key(node0, path)
                &&& removal(*child, steps.drop_last(), *edges0@[c], path.drop_first(), idx)
            }
        },
        _ => false,
    }
}

/// Nodes that hold the same have the same layout and the same entries.
pub proof fn lemma_same_parts<K, V>(a: Node<K, V>, b: Node<K, V>)
    requires
        same_parts(a, b),
    ensures
        same_layout(a, b),
        a.entries() == b.entries(),
{
    if let Node::Internal { edges, .. } = a {
        assert forall|i: int| 0 <= i < edges@.len() implies same_layout(
            *#[trigger] edges@[i],
            *edges@[i],
        ) by {
            lemma_same_layout_refl(*edges@[i]);
        }
    }
}

/// A removal may be taken back from any node that holds the same.
pub proof fn lemma_removal_parts<K, V>(
    a: Node<K, V>,
    b: Node<K, V>,
    steps: Seq<Step<K, V>>,
    node0: Node<K, V>,
    path: Seq<usize>,
    idx: int,
)
    requires
        same_parts(a, b),
        removal(b, steps, node0, path, idx),
    ensures
        removal(a, steps, node0, path, idx),
{
}

/// If the leaf can do without the entry, nothing but the leaf changes.
pub proof fn lemma_removal_quiet<K, V>(
    node: Node<K, V>,
    steps: Seq<Step<K, V>>,
    node0: Node<K, V>,
    path: Seq<usize>,
    idx: int,
    h: nat,
)
    requires
        node0.shaped(h),
        valid_path(node0, path),
        removal(node, steps, node0, path, idx),
        leaf_entries(node0, path).len() > if path.len() == 0 {
            1
        } else {
            (M / 2) as nat
        },
    ensures
        replaced(node0, node, path, leaf_entries(node0, path).remove(idx)),
        node.count() + if path.len() == 0 {
            1nat
        } else {
            0
        } == node0.count(),
    decreases node0,
{
    if let (Node::Internal { .. }, Node::Internal { edges: edges0, .. }) = (node, node0) {
        let c = path[0] as int;
        let child = steps.last().child@;
        let rest = path.drop_first();
        assert(edges0@[c].full((h - 1) as nat));
        assert(leaf_entries(node0, path) == leaf_entries(*edges0@[c], rest));
        lemma_removal_quiet(*child, steps.drop_last(), *edges0@[c], rest, idx, (h - 1) as nat);
        assert(child.count() >= M / 2);
    }
}

/// The nodes that a removal spares hold nothing.
pub proof fn lemma_spares_vacant<K, V>(
    node: Node<K, V>,
    steps: Seq<Step<K, V>>,
    node0: Node<K, V>,
    path: Seq<usize>,
    idx: int,
)
    requires
        valid_path(node0, path),
        removal(node, steps, node0, path, idx),
        steps.len() == path.len(),
    ensures
        forall|j: int|
            0 <= j < steps.len() ==> (#[trigger] steps[j]).spares()
                ==> steps[j].mend->0.spare->0.vacant(),
    decreases node0,
{
    if let (Node::Internal { .. }, Node::Internal { edges: edges0, .. }) = (node, node0) {
        let c = path[0] as int;
        lemma_spares_vacant(
            *steps.last().child@,
            steps.drop_last(),
            *edges0@[c],
            path.drop_first(),
            idx,
        );
        assert forall|j: int|
            0 <= j < steps.len() && (#[trigger] steps[j]).spares()
                implies steps[j].mend->0.spare->0.vacant() by {
            if j < steps.len() - 1 {
                assert(steps[j] == steps.drop_last()[j]);
            }
        }
    }
}

/// Moves all that `right` holds, and the key before it if they are internal nodes, to the back of
/// `left`. The key before a leaf is returned.
pub fn join<K, V>(left: &mut Node<K, V>, sep: K, right: &mut Node<K, V>) -> (unused: Option<K>)
    requires
        *old(left) is Leaf <==> *old(right) is Leaf,
    ensures
        joins(*final(left), *old(left), sep, *old(right)),
        final(right).vacant(),
        *final(right) is Leaf <==> *old(right) is Leaf,
        unused == if *old(left) is Leaf {
            Some(sep)
        } else {
            None
        },
{
    match left {
        Node::Leaf { entries: l } => match right {
            Node::Leaf { entries: r } => {
                l.append(r);
                Some(sep)
            },
            Node::Internal { .. } => {
                assert(false);
                None
            },
        },
        Node::Internal { keys: lk, edges: le } => match right {
            Node::Internal { keys: rk, edges: re } => {
                lk.push(sep);
                lk.append(rk);
                le.append(re);
                None
            },
            Node::Leaf { .. } => {
                assert(false);
                None
            },
        },
    }
}

/// Moves all but the first `n` of what `node` holds into `right`. The key between the two is
/// returned if they are internal nodes.
fn cut<K, V>(
    node: &mut Node<K, V>,
    n: usize,
    right: &mut Node<K, V>,
    Ghost(left0): Ghost<Node<K, V>>,
    Ghost(sep0): Ghost<K>,
    Ghost(right0): Ghost<Node<K, V>>,
) -> (sep: Option<K>)
    requires
        joins(*old(node), left0, sep0, right0),
        well_edged(left0),
        well_edged(right0),
        n == left0.count(),
        *old(right) is Leaf <==> *old(node) is Leaf,
    ensures
        same_parts(*final(node), left0),
        same_parts(*final(right), right0),
        sep == if left0 is Leaf {
            None
        } else {
            Some(sep0)
        },
{
    match node {
        Node::Leaf { entries: l } => match right {
            Node::Leaf { entries: r } => {
                *r = l.split_off(n);
                proof {
                    let l0 = left0->Leaf_entries@;
                    let r0 = right0->Leaf_entries@;
                    assert(l@ =~= l0);
                    assert(r@ =~= r0);
                }
                None
            },
            Node::Internal { .. } => {
                assert(false);
                None
            },
        },
        Node::Internal { keys: lk, edges: le } => match right {
            Node::Internal { keys: rk, edges: re } => {
                assert(n < lk.len());
                *rk = lk.split_off(n + 1);
                *re = le.split_off(n + 1);
                let sep = lk.pop();
                proof {
                    let (lk0, le0) = (left0->keys@, left0->edges@);
                    let (rk0, re0) = (right0->keys@, right0->edges@);
                    assert((lk0.push(sep0) + rk0)[n as int] == sep0);
                    assert(lk@ =~= lk0);
                    assert(rk@ =~= rk0);
                    assert(le@ =~= le0);
                    assert(re@ =~= re0);
                }
                sep
            },
            Node::Leaf { .. } => {
                assert(false);
                None
            },
        },
    }
}

/// Undoes what `mend` records.
fn mend_edges<K, V>(
    keys: &mut Vec<K>,
    edges: &mut Vec<Box<Node<K, V>>>,
    mend: Mend<K, V>,
    Ghost(keys0): Ghost<Seq<K>>,
    Ghost(edges0): Ghost<Seq<Box<Node<K, V>>>>,
)
    requires
        records(mend, old(keys)@, old(edges)@, keys0, edges0),
    ensures
        final(keys)@ == keys0,
        final(edges)@.len() == edges0.len(),
        forall|j: int|
            0 <= j < edges0.len() ==> same_parts(*#[trigger] final(edges)@[j], *edges0[j]),
{
    let Mend { at, left, sep, spare } = mend;
    let ghost i = at as int;
    assert(at < edges.len());
    let mut right = match spare {
        Some(right) => right,
        None => {
            let key = keys.remove(at);
            let mut right = edges.remove(at + 1);
            join(&mut *edges[at], key, &mut *right);
            proof {
                assert(keys@ =~= keys0.remove(i));
                assert(edges@ =~= edges0.update(i, edges@[i]).remove(i + 1));
            }
            right
        },
    };
    let ghost edges1 = edges@;
    assert(at < edges.len());
    let key = cut(
        &mut *edges[at],
        left,
        &mut *right,
        Ghost(*edges0[i]),
        Ghost(keys0[i]),
        Ghost(*edges0[i + 1]),
    );
    match key {
        Some(key) => keys.insert(at, key),
        None => match sep {
            Some(key) => keys.insert(at, key),
            None => {},
        },
    }
    edges.insert(at + 1, right);
    proof {
        assert(keys@ =~= keys0);
        assert forall|j: int| 0 <= j < edges0.len() implies same_parts(
            *#[trigger] edges@[j],
            *edges0[j],
        ) by {
            if j < i {
                assert(edges@[j] == edges0[j]);
            } else if j > i + 1 {
                assert(edges@[j] == edges1[j - 1]);
                assert(edges@[j] == edges0[j]);
            }
        }
    }
}

/// The entries under all edges, when one entry under edge `c` has been exchanged.
proof fn lemma_concat_exchange<K, V>(
    edges0: Seq<Box<Node<K, V>>>,
    edges: Seq<Box<Node<K, V>>>,
    c: int,
    at: int,
    entry: (K, V),
)
    requires
        edges.len() == edges0.len(),
        0 <= c < edges0.len(),
        0 <= at < edges0[c].entries().len(),
        edges[c].entries() == edges0[c].entries().update(at, entry),
        forall|j: int|
            0 <= j < edges0.len() && j != c ==> (#[trigger] edges[j]).entries()
                == edges0[j].entries(),
    ensures
        concat(edges) == concat(edges0).update(concat(edges0.take(c)).len() + at, entry),
{
    lemma_concat_at(edges0, c);
    lemma_concat_at(edges, c);
    lemma_concat_congruent(edges0.take(c), edges.take(c));
    lemma_concat_congruent(edges0.skip(c + 1), edges.skip(c + 1));
    assert(concat(edges) =~= concat(edges0).update(concat(edges0.take(c)).len() + at, entry));
}

proof fn lemma_concat_congruent<K, V>(a: Seq<Box<Node<K, V>>>, b: Seq<Box<Node<K, V>>>)
    requires
        a.len() == b.len(),
        forall|j: int| 0 <= j < a.len() ==> (#[trigger] b[j]).entries() == a[j].entries(),
    ensures
        concat(a) == concat(b),
    decreases a.len(),
{
    if a.len() > 0 {
        let n = a.len() - 1;
        assert(b[n].entries() == a[n].entries());
        assert forall|j: int| 0 <= j < n implies (#[trigger] b.drop_last()[j]).entries()
            == a.drop_last()[j].entries() by {
            assert(b[j].entries() == a[j].entries());
        }
        lemma_concat_congruent(a.drop_last(), b.drop_last());
    }
}

/// Takes back the removal of entry `idx` of the leaf that `path`, from step `depth` on, leads to.
/// The entry may come back with another value.
pub fn restore_at<K, V>(
    node: &mut Node<K, V>,
    path: &Vec<usize>,
    depth: usize,
    idx: usize,
    entry: (K, V),
    steps: &mut Vec<Step<K, V>>,
    Ghost(node0): Ghost<Node<K, V>>,
)
    requires
        depth <= path.len(),
        valid_path(node0, path@.skip(depth as int)),
        idx < leaf_entries(node0, path@.skip(depth as int)).len(),
        entry.0 == leaf_entries(node0, path@.skip(depth as int))[idx as int].0,
        removal(*old(node), old(steps)@, node0, path@.skip(depth as int), idx as int),
    ensures
        same_layout(node0, *final(node)),
        final(node).entries() == node0.entries().update(
            leaf_start(node0, path@.skip(depth as int)) + idx,
            entry,
        ),
    decreases path.len() - depth,
{
    match node {
        Node::Leaf { entries } => {
            entries.insert(idx, entry);
            assert(entries@ =~= node0.entries().update(idx as int, entry));
        },
        Node::Internal { keys, edges } => {
            let ghost keys0 = node0->keys@;
            let ghost edges0 = node0->edges@;
            let c: usize = path[depth];
            let ghost ci = c as int;
            let ghost sub = path@.skip(depth + 1);
            assert(path@.skip(depth as int).drop_first() =~= sub);
            let Step { mend, child } = steps.pop().unwrap();
            let ghost edges1 = edges0.update(ci, child@);
            if let Some(mend) = mend {
                mend_edges(keys, edges, mend, Ghost(keys0), Ghost(edges1));
            }
            let ghost edges2 = edges@;
            proof {
                assert(same_parts(*edges2[ci], *edges1[ci]));
                lemma_removal_parts(
                    *edges2[ci],
                    *child@,
                    steps@,
                    *edges0[ci],
                    sub,
                    idx as int,
                );
                lemma_leaf_entries(*edges0[ci], sub);
            }
            restore_at(&mut *edges[c], path, depth + 1, idx, entry, steps, Ghost(*edges0[ci]));
            proof {
                assert forall|j: int| 0 <= j < edges0.len() implies same_layout(
                    *#[trigger] edges0[j],
                    *edges@[j],
                ) && (j != ci ==> edges@[j].entries() == edges0[j].entries()) by {
                    if j != ci {
                        assert(same_parts(*edges2[j], *edges1[j]));
                        lemma_same_parts(*edges1[j], *edges2[j]);
                    }
                }
                lemma_concat_exchange(
                    edges0,
                    edges@,
                    ci,
                    leaf_start(*edges0[ci], sub) + idx,
                    entry,
                );
            }
        },
    }
}

} // verus!
