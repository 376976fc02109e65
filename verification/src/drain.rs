//! Taking a tree apart, entry by entry, from both ends.

use crate::node::{concat, lemma_concat_at, Node};
use crate::store::BTreeStore;
use vstd::prelude::*;

verus! {

/// Every leaf below this node, all of them `h` levels down, still has entries.
///
/// A tree that is taken apart keeps no lower bound on the number of entries of a node.
pub open spec fn populated<K, V>(node: Node<K, V>, h: nat) -> bool
    decreases h,
{
    match node {
        Node::Leaf { entries } => h == 0 && entries@.len() > 0,
        Node::Internal { keys, edges } => {
            &&& h > 0
            &&& edges@.len() == keys@.len() + 1
            &&& forall|i: int|
                0 <= i < edges@.len() ==> populated(*#[trigger] edges@[i], (h - 1) as nat)
        },
    }
}

/// A tree of at least one entry is populated.
pub proof fn lemma_populated<K, V>(node: Node<K, V>, h: nat)
    requires
        node.shaped(h),
        node.count() >= 1,
    ensures
        populated(node, h),
    decreases h,
{
    if let Node::Internal { keys, edges } = node {
        assert forall|i: int| 0 <= i < edges@.len() implies populated(
            *#[trigger] edges@[i],
            (h - 1) as nat,
        ) by {
            assert(edges@[i].full((h - 1) as nat));
            lemma_populated(*edges@[i], (h - 1) as nat);
        }
    }
}

/// A populated tree has entries.
pub proof fn lemma_populated_len<K, V>(node: Node<K, V>, h: nat)
    requires
        populated(node, h),
    ensures
        node.entries().len() > 0,
    decreases h,
{
    if let Node::Internal { keys, edges } = node {
        assert(populated(*edges@[0], (h - 1) as nat));
        lemma_populated_len(*edges@[0], (h - 1) as nat);
        lemma_concat_at(edges@, 0);
    }
}

/// How many nodes below `node` are exhausted when its first entry is taken out: those on the way to
/// the first leaf that hold nothing else.
pub open spec fn exhausted_first<K, V>(node: Node<K, V>) -> nat
    decreases node,
{
    match node {
        Node::Leaf { .. } => 0,
        Node::Internal { edges, .. } => if edges@.len() == 0 {
            0
        } else {
            exhausted_first(*edges@[0]) + if edges@[0].entries().len() == 1 {
                1nat
            } else {
                0
            }
        },
    }
}

/// How many nodes below `node` are exhausted when its last entry is taken out.
pub open spec fn exhausted_last<K, V>(node: Node<K, V>) -> nat
    decreases node,
{
    match node {
        Node::Leaf { .. } => 0,
        Node::Internal { edges, .. } => if edges@.len() == 0 {
            0
        } else {
            exhausted_last(*edges@[edges@.len() - 1]) + if edges@[edges@.len()
                - 1].entries().len() == 1 {
                1nat
            } else {
                0
            }
        },
    }
}

/// Nodes that hold nothing have been added to `before`: a leaf, the node above it, and so on, `n`
/// in all.
pub open spec fn handed_out<K, V>(
    before: Seq<Box<Node<K, V>>>,
    after: Seq<Box<Node<K, V>>>,
    n: nat,
) -> bool {
    &&& after.len() == before.len() + n
    &&& after.take(before.len() as int) == before
    &&& forall|j: int|
        before.len() <= j < after.len() ==> (#[trigger] after[j]).vacant() && (*after[j] is Leaf
            <==> j == before.len())
}

/// One more node is added on top of those handed out.
proof fn lemma_handed_out_push<K, V>(
    before: Seq<Box<Node<K, V>>>,
    after: Seq<Box<Node<K, V>>>,
    n: nat,
    node: Box<Node<K, V>>,
)
    requires
        handed_out(before, after, n),
        node.vacant(),
        *node is Leaf <==> n == 0,
    ensures
        handed_out(before, after.push(node), n + 1),
{
    assert(after.push(node).take(before.len() as int) =~= after.take(before.len() as int));
}

/// If a single entry is left, all nodes on the way to it are exhausted with it: one per level.
proof fn lemma_exhausted_first<K, V>(node: Node<K, V>, h: nat)
    requires
        populated(node, h),
        node.entries().len() == 1,
    ensures
        exhausted_first(node) == h,
    decreases h,
{
    if let Node::Internal { edges, .. } = node {
        assert(populated(*edges@[0], (h - 1) as nat));
        lemma_populated_len(*edges@[0], (h - 1) as nat);
        lemma_concat_at(edges@, 0);
        lemma_exhausted_first(*edges@[0], (h - 1) as nat);
    }
}

proof fn lemma_exhausted_last<K, V>(node: Node<K, V>, h: nat)
    requires
        populated(node, h),
        node.entries().len() == 1,
    ensures
        exhausted_last(node) == h,
    decreases h,
{
    if let Node::Internal { edges, .. } = node {
        let i = edges@.len() - 1;
        assert(populated(*edges@[i], (h - 1) as nat));
        lemma_populated_len(*edges@[i], (h - 1) as nat);
        lemma_concat_at(edges@, i);
        lemma_exhausted_last(*edges@[i], (h - 1) as nat);
    }
}

/// Takes the first entry out of a tree. Nodes below that are exhausted are handed out, from the
/// leaf upwards.
pub fn take_first<K, V>(
    node: &mut Node<K, V>,
    out: &mut Vec<Box<Node<K, V>>>,
    Ghost(h): Ghost<nat>,
) -> (r: ((K, V), bool))
    requires
        populated(*old(node), h),
    ensures
        old(node).entries().len() > 0,
        r.0 == old(node).entries()[0],
        final(node).entries() == old(node).entries().drop_first(),
        r.1 <==> final(node).entries().len() == 0,
        r.1 ==> final(node).vacant(),
        !r.1 ==> populated(*final(node), h),
        *final(node) is Leaf <==> *old(node) is Leaf,
        handed_out(old(out)@, final(out)@, exhausted_first(*old(node))),
    decreases h,
{
    let ghost node0 = *node;
    proof {
        lemma_populated_len(node0, h);
        assert(out@.take(out@.len() as int) =~= out@);
    }
    match node {
        Node::Leaf { entries } => {
            let entry = entries.remove(0);
            assert(entries@ =~= node0.entries().drop_first());
            (entry, entries.len() == 0)
        },
        Node::Internal { keys, edges } => {
            let ghost edges0 = edges@;
            let ghost rest = edges0.skip(1);
            proof {
                assert(populated(*edges0[0], (h - 1) as nat));
                lemma_concat_at(edges0, 0);
                assert(edges0.take(0) =~= Seq::empty());
                assert(concat(edges0.take(0)) =~= Seq::<(K, V)>::empty());
            }
            let (entry, empty) = take_first(&mut *edges[0], out, Ghost((h - 1) as nat));
            let ghost edges1 = edges@;
            proof {
                lemma_concat_at(edges1, 0);
                assert(edges1.take(0) =~= Seq::empty());
                assert(edges1.skip(1) =~= rest);
                assert(concat(edges1) =~= concat(edges0).drop_first());
                assert forall|i: int| 1 <= i < edges1.len() implies populated(
                    *#[trigger] edges1[i],
                    (h - 1) as nat,
                ) by {
                    assert(edges1[i] == edges0[i]);
                }
            }
            if empty {
                let child = edges.remove(0);
                proof {
                    lemma_exhausted_first(*edges0[0], (h - 1) as nat);
                    lemma_handed_out_push(old(out)@, out@, (h - 1) as nat, child);
                }
                out.push(child);
                assert(edges@ =~= rest);
                assert forall|i: int| 0 <= i < edges@.len() implies populated(
                    *#[trigger] edges@[i],
                    (h - 1) as nat,
                ) by {
                    assert(edges@[i] == edges1[i + 1]);
                }
                if keys.len() > 0 {
                    keys.remove(0);
                    proof {
                        assert(populated(*edges@[0], (h - 1) as nat));
                        lemma_populated_len(*edges@[0], (h - 1) as nat);
                        lemma_concat_at(edges@, 0);
                    }
                    (entry, false)
                } else {
                    assert(edges@ =~= Seq::empty());
                    (entry, true)
                }
            } else {
                (entry, false)
            }
        },
    }
}

/// Takes the last entry out of a tree. Nodes below that are exhausted are handed out, from the
/// leaf upwards.
pub fn take_last<K, V>(
    node: &mut Node<K, V>,
    out: &mut Vec<Box<Node<K, V>>>,
    Ghost(h): Ghost<nat>,
) -> (r: ((K, V), bool))
    requires
        populated(*old(node), h),
    ensures
        old(node).entries().len() > 0,
        r.0 == old(node).entries().last(),
        final(node).entries() == old(node).entries().drop_last(),
        r.1 <==> final(node).entries().len() == 0,
        r.1 ==> final(node).vacant(),
        !r.1 ==> populated(*final(node), h),
        *final(node) is Leaf <==> *old(node) is Leaf,
        handed_out(old(out)@, final(out)@, exhausted_last(*old(node))),
    decreases h,
{
    let ghost node0 = *node;
    proof {
        lemma_populated_len(node0, h);
        assert(out@.take(out@.len() as int) =~= out@);
    }
    match node {
        Node::Leaf { entries } => {
            let entry = entries.pop().unwrap();
            assert(entries@ =~= node0.entries().drop_last());
            (entry, entries.len() == 0)
        },
        Node::Internal { keys, edges } => {
            let ghost edges0 = edges@;
            let last: usize = edges.len() - 1;
            let ghost init = edges0.drop_last();
            proof {
                assert(populated(*edges0[last as int], (h - 1) as nat));
                lemma_populated_len(*edges0[last as int], (h - 1) as nat);
            }
            let (entry, empty) = take_last(&mut *edges[last], out, Ghost((h - 1) as nat));
            let ghost edges1 = edges@;
            proof {
                assert(edges1.drop_last() =~= init);
                assert(concat(edges1) =~= concat(edges0).drop_last());
                assert forall|i: int| 0 <= i < last implies populated(
                    *#[trigger] edges1[i],
                    (h - 1) as nat,
                ) by {
                    assert(edges1[i] == edges0[i]);
                }
            }
            if empty {
                let child = edges.pop().unwrap();
                proof {
                    lemma_exhausted_last(*edges0[last as int], (h - 1) as nat);
                    lemma_handed_out_push(old(out)@, out@, (h - 1) as nat, child);
                }
                out.push(child);
                assert(edges@ =~= init);
                assert forall|i: int| 0 <= i < edges@.len() implies populated(
                    *#[trigger] edges@[i],
                    (h - 1) as nat,
                ) by {
                    assert(edges@[i] == edges1[i]);
                }
                if keys.len() > 0 {
                    keys.pop();
                    proof {
                        assert(populated(*edges@[0], (h - 1) as nat));
                        lemma_populated_len(*edges@[0], (h - 1) as nat);
                        lemma_concat_at(edges@, 0);
                    }
                    (entry, false)
                } else {
                    assert(edges@ =~= Seq::empty());
                    (entry, true)
                }
            } else {
                (entry, false)
            }
        },
    }
}

/// For each node of a tree, those below a node before it, whether it is a leaf.
pub open spec fn kinds<K, V>(node: Node<K, V>) -> Seq<bool>
    decreases node,
{
    match node {
        Node::Leaf { .. } => seq![true],
        Node::Internal { edges, .. } => edge_kinds(edges@).push(false),
    }
}

/// The same for all nodes under a sequence of edges, from left to right.
pub open spec fn edge_kinds<K, V>(edges: Seq<Box<Node<K, V>>>) -> Seq<bool>
    decreases edges,
{
    if edges.len() == 0 {
        Seq::empty()
    } else {
        kinds(*edges[0]) + edge_kinds(edges.subrange(1, edges.len() as int))
    }
}

/// Nodes of these kinds that hold nothing have been added to `before`.
pub open spec fn cleared<K, V>(
    before: Seq<Box<Node<K, V>>>,
    after: Seq<Box<Node<K, V>>>,
    kinds: Seq<bool>,
) -> bool {
    &&& after.len() == before.len() + kinds.len()
    &&& after.take(before.len() as int) == before
    &&& forall|j: int|
        before.len() <= j < after.len() ==> (#[trigger] after[j]).vacant() && (*after[j] is Leaf
            <==> kinds[j - before.len()])
}

/// What was added in two steps.
proof fn lemma_cleared_add<K, V>(
    a: Seq<Box<Node<K, V>>>,
    b: Seq<Box<Node<K, V>>>,
    c: Seq<Box<Node<K, V>>>,
    first: Seq<bool>,
    second: Seq<bool>,
)
    requires
        cleared(a, b, first),
        cleared(b, c, second),
    ensures
        cleared(a, c, first + second),
{
    let n = a.len() as int;
    let m = b.len() as int;
    assert(c.take(n) =~= c.take(m).take(n));
    assert forall|j: int| n <= j < c.len() implies (#[trigger] c[j]).vacant() && (*c[j] is Leaf
        <==> (first + second)[j - n]) by {
        if j < m {
            assert(c[j] == c.take(m)[j]);
            assert(b[j].vacant());
        }
    }
}

/// Drops all that a tree holds. Its nodes are handed out, those below a node before it.
pub fn drop_node<K, V>(node: Box<Node<K, V>>, out: &mut Vec<Box<Node<K, V>>>)
    ensures
        cleared(old(out)@, final(out)@, kinds(*node)),
    decreases *node, 1nat,
{
    let ghost node0 = *node;
    let ghost out0 = out@;
    let mut node = node;
    clear_node(&mut *node, out);
    let ghost out1 = out@;
    out.push(node);
    proof {
        let below = match node0 {
            Node::Leaf { .. } => Seq::<bool>::empty(),
            Node::Internal { edges, .. } => edge_kinds(edges@),
        };
        assert(out@.take(out1.len() as int) =~= out1);
        assert(cleared(out1, out@, seq![node0 is Leaf]));
        lemma_cleared_add(out0, out1, out@, below, seq![node0 is Leaf]);
        assert(below + seq![node0 is Leaf] =~= kinds(node0));
    }
}

/// Drops all that a node and those below it hold. Those below it are handed out.
fn clear_node<K, V>(node: &mut Node<K, V>, out: &mut Vec<Box<Node<K, V>>>)
    ensures
        final(node).vacant(),
        *final(node) is Leaf <==> *old(node) is Leaf,
        cleared(
            old(out)@,
            final(out)@,
            match *old(node) {
                Node::Leaf { .. } => Seq::<bool>::empty(),
                Node::Internal { edges, .. } => edge_kinds(edges@),
            },
        ),
    decreases *old(node), 0nat,
{
    match node {
        Node::Leaf { entries } => {
            entries.clear();
            assert(out@.take(out@.len() as int) =~= out@);
        },
        Node::Internal { keys, edges } => {
            keys.clear();
            drop_edges(edges, out);
        },
    }
}

/// Drops all that is under the edges, from left to right. The nodes are handed out.
fn drop_edges<K, V>(edges: &mut Vec<Box<Node<K, V>>>, out: &mut Vec<Box<Node<K, V>>>)
    ensures
        final(edges)@.len() == 0,
        cleared(old(out)@, final(out)@, edge_kinds(old(edges)@)),
    decreases old(edges)@, 0nat,
{
    let ghost out0 = out@;
    if edges.len() > 0 {
        let child = edges.remove(0);
        drop_node(child, out);
        let ghost out1 = out@;
        let ghost rest = edges@;
        assert(rest =~= old(edges)@.subrange(1, old(edges)@.len() as int));
        drop_edges(edges, out);
        proof {
            lemma_cleared_add(out0, out1, out@, kinds(*child), edge_kinds(rest));
        }
    } else {
        assert(out@.take(out@.len() as int) =~= out@);
    }
}

/// An iterator that takes the key-value pairs out of a map, in order.
pub struct IntoIter<'store, K, V> {
    store: &'store BTreeStore<K, V>,
    root: Option<Box<Node<K, V>>>,
    length: usize,
    height: Ghost<nat>,
}

impl<'store, K, V> View for IntoIter<'store, K, V> {
    type V = Seq<(K, V)>;

    /// The entries that are still to come.
    closed spec fn view(&self) -> Seq<(K, V)> {
        match self.root {
            Some(root) => root.entries(),
            None => Seq::empty(),
        }
    }
}

impl<'store, K, V> IntoIter<'store, K, V> {
    /// What is left of the tree is populated, and the number of its entries is recorded.
    pub closed spec fn wf(&self) -> bool {
        match self.root {
            Some(root) => populated(*root, self.height@) && self.length == root.entries().len(),
            None => self.length == 0,
        }
    }

    pub(crate) fn new(
        store: &'store BTreeStore<K, V>,
        root: Option<Box<Node<K, V>>>,
        length: usize,
        Ghost(h): Ghost<nat>,
    ) -> (iter: Self)
        requires
            match root {
                Some(node) => node.shaped(h) && node.count() >= 1 && length == node.entries().len(),
                None => length == 0,
            },
        ensures
            iter.wf(),
            iter@ == match root {
                Some(node) => node.entries(),
                None => Seq::empty(),
            },
    {
        proof {
            if root is Some {
                lemma_populated(*root->0, h);
            }
        }
        IntoIter { store, root, length, height: Ghost(h) }
    }

    /// Takes the next element out.
    pub fn next(&mut self) -> (r: Option<(K, V)>)
        requires
            old(self).wf(),
        ensures
            final(self).wf(),
            old(self)@.len() == 0 ==> r is None && final(self)@ == old(self)@,
            old(self)@.len() > 0 ==> r == Some(old(self)@[0]) && final(self)@
                == old(self)@.drop_first(),
    {
        match self.root.take() {
            Some(mut root) => {
                let mut exhausted: Vec<Box<Node<K, V>>> = Vec::new();
                let (entry, empty) = take_first(&mut *root, &mut exhausted, self.height);
                self.length = self.length - 1;
                if empty {
                    exhausted.push(root);
                } else {
                    self.root = Some(root);
                }
                self.store.give_back_all(exhausted);
                assert(self@ =~= old(self)@.drop_first());
                Some(entry)
            },
            None => None,
        }
    }

    /// Takes the last element out.
    pub fn next_back(&mut self) -> (r: Option<(K, V)>)
        requires
            old(self).wf(),
        ensures
            final(self).wf(),
            old(self)@.len() == 0 ==> r is None && final(self)@ == old(self)@,
            old(self)@.len() > 0 ==> r == Some(old(self)@.last()) && final(self)@
                == old(self)@.drop_last(),
    {
        match self.root.take() {
            Some(mut root) => {
                let mut exhausted: Vec<Box<Node<K, V>>> = Vec::new();
                let (entry, empty) = take_last(&mut *root, &mut exhausted, self.height);
                self.length = self.length - 1;
                if empty {
                    exhausted.push(root);
                } else {
                    self.root = Some(root);
                }
                self.store.give_back_all(exhausted);
                assert(self@ =~= old(self)@.drop_last());
                Some(entry)
            },
            None => None,
        }
    }

    /// The number of elements that are still to come.
    pub fn len(&self) -> (n: usize)
        requires
            self.wf(),
        ensures
            n == self@.len(),
    {
        self.length
    }

    /// The number of elements that are still to come, as lower and upper bound.
    pub fn size_hint(&self) -> (r: (usize, Option<usize>))
        requires
            self.wf(),
        ensures
            r.0 == self@.len(),
            r.1 == Some(r.0),
    {
        (self.length, Some(self.length))
    }
}

} // verus!
