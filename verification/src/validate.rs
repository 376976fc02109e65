//! Validation: what is wrong with a tree of which nothing is known.

use crate::marks::{in_order, leaf_marks, precedes, separator, weave, Mark};
use crate::node::{concat, lemma_le_lt, lemma_lt_le, M, Node};
use crate::order::{fixed_order, key_le, key_lt, relate, total_order, Relation};
use vstd::prelude::*;

verus! {

/// What can be wrong with a node, or with the tree as a whole.
#[derive(Clone, Copy, Debug, PartialEq, Eq)]
pub enum Fault {
    /// The node has too few entries.
    TooFewEntries,
    /// The node has too many entries.
    TooManyEntries,
    /// Entry `i` of a leaf, or the key before edge `i` of an internal node, is out of order.
    KeyOutOfOrder(usize),
    /// The internal node doesn't have one edge more than it has keys.
    WrongEdges,
    /// The node is a leaf above the lowest level or an internal node on it.
    WrongDepth,
    /// The tree length isn't correct.
    WrongLength,
}

/// Something that is wrong with a tree, and the node where it is, by the edges that lead there.
#[derive(Debug, PartialEq, Eq)]
pub struct Defect {
    pub path: Vec<usize>,
    pub fault: Fault,
}

impl View for Defect {
    type V = (Seq<usize>, Fault);

    open spec fn view(&self) -> (Seq<usize>, Fault) {
        (self.path@, self.fault)
    }
}

/// The views of the defects.
pub open spec fn views(defects: Seq<Defect>) -> Seq<(Seq<usize>, Fault)> {
    defects.map_values(|defect: Defect| defect@)
}

/// `fault` at `path`, if it is there.
pub open spec fn fault_if(wrong: bool, path: Seq<usize>, fault: Fault) -> Seq<(Seq<usize>, Fault)> {
    if wrong {
        seq![(path, fault)]
    } else {
        Seq::empty()
    }
}

/// The level below.
pub open spec fn below(h: Option<nat>) -> Option<nat> {
    match h {
        Some(h) => if h > 0 {
            Some((h - 1) as nat)
        } else {
            None
        },
        None => None,
    }
}

/// Key `i` of a node comes after what a walk has met before.
pub open spec fn order_defects<K: Ord>(
    seen: Seq<Mark<K>>,
    mark: Mark<K>,
    path: Seq<usize>,
    i: int,
) -> Seq<(Seq<usize>, Fault)> {
    fault_if(
        seen.len() > 0 && !precedes(seen.last(), mark),
        path,
        Fault::KeyOutOfOrder(i as usize),
    )
}

/// What is wrong with the order of the entries of a leaf.
pub open spec fn leaf_defects<K: Ord, V>(
    entries: Seq<(K, V)>,
    path: Seq<usize>,
    seen: Seq<Mark<K>>,
) -> Seq<(Seq<usize>, Fault)>
    decreases entries.len(),
{
    if entries.len() == 0 {
        Seq::empty()
    } else {
        leaf_defects(entries.drop_last(), path, seen) + order_defects(
            seen + leaf_marks(entries.drop_last()),
            Mark::Entry(entries.last().0),
            path,
            entries.len() - 1,
        )
    }
}

/// What is wrong with a node by itself, which is to hold `least` entries or more and to be at
/// level `h`.
#[verifier::opaque]
pub open spec fn shape_defects<K, V>(
    node: Node<K, V>,
    path: Seq<usize>,
    h: Option<nat>,
    least: nat,
) -> Seq<(Seq<usize>, Fault)> {
    fault_if(node.count() < least, path, Fault::TooFewEntries) + fault_if(
        node.count() > M,
        path,
        Fault::TooManyEntries,
    ) + match node {
        Node::Leaf { .. } => fault_if(h != Some(0nat), path, Fault::WrongDepth),
        Node::Internal { keys, edges } => fault_if(below(h) is None, path, Fault::WrongDepth)
            + fault_if(edges@.len() != keys@.len() + 1, path, Fault::WrongEdges),
    }
}

/// What is wrong with a node and with those below it, in the order in which a walk that has
/// already met the keys `seen` comes upon it.
pub open spec fn node_defects<K: Ord, V>(
    node: Node<K, V>,
    path: Seq<usize>,
    h: Option<nat>,
    least: nat,
    seen: Seq<Mark<K>>,
) -> Seq<(Seq<usize>, Fault)>
    decreases node,
{
    shape_defects(node, path, h, least) + match node {
        Node::Leaf { entries } => leaf_defects(entries@, path, seen),
        Node::Internal { keys, edges } => edge_defects(keys@, edges@, path, h, seen),
    }
}

/// What is wrong with the keys of an internal node and with the nodes under its edges.
pub open spec fn edge_defects<K: Ord, V>(
    keys: Seq<K>,
    edges: Seq<Box<Node<K, V>>>,
    path: Seq<usize>,
    h: Option<nat>,
    seen: Seq<Mark<K>>,
) -> Seq<(Seq<usize>, Fault)>
    decreases edges,
{
    if edges.len() == 0 {
        Seq::empty()
    } else {
        let i = edges.len() - 1;
        let before = seen + weave(keys, edges.drop_last());
        edge_defects(keys, edges.drop_last(), path, h, seen) + separator_defects(
            keys,
            path,
            before,
            i,
        ) + node_defects(
            *edges.last(),
            path.push(i as usize),
            below(h),
            (M / 2) as nat,
            before + separator(keys, i),
        )
    }
}

/// What is wrong with the order of the key to the left of edge `i`.
pub open spec fn separator_defects<K: Ord>(
    keys: Seq<K>,
    path: Seq<usize>,
    seen: Seq<Mark<K>>,
    i: int,
) -> Seq<(Seq<usize>, Fault)> {
    if 0 < i <= keys.len() {
        order_defects(seen, Mark::Separator(keys[i - 1]), path, i)
    } else {
        Seq::empty()
    }
}

/// What is wrong with a tree that is to have `length` entries and to be of height `height`.
pub open spec fn tree_defects<K: Ord, V>(
    root: Option<Box<Node<K, V>>>,
    length: usize,
    height: usize,
) -> Seq<(Seq<usize>, Fault)> {
    match root {
        Some(root) => node_defects(*root, Seq::empty(), Some(height as nat), 1, Seq::empty())
            + fault_if(length != root.entries().len(), Seq::empty(), Fault::WrongLength),
        None => fault_if(height != 0, Seq::empty(), Fault::WrongDepth) + fault_if(
            length != 0,
            Seq::empty(),
            Fault::WrongLength,
        ),
    }
}

/// The defects other than keys that are out of order.
pub open spec fn apart_from_order(defects: Seq<(Seq<usize>, Fault)>) -> Seq<(Seq<usize>, Fault)> {
    defects.filter(|defect: (Seq<usize>, Fault)| !(defect.1 is KeyOutOfOrder))
}

/// What is found is what is wrong. Where keys of type `K` do not keep to a fixed order, what is
/// found of that order is open, and the rest is still what is wrong.
pub open spec fn finds<K: Ord>(
    found: Seq<(Seq<usize>, Fault)>,
    wrong: Seq<(Seq<usize>, Fault)>,
) -> bool {
    &&& fixed_order::<K>() ==> found == wrong
    &&& apart_from_order(found) == apart_from_order(wrong)
}

/// Findings add up.
proof fn lemma_finds_add<K: Ord>(
    before: Seq<(Seq<usize>, Fault)>,
    x: Seq<(Seq<usize>, Fault)>,
    between: Seq<(Seq<usize>, Fault)>,
    y: Seq<(Seq<usize>, Fault)>,
    after: Seq<(Seq<usize>, Fault)>,
)
    requires
        finds::<K>(between, before + x),
        finds::<K>(after, between + y),
    ensures
        finds::<K>(after, before + (x + y)),
{
    lemma_apart_add(before, x);
    lemma_apart_add(between, y);
    lemma_apart_add(before + x, y);
    assert(before + (x + y) =~= before + x + y);
}

proof fn lemma_apart_add(a: Seq<(Seq<usize>, Fault)>, b: Seq<(Seq<usize>, Fault)>)
    ensures
        apart_from_order(a + b) == apart_from_order(a) + apart_from_order(b),
{
    Seq::filter_distributes_over_add(
        a,
        b,
        |defect: (Seq<usize>, Fault)| !(defect.1 is KeyOutOfOrder),
    );
}

proof fn lemma_apart_fault(wrong: bool, path: Seq<usize>, fault: Fault)
    ensures
        apart_from_order(fault_if(wrong, path, fault)) == fault_if(
            wrong && !(fault is KeyOutOfOrder),
            path,
            fault,
        ),
{
    reveal(Seq::filter);
    let all = fault_if(wrong, path, fault);
    if wrong {
        assert(all.drop_last() =~= Seq::empty());
        assert(apart_from_order(all.drop_last()) =~= Seq::empty());
        assert(all.last() == (path, fault));
    }
    assert(apart_from_order(all) =~= fault_if(wrong && !(fault is KeyOutOfOrder), path, fault));
}

/// Leaving out what is wrong with the order leaves nothing of a leaf's entries.
proof fn lemma_apart_leaf<K: Ord, V>(entries: Seq<(K, V)>, path: Seq<usize>, seen: Seq<Mark<K>>)
    ensures
        apart_from_order(leaf_defects(entries, path, seen)) == Seq::<(Seq<usize>, Fault)>::empty(),
    decreases entries.len(),
{
    if entries.len() == 0 {
        reveal(Seq::filter);
    } else {
        let init = entries.drop_last();
        let before = seen + leaf_marks(init);
        let mark = Mark::Entry(entries.last().0);
        lemma_apart_leaf(init, path, seen);
        lemma_apart_add(
            leaf_defects(init, path, seen),
            order_defects(before, mark, path, entries.len() - 1),
        );
        lemma_apart_fault(
            before.len() > 0 && !precedes(before.last(), mark),
            path,
            Fault::KeyOutOfOrder((entries.len() - 1) as usize),
        );
    }
}

/// What is wrong with a node by itself has nothing to do with the order of keys.
proof fn lemma_apart_shape<K, V>(
    node: Node<K, V>,
    path: Seq<usize>,
    h: Option<nat>,
    least: nat,
)
    ensures
        apart_from_order(shape_defects(node, path, h, least)) == shape_defects(
            node,
            path,
            h,
            least,
        ),
{
    reveal(shape_defects);
    let few = fault_if(node.count() < least, path, Fault::TooFewEntries);
    let many = fault_if(node.count() > M, path, Fault::TooManyEntries);
    lemma_apart_fault(node.count() < least, path, Fault::TooFewEntries);
    lemma_apart_fault(node.count() > M, path, Fault::TooManyEntries);
    lemma_apart_add(few, many);
    match node {
        Node::Leaf { .. } => {
            lemma_apart_fault(h != Some(0nat), path, Fault::WrongDepth);
            lemma_apart_add(few + many, fault_if(h != Some(0nat), path, Fault::WrongDepth));
        },
        Node::Internal { keys, edges } => {
            let deep = fault_if(below(h) is None, path, Fault::WrongDepth);
            let off = fault_if(edges@.len() != keys@.len() + 1, path, Fault::WrongEdges);
            lemma_apart_fault(below(h) is None, path, Fault::WrongDepth);
            lemma_apart_fault(edges@.len() != keys@.len() + 1, path, Fault::WrongEdges);
            lemma_apart_add(deep, off);
            lemma_apart_add(few + many, deep + off);
        },
    }
}

/// When there is nothing wrong with a node by itself.
proof fn lemma_shape_defects<K, V>(node: Node<K, V>, path: Seq<usize>, h: nat, least: nat)
    ensures
        shape_defects(node, path, Some(h), least).len() == 0 <==> {
            &&& least <= node.count() <= M
            &&& match node {
                Node::Leaf { .. } => h == 0,
                Node::Internal { keys, edges } => h > 0 && edges@.len() == keys@.len() + 1,
            }
        },
{
    reveal(shape_defects);
}

/// A node without defects other than of order has its shape, and the other way round.
proof fn lemma_node_shape<K: Ord, V>(
    node: Node<K, V>,
    path: Seq<usize>,
    h: nat,
    least: nat,
    seen: Seq<Mark<K>>,
)
    ensures
        apart_from_order(node_defects(node, path, Some(h), least, seen)).len() == 0 <==> {
            &&& node.shaped(h)
            &&& node.count() >= least
        },
    decreases node,
{
    let shape = shape_defects(node, path, Some(h), least);
    lemma_shape_defects(node, path, h, least);
    lemma_apart_shape(node, path, Some(h), least);
    match node {
        Node::Leaf { entries } => {
            lemma_apart_leaf(entries@, path, seen);
            lemma_apart_add(shape, leaf_defects(entries@, path, seen));
        },
        Node::Internal { keys, edges } => {
            let under = edge_defects(keys@, edges@, path, Some(h), seen);
            lemma_apart_add(shape, under);
            if h > 0 {
                lemma_edge_shape(keys@, edges@, path, h, seen);
            }
            assert(apart_from_order(node_defects(node, path, Some(h), least, seen)).len()
                == shape.len() + apart_from_order(under).len());
        },
    }
}

proof fn lemma_edge_shape<K: Ord, V>(
    keys: Seq<K>,
    edges: Seq<Box<Node<K, V>>>,
    path: Seq<usize>,
    h: nat,
    seen: Seq<Mark<K>>,
)
    requires
        h > 0,
    ensures
        apart_from_order(edge_defects(keys, edges, path, Some(h), seen)).len() == 0 <==> all_full(
            edges,
            (h - 1) as nat,
        ),
    decreases edges,
{
    if edges.len() == 0 {
        reveal(Seq::filter);
    } else {
        let i = edges.len() - 1;
        let init = edges.drop_last();
        let before = seen + weave(keys, init);
        let after = before + separator(keys, i);
        let least = (M / 2) as nat;
        let under = path.push(i as usize);
        let part = edge_defects(keys, init, path, Some(h), seen);
        let sep = separator_defects(keys, path, before, i);
        lemma_edge_shape(keys, init, path, h, seen);
        lemma_all_full(edges, (h - 1) as nat);
        lemma_node_shape(*edges.last(), under, (h - 1) as nat, least, after);
        lemma_apart_add(part, sep);
        lemma_apart_add(
            part + sep,
            node_defects(*edges.last(), under, Some((h - 1) as nat), least, after),
        );
        if 0 < i <= keys.len() {
            lemma_apart_fault(
                before.len() > 0 && !precedes(before.last(), Mark::Separator(keys[i - 1])),
                path,
                Fault::KeyOutOfOrder(i as usize),
            );
        } else {
            reveal(Seq::filter);
        }
    }
}

/// A tree without defects other than of order has its shape and the length that is recorded, and
/// the other way round.
pub proof fn lemma_tree_shape<K: Ord, V>(
    root: Option<Box<Node<K, V>>>,
    length: usize,
    height: usize,
)
    ensures
        apart_from_order(tree_defects(root, length, height)).len() == 0 <==> match root {
            Some(root) => {
                &&& root.shaped(height as nat)
                &&& root.count() >= 1
                &&& length == root.entries().len()
            },
            None => length == 0 && height == 0,
        },
{
    let none = Seq::<usize>::empty();
    match root {
        Some(root) => {
            let seen = Seq::<Mark<K>>::empty();
            let wrong = length != root.entries().len();
            lemma_node_shape(*root, none, height as nat, 1, seen);
            lemma_apart_fault(wrong, none, Fault::WrongLength);
            lemma_apart_add(
                node_defects(*root, none, Some(height as nat), 1, seen),
                fault_if(wrong, none, Fault::WrongLength),
            );
        },
        None => {
            lemma_apart_fault(height != 0, none, Fault::WrongDepth);
            lemma_apart_fault(length != 0, none, Fault::WrongLength);
            lemma_apart_add(
                fault_if(height != 0, none, Fault::WrongDepth),
                fault_if(length != 0, none, Fault::WrongLength),
            );
        },
    }
}

/// The keys from `from` on come after those right before them.
#[verifier::opaque]
spec fn steps<K: Ord>(marks: Seq<Mark<K>>, from: int) -> bool {
    forall|p: int|
        #![trigger marks[p]]
        from <= p < marks.len() && p > 0 ==> precedes(marks[p - 1], marks[p])
}

proof fn lemma_steps_add<K: Ord>(a: Seq<Mark<K>>, b: Seq<Mark<K>>, from: int)
    requires
        0 <= from <= a.len(),
    ensures
        steps(a + b, from) <==> steps(a, from) && steps(a + b, a.len() as int),
{
    reveal(steps);
    let s = a + b;
    if steps(s, from) {
        assert forall|p: int| #![trigger a[p]] from <= p < a.len() && p > 0 implies precedes(
            a[p - 1],
            a[p],
        ) by {
            assert(s[p] == a[p] && s[p - 1] == a[p - 1]);
        }
    }
    if steps(a, from) && steps(s, a.len() as int) {
        assert forall|p: int| #![trigger s[p]] from <= p < s.len() && p > 0 implies precedes(
            s[p - 1],
            s[p],
        ) by {
            if p < a.len() {
                assert(s[p] == a[p] && s[p - 1] == a[p - 1]);
            }
        }
    }
}

proof fn lemma_steps_one<K: Ord>(a: Seq<Mark<K>>, mark: Mark<K>)
    ensures
        steps(a + seq![mark], a.len() as int) <==> (a.len() > 0 ==> precedes(a.last(), mark)),
{
    reveal(steps);
    let s = a + seq![mark];
    assert(s[a.len() as int] == mark);
    if a.len() > 0 {
        assert(s[a.len() - 1] == a.last());
    }
}

/// Keys are in order exactly if each one comes after the one right before it.
proof fn lemma_steps_in_order<K: Ord>(marks: Seq<Mark<K>>)
    requires
        total_order::<K>(),
    ensures
        steps(marks, 0) <==> in_order(marks),
{
    reveal(steps);
    if steps(marks, 0) {
        assert forall|i: int, j: int|
            #![trigger marks[i], marks[j]]
            0 <= i < j < marks.len() implies precedes(marks[i], marks[j]) by {
            lemma_steps_apart(marks, i, j);
        }
    }
}

proof fn lemma_steps_apart<K: Ord>(marks: Seq<Mark<K>>, i: int, j: int)
    requires
        total_order::<K>(),
        steps(marks, 0),
        0 <= i < j < marks.len(),
    ensures
        precedes(marks[i], marks[j]),
        j > i + 1 ==> key_lt(marks[i].key(), marks[j].key()),
        key_le(marks[i].key(), marks[j].key()),
    decreases j - i,
{
    reveal(steps);
    let (a, b) = (marks[i].key(), marks[j].key());
    assert(precedes(marks[j - 1], marks[j]));
    if i + 1 < j {
        lemma_steps_apart(marks, i, j - 1);
        let mid = marks[j - 1].key();
        assert(key_le(mid, b));
        if key_lt(a, mid) {
            lemma_lt_le(a, mid, b);
        } else {
            assert(precedes(marks[i], marks[j - 1]));
            lemma_le_lt(a, mid, b);
        }
    }
    assert(key_lt(a, b) ==> key_le(a, b)) by {
        if key_lt(a, b) && !key_le(a, b) {
            assert(key_le(b, a));
        }
    }
}

/// A tree without defects has its shape and its keys in order, and the other way round.
proof fn lemma_node_defects<K: Ord, V>(
    node: Node<K, V>,
    path: Seq<usize>,
    h: nat,
    least: nat,
    seen: Seq<Mark<K>>,
)
    ensures
        node_defects(node, path, Some(h), least, seen).len() == 0 <==> {
            &&& node.shaped(h)
            &&& node.count() >= least
            &&& steps(seen + node.marks(), seen.len() as int)
        },
    decreases node,
{
    lemma_shape_defects(node, path, h, least);
    match node {
        Node::Leaf { entries } => {
            lemma_leaf_defects(entries@, path, seen);
        },
        Node::Internal { keys, edges } => {
            if h > 0 {
                lemma_edge_defects(keys@, edges@, path, h, seen);
            }
        },
    }
}

proof fn lemma_leaf_defects<K: Ord, V>(
    entries: Seq<(K, V)>,
    path: Seq<usize>,
    seen: Seq<Mark<K>>,
)
    ensures
        leaf_defects(entries, path, seen).len() == 0 <==> steps(
            seen + leaf_marks(entries),
            seen.len() as int,
        ),
    decreases entries.len(),
{
    if entries.len() == 0 {
        assert(seen + leaf_marks(entries) =~= seen);
        reveal(steps);
    } else {
        let init = entries.drop_last();
        let mark = Mark::Entry(entries.last().0);
        lemma_leaf_defects(init, path, seen);
        let before = seen + leaf_marks(init);
        assert(seen + leaf_marks(entries) =~= before + seq![mark]);
        lemma_steps_add(before, seq![mark], seen.len() as int);
        lemma_steps_one(before, mark);
    }
}

/// All edges are full: the last one, and those before it.
proof fn lemma_all_full<K, V>(edges: Seq<Box<Node<K, V>>>, h: nat)
    requires
        edges.len() > 0,
    ensures
        all_full(edges, h) <==> all_full(edges.drop_last(), h) && edges.last().full(h),
{
    let init = edges.drop_last();
    if all_full(edges, h) {
        assert forall|j: int| 0 <= j < init.len() implies (#[trigger] init[j]).full(h) by {
            assert(edges[j].full(h));
        }
        assert(edges[edges.len() - 1].full(h));
    }
    if all_full(init, h) && edges.last().full(h) {
        assert forall|j: int| 0 <= j < edges.len() implies (#[trigger] edges[j]).full(h) by {
            if j < init.len() {
                assert(init[j].full(h));
            }
        }
    }
}

spec fn all_full<K, V>(edges: Seq<Box<Node<K, V>>>, h: nat) -> bool {
    forall|i: int| 0 <= i < edges.len() ==> (#[trigger] edges[i]).full(h)
}

proof fn lemma_edge_defects<K: Ord, V>(
    keys: Seq<K>,
    edges: Seq<Box<Node<K, V>>>,
    path: Seq<usize>,
    h: nat,
    seen: Seq<Mark<K>>,
)
    requires
        h > 0,
    ensures
        edge_defects(keys, edges, path, Some(h), seen).len() == 0 <==> {
            &&& all_full(edges, (h - 1) as nat)
            &&& steps(seen + weave(keys, edges), seen.len() as int)
        },
    decreases edges,
{
    if edges.len() == 0 {
        assert(seen + weave(keys, edges) =~= seen);
        reveal(steps);
    } else {
        let i = edges.len() - 1;
        let init = edges.drop_last();
        lemma_edge_defects(keys, init, path, h, seen);
        lemma_all_full(edges, (h - 1) as nat);
        let before = seen + weave(keys, init);
        let sep = separator(keys, i);
        let least = (M / 2) as nat;
        let under = path.push(i as usize);
        lemma_node_defects(*edges.last(), under, (h - 1) as nat, least, before + sep);
        lemma_steps_add(before, sep, seen.len() as int);
        lemma_steps_add(before + sep, edges.last().marks(), seen.len() as int);
        assert(seen + weave(keys, edges) =~= before + sep + edges.last().marks());
        lemma_separator_defects(keys, path, before, i);
    }
}

/// A separator is not out of order exactly if it comes after what is right before it.
proof fn lemma_separator_defects<K: Ord>(
    keys: Seq<K>,
    path: Seq<usize>,
    seen: Seq<Mark<K>>,
    i: int,
)
    ensures
        separator_defects(keys, path, seen, i).len() == 0 <==> steps(
            seen + separator(keys, i),
            seen.len() as int,
        ),
{
    if 0 < i <= keys.len() {
        lemma_steps_one(seen, Mark::Separator(keys[i - 1]));
    } else {
        assert(seen + separator(keys, i) =~= seen);
        reveal(steps);
    }
}

/// A tree without defects has its shape, its keys in order and the length that is recorded, and
/// the other way round.
pub proof fn lemma_tree_defects<K: Ord, V>(
    root: Option<Box<Node<K, V>>>,
    length: usize,
    height: usize,
)
    requires
        total_order::<K>(),
    ensures
        tree_defects(root, length, height).len() == 0 <==> match root {
            Some(root) => {
                &&& root.shaped(height as nat)
                &&& root.count() >= 1
                &&& length == root.entries().len()
                &&& in_order(root.marks())
            },
            None => length == 0 && height == 0,
        },
{
    if let Some(root) = root {
        lemma_node_defects(*root, Seq::empty(), height as nat, 1, Seq::empty());
        assert(Seq::<Mark<K>>::empty() + root.marks() =~= root.marks());
        lemma_steps_in_order(root.marks());
    }
}

/// The last key that a walk has met.
struct Met<'a, K> {
    key: &'a K,
    separator: bool,
}

impl<'a, K> Met<'a, K> {
    spec fn mark(self) -> Mark<K> {
        if self.separator {
            Mark::Separator(*self.key)
        } else {
            Mark::Entry(*self.key)
        }
    }
}

/// What a walk has found out so far.
struct Report<'a, K> {
    defects: Vec<Defect>,
    last: Option<Met<'a, K>>,
    /// The number of entries, as long as it can be told.
    total: Option<usize>,
}

/// `n` more than `total`, as long as it can be told.
spec fn plus(total: Option<usize>, n: nat) -> Option<usize> {
    match total {
        Some(total) => if total + n <= usize::MAX {
            Some((total + n) as usize)
        } else {
            None
        },
        None => None,
    }
}

impl<'a, K: Ord> Report<'a, K> {
    /// The report is on a walk that has met the keys `seen`.
    spec fn follows(&self, seen: Seq<Mark<K>>) -> bool {
        match self.last {
            Some(met) => seen.len() > 0 && seen.last() == met.mark(),
            None => seen.len() == 0,
        }
    }

    fn note(&mut self, wrong: bool, path: &Vec<usize>, fault: Fault)
        ensures
            views(final(self).defects@) == views(old(self).defects@) + fault_if(
                wrong,
                path@,
                fault,
            ),
            final(self).last == old(self).last,
            final(self).total == old(self).total,
    {
        if wrong {
            let path = path.clone();
            self.defects.push(Defect { path, fault });
        }
        assert(views(self.defects@) =~= views(old(self).defects@) + fault_if(wrong, path@, fault));
    }

    /// Takes note of key `i` of the node at `path`.
    fn meet(
        &mut self,
        key: &'a K,
        separator: bool,
        path: &Vec<usize>,
        i: usize,
        Ghost(seen): Ghost<Seq<Mark<K>>>,
    )
        requires
            old(self).follows(seen),
        ensures
            ({
                let mark = (Met { key, separator }).mark();
                &&& finds::<K>(
                    views(final(self).defects@),
                    views(old(self).defects@) + order_defects(seen, mark, path@, i as int),
                )
                &&& final(self).follows(seen.push(mark))
                &&& final(self).total == old(self).total
            }),
    {
        let wrong = match &self.last {
            Some(met) => match relate(met.key, key) {
                Relation::Before => false,
                Relation::Same => !met.separator || separator,
                Relation::After => true,
            },
            None => false,
        };
        self.note(wrong, path, Fault::KeyOutOfOrder(i));
        self.last = Some(Met { key, separator });
        proof {
            let noted = views(old(self).defects@);
            let mark = (Met { key, separator }).mark();
            let truly_wrong = seen.len() > 0 && !precedes(seen.last(), mark);
            let fault = Fault::KeyOutOfOrder(i);
            lemma_apart_add(noted, fault_if(wrong, path@, fault));
            lemma_apart_add(noted, fault_if(truly_wrong, path@, fault));
            lemma_apart_fault(wrong, path@, fault);
            lemma_apart_fault(truly_wrong, path@, fault);
        }
    }

    fn count(&mut self, n: usize)
        ensures
            final(self).defects == old(self).defects,
            final(self).last == old(self).last,
            final(self).total == plus(old(self).total, n as nat),
    {
        self.total = match self.total {
            Some(total) => total.checked_add(n),
            None => None,
        };
    }
}

/// Walks over the node at `path`, which is to be at level `height` and to hold `least` entries
/// or more.
fn validate_node<'a, K: Ord, V>(
    node: &'a Node<K, V>,
    path: &mut Vec<usize>,
    height: Option<usize>,
    least: usize,
    report: &mut Report<'a, K>,
    Ghost(seen): Ghost<Seq<Mark<K>>>,
)
    requires
        old(report).follows(seen),
    ensures
        final(path)@ == old(path)@,
        finds::<K>(
            views(final(report).defects@),
            views(old(report).defects@) + node_defects(
                *node,
                old(path)@,
                level(height),
                least as nat,
                seen,
            ),
        ),
        final(report).follows(seen + node.marks()),
        final(report).total == plus(old(report).total, node.entries().len()),
    decreases node,
{
    let ghost noted = views(report.defects@);
    let child_height = validate_shape(node, path, height, least, report);
    let ghost shape = shape_defects(*node, path@, level(height), least as nat);
    let ghost between = views(report.defects@);
    match node {
        Node::Leaf { entries } => {
            validate_leaf(entries, path, report, Ghost(seen));
            proof {
                let rest = leaf_defects(entries@, path@, seen);
                lemma_finds_add::<K>(noted, shape, between, rest, views(report.defects@));
            }
        },
        Node::Internal { keys, edges } => {
            let ghost h = level(height);
            validate_edges(keys, edges, path, child_height, report, Ghost(seen), Ghost(h));
            proof {
                let rest = edge_defects(keys@, edges@, path@, h, seen);
                lemma_finds_add::<K>(noted, shape, between, rest, views(report.defects@));
            }
        },
    }
}

/// Looks at the node at `path` by itself. Returns the level of the nodes below it.
#[verifier::rlimit(30)]
fn validate_shape<K: Ord, V>(
    node: &Node<K, V>,
    path: &Vec<usize>,
    height: Option<usize>,
    least: usize,
    report: &mut Report<'_, K>,
) -> (child_height: Option<usize>)
    ensures
        level(child_height) == below(level(height)),
        views(final(report).defects@) == views(old(report).defects@) + shape_defects(
            *node,
            path@,
            level(height),
            least as nat,
        ),
        final(report).last == old(report).last,
        final(report).total == old(report).total,
{
    let len: usize = node.len();
    let child_height: Option<usize> = match height {
        Some(height) => if height > 0 {
            Some(height - 1)
        } else {
            None
        },
        None => None,
    };
    report.note(len < least, path, Fault::TooFewEntries);
    report.note(len > M, path, Fault::TooManyEntries);
    match node {
        Node::Leaf { .. } => {
            let on_level = match height {
                Some(height) => height == 0,
                None => false,
            };
            report.note(!on_level, path, Fault::WrongDepth);
        },
        Node::Internal { keys, edges } => {
            let wrong_edges = edges.len() == 0 || edges.len() - 1 != keys.len();
            report.note(child_height.is_none(), path, Fault::WrongDepth);
            report.note(wrong_edges, path, Fault::WrongEdges);
        },
    }
    reveal(shape_defects);
    assert(views(report.defects@) =~= views(old(report).defects@) + shape_defects(
        *node,
        path@,
        level(height),
        least as nat,
    ));
    child_height
}

/// Walks over the keys of an internal node and over the nodes under its edges, which are to be
/// at level `child_height`.
fn validate_edges<'a, K: Ord, V>(
    keys: &'a Vec<K>,
    edges: &'a Vec<Box<Node<K, V>>>,
    path: &mut Vec<usize>,
    child_height: Option<usize>,
    report: &mut Report<'a, K>,
    Ghost(seen): Ghost<Seq<Mark<K>>>,
    Ghost(h): Ghost<Option<nat>>,
)
    requires
        old(report).follows(seen),
        level(child_height) == below(h),
    ensures
        final(path)@ == old(path)@,
        finds::<K>(
            views(final(report).defects@),
            views(old(report).defects@) + edge_defects(keys@, edges@, old(path)@, h, seen),
        ),
        final(report).follows(seen + weave(keys@, edges@)),
        final(report).total == plus(old(report).total, concat(edges@).len()),
    decreases edges@,
{
    let mut i: usize = 0;
    let ghost noted = views(report.defects@);
    proof {
        let none = edges@.take(0);
        assert(seen + weave(keys@, none) =~= seen);
        assert(noted + edge_defects(keys@, none, path@, h, seen) =~= noted);
    }
    while i < edges.len()
        invariant
            i <= edges@.len(),
            path@ == old(path)@,
            level(child_height) == below(h),
            finds::<K>(
                views(report.defects@),
                noted + edge_defects(keys@, edges@.take(i as int), path@, h, seen),
            ),
            report.follows(seen + weave(keys@, edges@.take(i as int))),
            report.total == plus(old(report).total, concat(edges@.take(i as int)).len()),
        decreases edges@.len() - i,
    {
        let ghost before = seen + weave(keys@, edges@.take(i as int));
        let ghost more = edges@.take(i + 1);
        let ghost sep = separator(keys@, i as int);
        let ghost part = edge_defects(keys@, edges@.take(i as int), path@, h, seen);
        let ghost sep_part = separator_defects(keys@, path@, before, i as int);
        let ghost found0 = views(report.defects@);
        proof {
            assert(more.drop_last() =~= edges@.take(i as int));
        }
        if i > 0 && i <= keys.len() {
            report.meet(&keys[i - 1], true, path, i, Ghost(before));
            assert(before + sep =~= before.push(Mark::Separator(keys@[i - 1])));
        } else {
            assert(before + sep =~= before);
            assert(found0 + sep_part =~= found0);
        }
        let ghost found1 = views(report.defects@);
        path.push(i);
        validate_node(&edges[i], path, child_height, M / 2, report, Ghost(before + sep));
        path.pop();
        proof {
            assert(path@ =~= old(path)@);
            assert(seen + weave(keys@, more) =~= before + sep + edges@[i as int].marks());
            let child_part = node_defects(
                *edges@[i as int],
                path@.push(i),
                below(h),
                (M / 2) as nat,
                before + sep,
            );
            lemma_finds_add::<K>(noted, part, found0, sep_part, found1);
            lemma_finds_add::<K>(
                noted,
                part + sep_part,
                found1,
                child_part,
                views(report.defects@),
            );
        }
        i += 1;
    }
    assert(edges@.take(edges@.len() as int) =~= edges@);
}

/// The level in the model.
spec fn level(height: Option<usize>) -> Option<nat> {
    match height {
        Some(height) => Some(height as nat),
        None => None,
    }
}

/// Walks over the entries of a leaf.
fn validate_leaf<'a, K: Ord, V>(
    entries: &'a Vec<(K, V)>,
    path: &Vec<usize>,
    report: &mut Report<'a, K>,
    Ghost(seen): Ghost<Seq<Mark<K>>>,
)
    requires
        old(report).follows(seen),
    ensures
        finds::<K>(
            views(final(report).defects@),
            views(old(report).defects@) + leaf_defects(entries@, path@, seen),
        ),
        final(report).follows(seen + leaf_marks(entries@)),
        final(report).total == plus(old(report).total, entries@.len()),
{
    let mut i: usize = 0;
    proof {
        assert(entries@.take(0) =~= Seq::empty());
        assert(seen + leaf_marks(entries@.take(0)) =~= seen);
        assert(views(report.defects@) + leaf_defects(entries@.take(0), path@, seen) =~= views(
            report.defects@,
        ));
    }
    while i < entries.len()
        invariant
            i <= entries@.len(),
            finds::<K>(
                views(report.defects@),
                views(old(report).defects@) + leaf_defects(entries@.take(i as int), path@, seen),
            ),
            report.follows(seen + leaf_marks(entries@.take(i as int))),
            report.total == old(report).total,
        decreases entries@.len() - i,
    {
        let ghost before = seen + leaf_marks(entries@.take(i as int));
        let ghost noted = views(report.defects@);
        report.meet(&entries[i].0, false, path, i, Ghost(before));
        proof {
            let more = entries@.take(i + 1);
            assert(more.drop_last() =~= entries@.take(i as int));
            assert(seen + leaf_marks(more) =~= before.push(Mark::Entry(more.last().0)));
            lemma_finds_add::<K>(
                views(old(report).defects@),
                leaf_defects(entries@.take(i as int), path@, seen),
                noted,
                order_defects(before, Mark::Entry(more.last().0), path@, i as int),
                views(report.defects@),
            );
        }
        i += 1;
    }
    assert(entries@.take(entries@.len() as int) =~= entries@);
    report.count(entries.len());
}

/// Finds out what is wrong with a tree.
pub fn validate_tree<K: Ord, V>(
    root: &Option<Box<Node<K, V>>>,
    length: usize,
    height: usize,
) -> (defects: Vec<Defect>)
    ensures
        finds::<K>(views(defects@), tree_defects(*root, length, height)),
{
    let mut report = Report { defects: Vec::new(), last: None, total: Some(0) };
    let mut path: Vec<usize> = Vec::new();
    match root {
        Some(root) => {
            validate_node(
                root,
                &mut path,
                Some(height),
                1,
                &mut report,
                Ghost(Seq::<Mark<K>>::empty()),
            );
            let wrong_length = match report.total {
                Some(total) => total != length,
                None => true,
            };
            let ghost found = views(report.defects@);
            report.note(wrong_length, &path, Fault::WrongLength);
            proof {
                let none = Seq::<usize>::empty();
                let nothing = Seq::<(Seq<usize>, Fault)>::empty();
                let seen = Seq::<Mark<K>>::empty();
                assert(path@ =~= none);
                assert(views(Seq::<Defect>::empty()) =~= nothing);
                lemma_finds_add::<K>(
                    nothing,
                    node_defects(**root, none, Some(height as nat), 1, seen),
                    found,
                    fault_if(wrong_length, none, Fault::WrongLength),
                    views(report.defects@),
                );
                assert(nothing + tree_defects(Some(*root), length, height) =~= tree_defects(
                    Some(*root),
                    length,
                    height,
                ));
            }
        },
        None => {
            report.note(height != 0, &path, Fault::WrongDepth);
            report.note(length != 0, &path, Fault::WrongLength);
            proof {
                assert(path@ =~= Seq::empty());
                assert(views(report.defects@) =~= tree_defects(*root, length, height));
            }
        },
    }
    report.defects
}

} // verus!
