//! What validation finds: of which node each fault speaks, and in what order they come.

use crate::marks::{leaf_marks, lemma_weave_at, precedes, separator, weave, Mark};
use crate::node::{M, Node};
use crate::order::fixed_order;
use crate::path::node_at;
use crate::validate::{
    apart_from_order, below, edge_defects, fault_if, leaf_defects, node_defects, order_defects,
    separator_defects, shape_defects, tree_defects, validate_tree, views, Defect, Fault,
};
use vstd::prelude::*;
use vstd::seq_lib::lemma_seq_concat_contains_all_elements;

verus! {

/// The node has a key that `KeyOutOfOrder(i)` can speak of: entry `i` of a leaf, or the key to the
/// left of edge `i`.
pub open spec fn has_key<K, V>(node: Node<K, V>, i: int) -> bool {
    match node {
        Node::Leaf { entries } => 0 <= i < entries@.len(),
        Node::Internal { keys, edges } => 0 < i <= keys@.len() && i < edges@.len(),
    }
}

/// How many keys a walk over a tree meets before the node that `path` leads to.
pub open spec fn marks_before<K, V>(node: Node<K, V>, path: Seq<usize>) -> nat
    decreases path.len(),
{
    if path.len() == 0 {
        0
    } else {
        match node {
            Node::Leaf { .. } => 0,
            Node::Internal { keys, edges } => if path[0] < edges@.len() {
                let c = path[0] as int;
                weave(keys@, edges@.take(c)).len() + separator(keys@, c).len() + marks_before(
                    *edges@[c],
                    path.drop_first(),
                )
            } else {
                0
            },
        }
    }
}

/// How many keys a walk over a node meets before key `i` of the node.
pub open spec fn own_marks_before<K, V>(node: Node<K, V>, i: int) -> nat {
    match node {
        Node::Leaf { .. } => i as nat,
        Node::Internal { keys, edges } => weave(keys@, edges@.take(i)).len(),
    }
}

/// The key that a walk meets at place `p` may not come after the one before it.
pub open spec fn broken<K: Ord>(marks: Seq<Mark<K>>, p: int) -> bool {
    0 < p < marks.len() && !precedes(marks[p - 1], marks[p])
}

/// How many levels are to be below a node `n` levels down, if any.
pub open spec fn lower(h: Option<nat>, n: nat) -> Option<nat> {
    match h {
        Some(h) => if n <= h {
            Some((h - n) as nat)
        } else {
            None
        },
        None => None,
    }
}

/// There is such a fault at the node that `path` leads to.
spec fn wrong_in<K: Ord, V>(
    node: Node<K, V>,
    path: Seq<usize>,
    h: Option<nat>,
    least: nat,
    seen: Seq<Mark<K>>,
    fault: Fault,
) -> bool {
    &&& node_at(node, path) matches Some(n)
    &&& match fault {
        Fault::TooFewEntries => n.count() < if path.len() == 0 {
            least
        } else {
            (M / 2) as nat
        },
        Fault::TooManyEntries => n.count() > M,
        Fault::KeyOutOfOrder(i) => has_key(n, i as int) && broken(
            seen + node.marks(),
            (seen.len() + marks_before(node, path) + own_marks_before(n, i as int)) as int,
        ),
        Fault::WrongEdges => n matches Node::Internal { keys, edges } && edges@.len() != keys@.len()
            + 1,
        Fault::WrongDepth => match n {
            Node::Leaf { .. } => lower(h, path.len()) != Some(0nat),
            Node::Internal { .. } => below(lower(h, path.len())) is None,
        },
        Fault::WrongLength => false,
    }
}

/// A tree that is to have `length` entries and to be of height `height` has such a fault at the
/// node that `path` leads to.
///
/// Every node but the root is to hold at least `M / 2`, none more than `M`, all leaves are to be
/// `height` steps away from the root, and a key may not come before the one that a walk from left
/// to right meets just before it.
pub open spec fn has_fault<K: Ord, V>(
    root: Option<Box<Node<K, V>>>,
    length: usize,
    height: usize,
    path: Seq<usize>,
    fault: Fault,
) -> bool {
    match root {
        None => path.len() == 0 && match fault {
            Fault::WrongDepth => height != 0,
            Fault::WrongLength => length != 0,
            _ => false,
        },
        Some(root) => {
            &&& node_at(*root, path) matches Some(node)
            &&& match fault {
                Fault::TooFewEntries => node.count() < if path.len() == 0 {
                    1nat
                } else {
                    (M / 2) as nat
                },
                Fault::TooManyEntries => node.count() > M,
                Fault::KeyOutOfOrder(i) => has_key(node, i as int) && broken(
                    root.marks(),
                    (marks_before(*root, path) + own_marks_before(node, i as int)) as int,
                ),
                Fault::WrongEdges => match node {
                    Node::Leaf { .. } => false,
                    Node::Internal { keys, edges } => edges@.len() != keys@.len() + 1,
                },
                Fault::WrongDepth => match node {
                    Node::Leaf { .. } => path.len() != height,
                    Node::Internal { .. } => path.len() >= height,
                },
                Fault::WrongLength => path.len() == 0 && length != root.entries().len(),
            }
        },
    }
}

/// `path` begins with `prefix`.
spec fn leads_under(prefix: Seq<usize>, path: Seq<usize>) -> bool {
    prefix.len() <= path.len() && path.take(prefix.len() as int) == prefix
}

/// The walk over a node meets each of its keys at its place.
proof fn lemma_own_place<K, V>(node: Node<K, V>, i: int)
    requires
        has_key(node, i),
    ensures
        own_marks_before(node, i) < node.marks().len(),
{
    if let Node::Internal { keys, edges } = node {
        lemma_weave_at(keys@, edges@, i);
    }
}

/// The walk over a tree meets the keys of each node at their places.
proof fn lemma_place<K, V>(node: Node<K, V>, path: Seq<usize>, i: int)
    requires
        node_at(node, path) matches Some(n) && has_key(n, i),
    ensures
        marks_before(node, path) + own_marks_before(node_at(node, path)->0, i) < node.marks().len(),
    decreases path.len(),
{
    if path.len() == 0 {
        lemma_own_place(node, i);
    } else if let Node::Internal { keys, edges } = node {
        let c = path[0] as int;
        lemma_place(*edges@[c], path.drop_first(), i);
        lemma_weave_at(keys@, edges@, c);
    }
}

/// What is wrong under an edge is wrong there when the node above is looked at.
proof fn lemma_wrong_under<K: Ord, V>(
    node: Node<K, V>,
    path: Seq<usize>,
    h: Option<nat>,
    least: nat,
    seen: Seq<Mark<K>>,
    fault: Fault,
)
    requires
        node is Internal,
        path.len() > 0,
        path[0] < node->edges@.len(),
    ensures
        ({
            let (keys, edges, c) = (node->keys@, node->edges@, path[0] as int);
            wrong_in(node, path, h, least, seen, fault) <==> wrong_in(
                *edges[c],
                path.drop_first(),
                below(h),
                (M / 2) as nat,
                seen + weave(keys, edges.take(c)) + separator(keys, c),
                fault,
            )
        }),
{
    let (keys, edges, c) = (node->keys@, node->edges@, path[0] as int);
    let rest = path.drop_first();
    let child = *edges[c];
    let inner = seen + weave(keys, edges.take(c)) + separator(keys, c);
    assert(lower(h, path.len()) == lower(below(h), rest.len()));
    if let Fault::KeyOutOfOrder(i) = fault {
        if let Some(n) = node_at(node, path) {
            if has_key(n, i as int) {
                lemma_place(child, rest, i as int);
                lemma_weave_at(keys, edges, c);
                let part = weave(keys, edges.take(c)) + separator(keys, c) + child.marks();
                let all = seen + node.marks();
                assert(node.marks().take(part.len() as int) == part);
                assert((inner + child.marks()) =~= seen + part);
                assert(all.take((seen + part).len() as int) =~= seen + part);
                let p = (seen.len() + marks_before(node, path) + own_marks_before(
                    n,
                    i as int,
                )) as int;
                assert(p == inner.len() + marks_before(child, rest) + own_marks_before(
                    n,
                    i as int,
                ));
                assert(p < (seen + part).len());
                assert((seen + part)[p] == all[p]);
                if p > 0 {
                    assert((seen + part)[p - 1] == all[p - 1]);
                }
            }
        }
    }
}

proof fn lemma_fault_if(wrong: bool, path: Seq<usize>, fault: Fault, p: Seq<usize>, f: Fault)
    ensures
        fault_if(wrong, path, fault).contains((p, f)) <==> wrong && p == path && f == fault,
{
    if wrong {
        assert(fault_if(wrong, path, fault)[0] == (path, fault));
    }
}

proof fn lemma_shape_contains<K: Ord, V>(
    node: Node<K, V>,
    path: Seq<usize>,
    h: Option<nat>,
    least: nat,
    p: Seq<usize>,
    f: Fault,
)
    ensures
        shape_defects(node, path, h, least).contains((p, f)) <==> p == path && !(f is KeyOutOfOrder)
            && wrong_in(node, Seq::empty(), h, least, Seq::<Mark<K>>::empty(), f),
{
    broadcast use lemma_seq_concat_contains_all_elements;

    reveal(shape_defects);
    assert(lower(h, 0) == h);
    lemma_fault_if(node.count() < least, path, Fault::TooFewEntries, p, f);
    lemma_fault_if(node.count() > M, path, Fault::TooManyEntries, p, f);
    match node {
        Node::Leaf { .. } => lemma_fault_if(h != Some(0nat), path, Fault::WrongDepth, p, f),
        Node::Internal { keys, edges } => {
            lemma_fault_if(below(h) is None, path, Fault::WrongDepth, p, f);
            lemma_fault_if(edges@.len() != keys@.len() + 1, path, Fault::WrongEdges, p, f);
        },
    }
}

proof fn lemma_leaf_contains<K: Ord, V>(
    entries: Seq<(K, V)>,
    path: Seq<usize>,
    seen: Seq<Mark<K>>,
    p: Seq<usize>,
    f: Fault,
)
    requires
        entries.len() <= usize::MAX,
    ensures
        leaf_defects(entries, path, seen).contains((p, f)) <==> {
            &&& p == path
            &&& f matches Fault::KeyOutOfOrder(i)
            &&& i < entries.len()
            &&& broken(seen + leaf_marks(entries), seen.len() + i)
        },
    decreases entries.len(),
{
    broadcast use lemma_seq_concat_contains_all_elements;

    if entries.len() > 0 {
        let init = entries.drop_last();
        let n = init.len() as int;
        let before = seen + leaf_marks(init);
        let all = seen + leaf_marks(entries);
        let mark = Mark::Entry(entries.last().0);
        lemma_leaf_contains(init, path, seen, p, f);
        lemma_fault_if(
            before.len() > 0 && !precedes(before.last(), mark),
            path,
            Fault::KeyOutOfOrder(n as usize),
            p,
            f,
        );
        assert(all =~= before.push(mark));
        if let Fault::KeyOutOfOrder(i) = f {
            let q = seen.len() + i;
            if i < n {
                assert(all[q] == before[q]);
                if q > 0 {
                    assert(all[q - 1] == before[q - 1]);
                }
            }
        }
    }
}

/// What is wrong with a node and those below it.
proof fn lemma_node_contains<K: Ord, V>(
    node: Node<K, V>,
    path: Seq<usize>,
    h: Option<nat>,
    least: nat,
    seen: Seq<Mark<K>>,
    p: Seq<usize>,
    f: Fault,
)
    ensures
        node_defects(node, path, h, least, seen).contains((p, f)) <==> leads_under(path, p)
            && wrong_in(node, p.skip(path.len() as int), h, least, seen, f),
    decreases node, 0nat,
{
    broadcast use lemma_seq_concat_contains_all_elements;

    let d = path.len() as int;
    let rest = p.skip(d);
    lemma_shape_contains::<K, V>(node, path, h, least, p, f);
    if leads_under(path, p) {
        if p.len() == d {
            assert(p.take(d) =~= p);
            assert(rest =~= Seq::empty());
        } else {
            assert(p != path);
        }
    }
    if p == path {
        assert(p.take(d) =~= path);
        assert(rest =~= Seq::empty());
    }
    match node {
        Node::Leaf { entries } => {
            assert(entries@.len() == entries.len());
            lemma_leaf_contains(entries@, path, seen, p, f);
        },
        Node::Internal { keys, edges } => {
            assert(edges@.len() == edges.len());
            lemma_edges_contains(keys@, edges@, path, h, seen, p, f);
            if leads_under(path, p) && p.len() > d {
                assert(rest[0] == p[d]);
                assert(rest.drop_first() =~= p.skip(d + 1));
                if p[d] < edges@.len() {
                    lemma_wrong_under(node, rest, h, least, seen, f);
                }
            }
        },
    }
}

/// What is wrong with the keys between edges and under the edges.
proof fn lemma_edges_contains<K: Ord, V>(
    keys: Seq<K>,
    edges: Seq<Box<Node<K, V>>>,
    path: Seq<usize>,
    h: Option<nat>,
    seen: Seq<Mark<K>>,
    p: Seq<usize>,
    f: Fault,
)
    requires
        edges.len() <= usize::MAX,
    ensures
        edge_defects(keys, edges, path, h, seen).contains((p, f)) <==> {
            ||| {
                &&& p == path
                &&& f matches Fault::KeyOutOfOrder(i)
                &&& 0 < i <= keys.len()
                &&& i < edges.len()
                &&& broken(
                    seen + weave(keys, edges),
                    (seen.len() + weave(keys, edges.take(i as int)).len()) as int,
                )
            }
            ||| {
                &&& leads_under(path, p)
                &&& p.len() > path.len()
                &&& p[path.len() as int] < edges.len()
                &&& {
                    let c = p[path.len() as int] as int;
                    wrong_in(
                        *edges[c],
                        p.skip(path.len() as int + 1),
                        below(h),
                        (M / 2) as nat,
                        seen + weave(keys, edges.take(c)) + separator(keys, c),
                        f,
                    )
                }
            }
        },
    decreases edges, 1nat,
{
    broadcast use lemma_seq_concat_contains_all_elements;

    let d = path.len() as int;
    if edges.len() > 0 {
        let n = edges.len() - 1;
        let init = edges.drop_last();
        let before = seen + weave(keys, init);
        let all = seen + weave(keys, edges);
        let inner = before + separator(keys, n);
        let under = path.push(n as usize);
        lemma_edges_contains(keys, init, path, h, seen, p, f);
        lemma_node_contains(*edges.last(), under, below(h), (M / 2) as nat, inner, p, f);
        assert(edges.take(n) =~= init);
        assert(seen + weave(keys, edges.take(n)) + separator(keys, n) == inner);
        // The last edge.
        if leads_under(path, p) && p.len() > d && p[d] == n {
            assert(p.take(d + 1) =~= under);
        }
        if leads_under(under, p) {
            assert(p.take(d) =~= p.take(d + 1).take(d));
            assert(under.take(d) =~= path);
            assert(p[d] == p.take(d + 1)[d]);
        }
        // The edges before it.
        if leads_under(path, p) && p.len() > d && p[d] < n {
            let c = p[d] as int;
            assert(init.take(c) =~= edges.take(c));
            assert(init[c] == edges[c]);
        }
        // The key before the last edge, and those before it.
        if 0 < n <= keys.len() {
            let mark = Mark::Separator(keys[n - 1]);
            lemma_fault_if(
                before.len() > 0 && !precedes(before.last(), mark),
                path,
                Fault::KeyOutOfOrder(n as usize),
                p,
                f,
            );
            assert(all[before.len() as int] == mark);
            if before.len() > 0 {
                assert(all[before.len() - 1] == before.last());
            }
        }
        if let Fault::KeyOutOfOrder(i) = f {
            if 0 < i <= keys.len() && i < n {
                assert(init.take(i as int) =~= edges.take(i as int));
                lemma_weave_at(keys, init, i as int);
                let q = (seen.len() + weave(keys, init.take(i as int)).len()) as int;
                assert(q < before.len());
                assert(all[q] == before[q]);
                if q > 0 {
                    assert(all[q - 1] == before[q - 1]);
                }
            }
        }
    }
}

/// What is wrong with a tree, fault by fault and node by node.
pub proof fn lemma_tree_contains<K: Ord, V>(
    root: Option<Box<Node<K, V>>>,
    length: usize,
    height: usize,
    path: Seq<usize>,
    fault: Fault,
)
    ensures
        tree_defects(root, length, height).contains((path, fault)) <==> has_fault(
            root,
            length,
            height,
            path,
            fault,
        ),
{
    broadcast use lemma_seq_concat_contains_all_elements;

    let none = Seq::<usize>::empty();
    if path.len() == 0 {
        assert(path =~= none);
    }
    match root {
        Some(root) => {
            let seen = Seq::<Mark<K>>::empty();
            lemma_node_contains(*root, none, Some(height as nat), 1, seen, path, fault);
            lemma_fault_if(
                length != root.entries().len(),
                none,
                Fault::WrongLength,
                path,
                fault,
            );
            assert(path.take(0) =~= none);
            assert(path.skip(0) =~= path);
            assert(seen + root.marks() =~= root.marks());
        },
        None => {
            lemma_fault_if(height != 0, none, Fault::WrongDepth, path, fault);
            lemma_fault_if(length != 0, none, Fault::WrongLength, path, fault);
        },
    }
}

/// In which order the faults of one node come.
pub open spec fn fault_rank(fault: Fault) -> int {
    match fault {
        Fault::TooFewEntries => 0,
        Fault::TooManyEntries => 1,
        Fault::WrongDepth => 2,
        Fault::WrongEdges => 3,
        Fault::KeyOutOfOrder(i) => 4 + i,
        Fault::WrongLength => -1,
    }
}

/// A walk comes upon fault `f1` at `p1` before it comes upon fault `f2` at `p2`, where the two
/// paths agree in their first `d` steps: it looks at a node before it goes on to its edges, from
/// left to right, and at a key before it goes on to the edge to its right. The length is looked at
/// last.
pub open spec fn comes_before(
    p1: Seq<usize>,
    f1: Fault,
    p2: Seq<usize>,
    f2: Fault,
    d: int,
) -> bool
    decreases p1.len() - d,
{
    if f1 is WrongLength {
        false
    } else if f2 is WrongLength {
        true
    } else if p1.len() <= d && p2.len() <= d {
        fault_rank(f1) < fault_rank(f2)
    } else if p1.len() <= d {
        f1 matches Fault::KeyOutOfOrder(i) ==> i <= p2[d]
    } else if p2.len() <= d {
        f2 matches Fault::KeyOutOfOrder(i) && i > p1[d]
    } else if p1[d] != p2[d] {
        p1[d] < p2[d]
    } else {
        comes_before(p1, f1, p2, f2, d + 1)
    }
}

/// The defects stand in the order in which a walk comes upon them, none of them twice.
pub open spec fn in_walk_order(defects: Seq<(Seq<usize>, Fault)>, d: int) -> bool {
    forall|a: int, b: int|
        #![trigger defects[a], defects[b]]
        0 <= a < b < defects.len() ==> comes_before(
            defects[a].0,
            defects[a].1,
            defects[b].0,
            defects[b].1,
            d,
        )
}

proof fn lemma_walk_add(a: Seq<(Seq<usize>, Fault)>, b: Seq<(Seq<usize>, Fault)>, d: int)
    requires
        in_walk_order(a, d),
        in_walk_order(b, d),
        forall|i: int, j: int|
            #![trigger a[i], b[j]]
            0 <= i < a.len() && 0 <= j < b.len() ==> comes_before(
                a[i].0,
                a[i].1,
                b[j].0,
                b[j].1,
                d,
            ),
    ensures
        in_walk_order(a + b, d),
{
    let all = a + b;
    let n = a.len() as int;
    assert forall|i: int, j: int|
        #![trigger all[i], all[j]]
        0 <= i < j < all.len() implies comes_before(
        all[i].0,
        all[i].1,
        all[j].0,
        all[j].1,
        d,
    ) by {
        if j < n {
            assert(all[i] == a[i] && all[j] == a[j]);
        } else if i < n {
            assert(all[i] == a[i] && all[j] == b[j - n]);
        } else {
            assert(all[i] == b[i - n] && all[j] == b[j - n]);
        }
    }
}

proof fn lemma_shape_walk<K, V>(node: Node<K, V>, path: Seq<usize>, h: Option<nat>, least: nat)
    ensures
        in_walk_order(shape_defects(node, path, h, least), path.len() as int),
{
    reveal(shape_defects);
    let d = path.len() as int;
    let few = fault_if(node.count() < least, path, Fault::TooFewEntries);
    let many = fault_if(node.count() > M, path, Fault::TooManyEntries);
    lemma_walk_add(few, many, d);
    match node {
        Node::Leaf { .. } => {
            let deep = fault_if(h != Some(0nat), path, Fault::WrongDepth);
            lemma_walk_add(few + many, deep, d);
        },
        Node::Internal { keys, edges } => {
            let deep = fault_if(below(h) is None, path, Fault::WrongDepth);
            let off = fault_if(edges@.len() != keys@.len() + 1, path, Fault::WrongEdges);
            lemma_walk_add(deep, off, d);
            lemma_walk_add(few + many, deep + off, d);
        },
    }
}

proof fn lemma_leaf_walk<K: Ord, V>(
    entries: Seq<(K, V)>,
    path: Seq<usize>,
    seen: Seq<Mark<K>>,
)
    requires
        entries.len() <= usize::MAX,
    ensures
        in_walk_order(leaf_defects(entries, path, seen), path.len() as int),
    decreases entries.len(),
{
    if entries.len() > 0 {
        let d = path.len() as int;
        let init = entries.drop_last();
        let a = leaf_defects(init, path, seen);
        let b = order_defects(
            seen + leaf_marks(init),
            Mark::Entry(entries.last().0),
            path,
            entries.len() - 1,
        );
        lemma_leaf_walk(init, path, seen);
        assert forall|i: int, j: int|
            #![trigger a[i], b[j]]
            0 <= i < a.len() && 0 <= j < b.len() implies comes_before(
            a[i].0,
            a[i].1,
            b[j].0,
            b[j].1,
            d,
        ) by {
            assert(a.contains(a[i]));
            lemma_leaf_contains(init, path, seen, a[i].0, a[i].1);
        }
        lemma_walk_add(a, b, d);
    }
}

/// Defects that are all under one edge are in order when the edge is taken.
proof fn lemma_walk_under(defects: Seq<(Seq<usize>, Fault)>, d: int, c: usize)
    requires
        0 <= d,
        in_walk_order(defects, d + 1),
        forall|i: int|
            0 <= i < defects.len() ==> (#[trigger] defects[i]).0.len() > d && defects[i].0[d] == c
                && !(defects[i].1 is WrongLength),
    ensures
        in_walk_order(defects, d),
{
    assert forall|a: int, b: int|
        #![trigger defects[a], defects[b]]
        0 <= a < b < defects.len() implies comes_before(
        defects[a].0,
        defects[a].1,
        defects[b].0,
        defects[b].1,
        d,
    ) by {
        assert(comes_before(
            defects[a].0,
            defects[a].1,
            defects[b].0,
            defects[b].1,
            d + 1,
        ));
    }
}

proof fn lemma_node_walk<K: Ord, V>(
    node: Node<K, V>,
    path: Seq<usize>,
    h: Option<nat>,
    least: nat,
    seen: Seq<Mark<K>>,
)
    ensures
        in_walk_order(node_defects(node, path, h, least, seen), path.len() as int),
    decreases node, 0nat,
{
    let d = path.len() as int;
    let a = shape_defects(node, path, h, least);
    let b = match node {
        Node::Leaf { entries } => leaf_defects(entries@, path, seen),
        Node::Internal { keys, edges } => edge_defects(keys@, edges@, path, h, seen),
    };
    lemma_shape_walk(node, path, h, least);
    match node {
        Node::Leaf { entries } => {
            assert(entries@.len() == entries.len());
            lemma_leaf_walk(entries@, path, seen);
        },
        Node::Internal { keys, edges } => {
            assert(edges@.len() == edges.len());
            lemma_edges_walk(keys@, edges@, path, h, seen);
        },
    }
    assert forall|i: int, j: int|
        #![trigger a[i], b[j]]
        0 <= i < a.len() && 0 <= j < b.len() implies comes_before(
        a[i].0,
        a[i].1,
        b[j].0,
        b[j].1,
        d,
    ) by {
        assert(a.contains(a[i]));
        assert(b.contains(b[j]));
        lemma_shape_contains::<K, V>(node, path, h, least, a[i].0, a[i].1);
        match node {
            Node::Leaf { entries } => {
                lemma_leaf_contains(entries@, path, seen, b[j].0, b[j].1);
            },
            Node::Internal { keys, edges } => {
                lemma_edges_contains(keys@, edges@, path, h, seen, b[j].0, b[j].1);
            },
        }
    }
    lemma_walk_add(a, b, d);
}

proof fn lemma_edges_walk<K: Ord, V>(
    keys: Seq<K>,
    edges: Seq<Box<Node<K, V>>>,
    path: Seq<usize>,
    h: Option<nat>,
    seen: Seq<Mark<K>>,
)
    requires
        edges.len() <= usize::MAX,
    ensures
        in_walk_order(edge_defects(keys, edges, path, h, seen), path.len() as int),
    decreases edges, 1nat,
{
    if edges.len() > 0 {
        let d = path.len() as int;
        let n = edges.len() - 1;
        let init = edges.drop_last();
        let before = seen + weave(keys, init);
        let inner = before + separator(keys, n);
        let under = path.push(n as usize);
        let a = edge_defects(keys, init, path, h, seen);
        let b = separator_defects(keys, path, before, n);
        let c = node_defects(*edges.last(), under, below(h), (M / 2) as nat, inner);
        lemma_edges_walk(keys, init, path, h, seen);
        lemma_node_walk(*edges.last(), under, below(h), (M / 2) as nat, inner);
        assert forall|i: int| 0 <= i < c.len() implies (#[trigger] c[i]).0.len() > d && c[i].0[d]
            == n && !(c[i].1 is WrongLength) by {
            assert(c.contains(c[i]));
            lemma_node_contains(
                *edges.last(),
                under,
                below(h),
                (M / 2) as nat,
                inner,
                c[i].0,
                c[i].1,
            );
            assert(c[i].0.take(d + 1)[d] == under[d]);
        }
        lemma_walk_under(c, d, n as usize);
        assert forall|i: int| 0 <= i < a.len() implies !((#[trigger] a[i]).1 is WrongLength) && (
        if a[i].0.len() <= d {
            a[i].1 matches Fault::KeyOutOfOrder(k) && k < n
        } else {
            a[i].0[d] < n
        }) by {
            assert(a.contains(a[i]));
            lemma_edges_contains(keys, init, path, h, seen, a[i].0, a[i].1);
        }
        assert(forall|i: int|
            0 <= i < b.len() ==> #[trigger] b[i] == (path, Fault::KeyOutOfOrder(n as usize)));
        lemma_walk_add(a, b, d);
        assert forall|i: int, j: int|
            #![trigger (a + b)[i], c[j]]
            0 <= i < (a + b).len() && 0 <= j < c.len() implies comes_before(
            (a + b)[i].0,
            (a + b)[i].1,
            c[j].0,
            c[j].1,
            d,
        ) by {
            if i < a.len() {
                assert((a + b)[i] == a[i]);
            } else {
                assert((a + b)[i] == b[i - a.len()]);
            }
        }
        lemma_walk_add(a + b, c, d);
    }
}

/// The defects of a tree stand in the order in which a walk comes upon them.
pub proof fn lemma_tree_walk<K: Ord, V>(
    root: Option<Box<Node<K, V>>>,
    length: usize,
    height: usize,
)
    ensures
        in_walk_order(tree_defects(root, length, height), 0),
{
    let none = Seq::<usize>::empty();
    match root {
        Some(root) => {
            let seen = Seq::<Mark<K>>::empty();
            let a = node_defects(*root, none, Some(height as nat), 1, seen);
            let b = fault_if(length != root.entries().len(), none, Fault::WrongLength);
            lemma_node_walk(*root, none, Some(height as nat), 1, seen);
            assert forall|i: int| 0 <= i < a.len() implies !((
            #[trigger] a[i]).1 is WrongLength) by {
                assert(a.contains(a[i]));
                lemma_node_contains(
                    *root,
                    none,
                    Some(height as nat),
                    1,
                    seen,
                    a[i].0,
                    a[i].1,
                );
            }
            lemma_walk_add(a, b, 0);
        },
        None => {
            lemma_walk_add(
                fault_if(height != 0, none, Fault::WrongDepth),
                fault_if(length != 0, none, Fault::WrongLength),
                0,
            );
        },
    }
}

/// No fault comes before itself.
pub proof fn lemma_comes_once(path: Seq<usize>, fault: Fault, d: int)
    requires
        0 <= d,
    ensures
        !comes_before(path, fault, path, fault, d),
    decreases path.len() - d,
{
    if d < path.len() {
        lemma_comes_once(path, fault, d + 1);
    }
}

/// What validation finds of a tree: of every node exactly the faults that it has, each of them
/// once, in the order in which a walk from left to right comes upon them. Where keys do not keep
/// to a fixed order, this is so of all faults but those of order.
pub proof fn law_validate_tree<K: Ord, V>(
    root: Option<Box<Node<K, V>>>,
    length: usize,
    height: usize,
    defects: Vec<Defect>,
    path: Seq<usize>,
    fault: Fault,
)
    requires
        call_ensures(validate_tree::<K, V>, (&root, length, height), defects),
    ensures
        fixed_order::<K>() || !(fault is KeyOutOfOrder) ==> (views(defects@).contains((path, fault))
            <==> has_fault(root, length, height, path, fault)),
        fixed_order::<K>() ==> in_walk_order(views(defects@), 0) && views(
            defects@,
        ).no_duplicates(),
        views(defects@).len() == defects@.len(),
        forall|i: int|
            0 <= i < defects@.len() ==> views(defects@)[i] == (
                (#[trigger] defects@[i]).path@,
                defects@[i].fault,
            ),
{
    let wrong = tree_defects(root, length, height);
    let found = views(defects@);
    lemma_found(found, wrong, path, fault);
    lemma_tree_contains(root, length, height, path, fault);
    lemma_tree_walk(root, length, height);
    if fixed_order::<K>() {
        lemma_walk_distinct(found);
    }
}

/// What stands in walk order stands there once.
pub proof fn lemma_walk_distinct(defects: Seq<(Seq<usize>, Fault)>)
    requires
        in_walk_order(defects, 0),
    ensures
        defects.no_duplicates(),
{
    assert forall|a: int, b: int|
        0 <= a < b < defects.len() implies defects[a] != defects[b] by {
        lemma_comes_once(defects[a].0, defects[a].1, 0);
    }
}

/// Faults that have nothing to do with the order of keys are found wherever they are.
pub proof fn lemma_found(
    found: Seq<(Seq<usize>, Fault)>,
    wrong: Seq<(Seq<usize>, Fault)>,
    path: Seq<usize>,
    fault: Fault,
)
    requires
        apart_from_order(found) == apart_from_order(wrong),
    ensures
        !(fault is KeyOutOfOrder) ==> (found.contains((path, fault)) <==> wrong.contains(
            (path, fault),
        )),
{
    let other = |defect: (Seq<usize>, Fault)| !(defect.1 is KeyOutOfOrder);
    if !(fault is KeyOutOfOrder) {
        lemma_kept(found, other, (path, fault));
        lemma_kept(wrong, other, (path, fault));
    }
}

proof fn lemma_kept<A>(s: Seq<A>, keep: spec_fn(A) -> bool, x: A)
    requires
        keep(x),
    ensures
        s.contains(x) <==> s.filter(keep).contains(x),
    decreases s.len(),
{
    reveal(Seq::filter);
    if s.len() > 0 {
        let init = s.drop_last();
        lemma_kept(init, keep, x);
        assert(s =~= init.push(s.last()));
        vstd::seq_lib::lemma_seq_contains_after_push(init, s.last(), x);
        vstd::seq_lib::lemma_seq_contains_after_push(init.filter(keep), s.last(), x);
    }
}

} // verus!
