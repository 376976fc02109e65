//! Printing a tree: the lines of the drawing, from top to bottom.

use crate::node::{concat, Node};
use crate::values::same_layout;
use vstd::prelude::*;

verus! {

/// A line of the drawing of a tree. `depth` says how far it is indented.
///
/// Nodes are referred to by the number of the line that they begin on, counted from 0.
#[derive(Debug, PartialEq, Eq)]
pub enum Line<K, V> {
    /// There is no node.
    Empty,
    /// An internal node begins. `parent` is the node above it and the edge that leads here.
    Node { depth: usize, parent: Option<(usize, usize)> },
    /// A leaf begins. `prev` and `next` are the leaves to its left and right.
    Leaf {
        depth: usize,
        parent: Option<(usize, usize)>,
        prev: Option<usize>,
        next: Option<usize>,
    },
    /// An entry of a leaf, and whether it is the last one.
    Entry { depth: usize, last: bool, key: K, val: V },
    /// A key between two edges of an internal node.
    Separator { depth: usize, key: K },
    /// An internal node ends.
    End { depth: usize },
}

/// The line with the keys and values that it refers to.
pub open spec fn shown<K, V>(line: Line<&K, &V>) -> Line<K, V> {
    match line {
        Line::Empty => Line::Empty,
        Line::Node { depth, parent } => Line::Node { depth, parent },
        Line::Leaf { depth, parent, prev, next } => Line::Leaf { depth, parent, prev, next },
        Line::Entry { depth, last, key, val } => Line::Entry { depth, last, key: *key, val: *val },
        Line::Separator { depth, key } => Line::Separator { depth, key: *key },
        Line::End { depth } => Line::End { depth },
    }
}

/// The lines with the keys and values that they refer to.
pub open spec fn drawing<K, V>(lines: Seq<Line<&K, &V>>) -> Seq<Line<K, V>> {
    lines.map_values(|line: Line<&K, &V>| shown(line))
}

/// One level further in.
pub open spec fn deeper(depth: usize) -> usize {
    if depth < usize::MAX {
        (depth + 1) as usize
    } else {
        depth
    }
}

/// The line that a node begins with, before its neighbours are known.
pub open spec fn first_line<K, V>(
    node: Node<K, V>,
    depth: usize,
    parent: Option<(usize, usize)>,
) -> Line<K, V> {
    match node {
        Node::Leaf { .. } => Line::Leaf { depth, parent, prev: None, next: None },
        Node::Internal { .. } => Line::Node { depth, parent },
    }
}

/// The lines of a node, which begins on line `at`, and of those below it, before leaves know their
/// neighbours.
pub open spec fn node_lines<K, V>(
    node: Node<K, V>,
    depth: usize,
    parent: Option<(usize, usize)>,
    at: nat,
) -> Seq<Line<K, V>>
    decreases node,
{
    seq![first_line(node, depth, parent)] + match node {
        Node::Leaf { entries } => entry_lines(entries@, depth),
        Node::Internal { keys, edges } => edge_lines(keys@, edges@, depth, at).push(
            Line::End { depth },
        ),
    }
}

/// The lines of the entries of a leaf.
pub open spec fn entry_lines<K, V>(entries: Seq<(K, V)>, depth: usize) -> Seq<Line<K, V>> {
    Seq::new(
        entries.len(),
        |i: int|
            Line::Entry {
                depth,
                last: i == entries.len() - 1,
                key: entries[i].0,
                val: entries[i].1,
            },
    )
}

/// The lines of the nodes under the edges of a node that begins on line `at`, and of the keys
/// between them.
pub open spec fn edge_lines<K, V>(
    keys: Seq<K>,
    edges: Seq<Box<Node<K, V>>>,
    depth: usize,
    at: nat,
) -> Seq<Line<K, V>>
    decreases edges,
{
    if edges.len() == 0 {
        Seq::empty()
    } else {
        let i = edges.len() - 1;
        let before = edge_lines(keys, edges.drop_last(), depth, at) + separator_line(
            keys,
            i,
            depth,
        );
        before + node_lines(
            *edges.last(),
            deeper(depth),
            Some((at as usize, i as usize)),
            at + 1 + before.len(),
        )
    }
}

/// The line of the key to the left of edge `i`.
pub open spec fn separator_line<K, V>(keys: Seq<K>, i: int, depth: usize) -> Seq<Line<K, V>> {
    if 0 < i <= keys.len() {
        seq![Line::Separator { depth, key: keys[i - 1] }]
    } else {
        Seq::empty()
    }
}

/// The last leaf that begins before line `i`.
pub open spec fn leaf_before<K, V>(lines: Seq<Line<K, V>>, i: int) -> Option<usize>
    decreases i,
{
    if i <= 0 {
        None
    } else if lines[i - 1] is Leaf {
        Some((i - 1) as usize)
    } else {
        leaf_before(lines, i - 1)
    }
}

/// The first leaf that begins after line `i`.
pub open spec fn leaf_after<K, V>(lines: Seq<Line<K, V>>, i: int) -> Option<usize>
    decreases lines.len() - i,
{
    if i + 1 >= lines.len() {
        None
    } else if lines[i + 1] is Leaf {
        Some((i + 1) as usize)
    } else {
        leaf_after(lines, i + 1)
    }
}

/// Line `i`, with the neighbours of the leaf if one begins there.
pub open spec fn linked_line<K, V>(lines: Seq<Line<K, V>>, i: int) -> Line<K, V> {
    match lines[i] {
        Line::Leaf { depth, parent, .. } => Line::Leaf {
            depth,
            parent,
            prev: leaf_before(lines, i),
            next: leaf_after(lines, i),
        },
        line => line,
    }
}

/// The lines, with the neighbours of the leaves.
pub open spec fn linked<K, V>(lines: Seq<Line<K, V>>) -> Seq<Line<K, V>> {
    Seq::new(lines.len(), |i: int| linked_line(lines, i))
}

/// The lines of a tree.
pub open spec fn tree_lines<K, V>(root: Option<Box<Node<K, V>>>) -> Seq<Line<K, V>> {
    match root {
        Some(root) => linked(node_lines(*root, 0, None, 0)),
        None => seq![Line::Empty],
    }
}

/// The entries that the lines show.
pub open spec fn printed<K, V>(lines: Seq<Line<K, V>>) -> Seq<(K, V)>
    decreases lines.len(),
{
    if lines.len() == 0 {
        Seq::empty()
    } else {
        match lines.last() {
            Line::Entry { key, val, .. } => printed(lines.drop_last()).push((key, val)),
            _ => printed(lines.drop_last()),
        }
    }
}

proof fn lemma_printed_add<K, V>(a: Seq<Line<K, V>>, b: Seq<Line<K, V>>)
    ensures
        printed(a + b) == printed(a) + printed(b),
    decreases b.len(),
{
    if b.len() == 0 {
        assert(a + b =~= a);
        assert(printed(a) + printed(b) =~= printed(a));
    } else {
        assert((a + b).drop_last() =~= a + b.drop_last());
        lemma_printed_add(a, b.drop_last());
        assert(printed(a + b) =~= printed(a) + printed(b));
    }
}

proof fn lemma_printed_none<K, V>(line: Line<K, V>)
    requires
        !(line is Entry),
    ensures
        printed(seq![line]) == Seq::<(K, V)>::empty(),
{
    assert(seq![line].drop_last() =~= Seq::empty());
    assert(printed(seq![line].drop_last()) =~= Seq::<(K, V)>::empty());
}

proof fn lemma_printed_entries<K, V>(entries: Seq<(K, V)>, lines: Seq<Line<K, V>>)
    requires
        lines.len() == entries.len(),
        forall|i: int|
            0 <= i < lines.len() ==> (#[trigger] lines[i] matches Line::Entry { key, val, .. } && (
                key,
                val,
            ) == entries[i]),
    ensures
        printed(lines) == entries,
    decreases lines.len(),
{
    if lines.len() > 0 {
        let n = lines.len() - 1;
        assert forall|i: int| 0 <= i < n implies lines.drop_last()[i] == #[trigger] lines[i] by {}
        assert forall|i: int| 0 <= i < n implies (#[trigger] lines.drop_last()[i] matches
            Line::Entry { key, val, .. } && (key, val) == entries.drop_last()[i]) by {
            assert(lines[i] is Entry);
        }
        lemma_printed_entries(entries.drop_last(), lines.drop_last());
        assert(lines.last() == lines[n]);
    }
    assert(printed(lines) =~= entries);
}

proof fn lemma_printed_node<K, V>(
    node: Node<K, V>,
    depth: usize,
    parent: Option<(usize, usize)>,
    at: nat,
)
    ensures
        printed(node_lines(node, depth, parent, at)) == node.entries(),
    decreases node,
{
    let first = first_line(node, depth, parent);
    lemma_printed_none(first);
    match node {
        Node::Leaf { entries } => {
            let lines = entry_lines(entries@, depth);
            lemma_printed_entries(entries@, lines);
            lemma_printed_add(seq![first], lines);
        },
        Node::Internal { keys, edges } => {
            let lines = edge_lines(keys@, edges@, depth, at);
            lemma_printed_edges(keys@, edges@, depth, at);
            assert(lines.push(Line::End { depth }).drop_last() =~= lines);
            lemma_printed_add(seq![first], lines.push(Line::End { depth }));
        },
    }
    assert(printed(node_lines(node, depth, parent, at)) =~= node.entries());
}

proof fn lemma_printed_edges<K, V>(
    keys: Seq<K>,
    edges: Seq<Box<Node<K, V>>>,
    depth: usize,
    at: nat,
)
    ensures
        printed(edge_lines(keys, edges, depth, at)) == concat(edges),
    decreases edges,
{
    if edges.len() > 0 {
        let i = edges.len() - 1;
        let before = edge_lines(keys, edges.drop_last(), depth, at);
        let sep = separator_line::<K, V>(keys, i, depth);
        let parent = Some((at as usize, i as usize));
        let start = at + 1 + (before + sep).len();
        let under = node_lines(*edges.last(), deeper(depth), parent, start);
        lemma_printed_edges(keys, edges.drop_last(), depth, at);
        lemma_printed_node(*edges.last(), deeper(depth), parent, start);
        lemma_printed_add(before, sep);
        lemma_printed_add(before + sep, under);
        if 0 < i <= keys.len() {
            lemma_printed_none(Line::<K, V>::Separator { depth, key: keys[i - 1] });
        }
    }
    assert(printed(edge_lines(keys, edges, depth, at)) =~= concat(edges));
}

proof fn lemma_printed_alike<K, V>(a: Seq<Line<K, V>>, b: Seq<Line<K, V>>)
    requires
        a.len() == b.len(),
        forall|i: int|
            0 <= i < a.len() ==> (#[trigger] a[i] is Entry <==> b[i] is Entry) && (a[i] is Entry
                ==> a[i] == b[i]),
    ensures
        printed(a) == printed(b),
    decreases a.len(),
{
    if a.len() > 0 {
        let n = a.len() - 1;
        assert forall|i: int| 0 <= i < n implies (#[trigger] a.drop_last()[i] is Entry
            <==> b.drop_last()[i] is Entry) && (a.drop_last()[i] is Entry ==> a.drop_last()[i]
            == b.drop_last()[i]) by {
            assert(a.drop_last()[i] == a[i]);
        }
        lemma_printed_alike(a.drop_last(), b.drop_last());
        assert(a.last() == a[n]);
    }
}

/// The drawing of a tree shows its entries, in order.
pub proof fn lemma_printed<K, V>(root: Option<Box<Node<K, V>>>)
    ensures
        printed(tree_lines(root)) == match root {
            Some(root) => root.entries(),
            None => Seq::empty(),
        },
{
    match root {
        Some(root) => {
            let lines = node_lines(*root, 0, None, 0);
            lemma_printed_node(*root, 0, None, 0);
            lemma_printed_alike(lines, linked(lines));
        },
        None => lemma_printed_none(Line::<K, V>::Empty),
    }
}

/// The lines differ at most in the value that they show.
pub open spec fn same_line<K, V>(a: Line<K, V>, b: Line<K, V>) -> bool {
    match (a, b) {
        (
            Line::Entry { depth: d1, last: l1, key: k1, .. },
            Line::Entry { depth: d2, last: l2, key: k2, .. },
        ) => d1 == d2 && l1 == l2 && k1 == k2,
        _ => a == b,
    }
}

/// The drawings differ at most in the values that they show.
pub open spec fn same_lines<K, V>(a: Seq<Line<K, V>>, b: Seq<Line<K, V>>) -> bool {
    &&& a.len() == b.len()
    &&& forall|i: int| 0 <= i < a.len() ==> same_line(#[trigger] a[i], b[i])
}

proof fn lemma_same_lines_add<K, V>(
    a1: Seq<Line<K, V>>,
    b1: Seq<Line<K, V>>,
    a2: Seq<Line<K, V>>,
    b2: Seq<Line<K, V>>,
)
    requires
        same_lines(a1, b1),
        same_lines(a2, b2),
    ensures
        same_lines(a1 + a2, b1 + b2),
{
    assert forall|i: int| 0 <= i < (a1 + a2).len() implies same_line(
        #[trigger] (a1 + a2)[i],
        (b1 + b2)[i],
    ) by {
        if i < a1.len() {
            assert(same_line(a1[i], b1[i]));
        } else {
            assert(same_line(a2[i - a1.len()], b2[i - a1.len()]));
        }
    }
}

proof fn lemma_node_same_lines<K, V>(
    a: Node<K, V>,
    b: Node<K, V>,
    depth: usize,
    parent: Option<(usize, usize)>,
    at: nat,
)
    requires
        same_layout(a, b),
    ensures
        same_lines(node_lines(a, depth, parent, at), node_lines(b, depth, parent, at)),
    decreases a,
{
    let first = seq![first_line(a, depth, parent)];
    match (a, b) {
        (Node::Leaf { entries: x }, Node::Leaf { entries: y }) => {
            let (p, q) = (entry_lines(x@, depth), entry_lines(y@, depth));
            assert forall|i: int| 0 <= i < p.len() implies same_line(#[trigger] p[i], q[i]) by {
                assert(x@[i].0 == y@[i].0);
            }
            lemma_same_lines_add(first, first, p, q);
        },
        (
            Node::Internal { keys: xk, edges: xe },
            Node::Internal { keys: yk, edges: ye },
        ) => {
            lemma_edges_same_lines(xk@, xe@, ye@, depth, at);
            let end = seq![Line::<K, V>::End { depth }];
            let (p, q) = (edge_lines(xk@, xe@, depth, at), edge_lines(xk@, ye@, depth, at));
            lemma_same_lines_add(p, q, end, end);
            assert(p.push(Line::End { depth }) =~= p + end);
            assert(q.push(Line::End { depth }) =~= q + end);
            lemma_same_lines_add(first, first, p + end, q + end);
        },
        _ => {},
    }
}

proof fn lemma_edges_same_lines<K, V>(
    keys: Seq<K>,
    a: Seq<Box<Node<K, V>>>,
    b: Seq<Box<Node<K, V>>>,
    depth: usize,
    at: nat,
)
    requires
        a.len() == b.len(),
        forall|i: int| 0 <= i < a.len() ==> same_layout(*#[trigger] a[i], *b[i]),
    ensures
        same_lines(edge_lines(keys, a, depth, at), edge_lines(keys, b, depth, at)),
    decreases a,
{
    if a.len() > 0 {
        let i = a.len() - 1;
        let parent = Some((at as usize, i as usize));
        let sep = separator_line::<K, V>(keys, i, depth);
        let p = edge_lines(keys, a.drop_last(), depth, at);
        let q = edge_lines(keys, b.drop_last(), depth, at);
        let start = at + 1 + (p + sep).len();
        assert(same_layout(*a[i], *b[i]));
        assert forall|j: int| 0 <= j < i implies same_layout(
            *#[trigger] a.drop_last()[j],
            *b.drop_last()[j],
        ) by {
            assert(same_layout(*a[j], *b[j]));
        }
        lemma_edges_same_lines(keys, a.drop_last(), b.drop_last(), depth, at);
        lemma_node_same_lines(*a.last(), *b.last(), deeper(depth), parent, start);
        lemma_same_lines_add(p, q, sep, sep);
        lemma_same_lines_add(
            p + sep,
            q + sep,
            node_lines(*a.last(), deeper(depth), parent, start),
            node_lines(*b.last(), deeper(depth), parent, start),
        );
    }
}

proof fn lemma_same_leaf_before<K, V>(a: Seq<Line<K, V>>, b: Seq<Line<K, V>>, i: int)
    requires
        same_lines(a, b),
        0 <= i <= a.len(),
    ensures
        leaf_before(a, i) == leaf_before(b, i),
    decreases i,
{
    if i > 0 {
        assert(same_line(a[i - 1], b[i - 1]));
        lemma_same_leaf_before(a, b, i - 1);
    }
}

proof fn lemma_same_leaf_after<K, V>(a: Seq<Line<K, V>>, b: Seq<Line<K, V>>, i: int)
    requires
        same_lines(a, b),
        0 <= i < a.len(),
    ensures
        leaf_after(a, i) == leaf_after(b, i),
    decreases a.len() - i,
{
    if i + 1 < a.len() {
        assert(same_line(a[i + 1], b[i + 1]));
        lemma_same_leaf_after(a, b, i + 1);
    }
}

/// Trees with the same layout have the same drawing, apart from the values.
pub proof fn lemma_tree_same_lines<K, V>(a: Node<K, V>, b: Node<K, V>)
    requires
        same_layout(a, b),
    ensures
        same_lines(tree_lines(Some(Box::new(a))), tree_lines(Some(Box::new(b)))),
{
    let p = node_lines(a, 0, None, 0);
    let q = node_lines(b, 0, None, 0);
    lemma_node_same_lines(a, b, 0, None, 0);
    assert forall|i: int| 0 <= i < linked(p).len() implies same_line(
        #[trigger] linked(p)[i],
        linked(q)[i],
    ) by {
        assert(same_line(p[i], q[i]));
        lemma_same_leaf_before(p, q, i);
        lemma_same_leaf_after(p, q, i);
    }
}

/// The drawing of a tree that is a single leaf.
pub proof fn lemma_leaf_lines<K, V>(root: Node<K, V>)
    requires
        root is Leaf,
    ensures
        tree_lines(Some(Box::new(root))) == seq![
            Line::Leaf { depth: 0, parent: None, prev: None, next: None },
        ] + entry_lines(root.entries(), 0),
{
    let lines = node_lines(root, 0, None, 0);
    lemma_no_leaf_after(lines, 0);
    assert(linked(lines) =~= lines);
}

proof fn lemma_no_leaf_after<K, V>(lines: Seq<Line<K, V>>, i: int)
    requires
        0 <= i < lines.len(),
        forall|j: int| i < j < lines.len() ==> !(#[trigger] lines[j] is Leaf),
    ensures
        leaf_after(lines, i) is None,
    decreases lines.len() - i,
{
    if i + 1 < lines.len() {
        lemma_no_leaf_after(lines, i + 1);
    }
}

proof fn lemma_drawing_push<K, V>(lines: Seq<Line<&K, &V>>, line: Line<&K, &V>)
    ensures
        drawing(lines.push(line)) == drawing(lines).push(shown(line)),
{
    assert(drawing(lines.push(line)) =~= drawing(lines).push(shown(line)));
}

/// Draws a node and those below it.
fn print_node<'a, K, V>(
    node: &'a Node<K, V>,
    depth: usize,
    parent: Option<(usize, usize)>,
    out: &mut Vec<Line<&'a K, &'a V>>,
)
    ensures
        drawing(final(out)@) == drawing(old(out)@) + node_lines(
            *node,
            depth,
            parent,
            old(out)@.len(),
        ),
    decreases node,
{
    let ghost drawn = drawing(out@);
    let at: usize = out.len();
    match node {
        Node::Leaf { entries } => {
            let first = Line::Leaf { depth, parent, prev: None, next: None };
            proof {
                lemma_drawing_push(out@, first);
            }
            out.push(first);
            print_entries(entries, depth, out);
            assert(drawing(out@) =~= drawn + node_lines(*node, depth, parent, at as nat));
        },
        Node::Internal { keys, edges } => {
            let first = Line::Node { depth, parent };
            proof {
                lemma_drawing_push(out@, first);
            }
            out.push(first);
            print_edges(keys, edges, depth, at, out);
            proof {
                lemma_drawing_push(out@, Line::End { depth });
            }
            out.push(Line::End { depth });
            assert(drawing(out@) =~= drawn + node_lines(*node, depth, parent, at as nat));
        },
    }
}

/// Draws the entries of a leaf.
fn print_entries<'a, K, V>(
    entries: &'a Vec<(K, V)>,
    depth: usize,
    out: &mut Vec<Line<&'a K, &'a V>>,
)
    ensures
        drawing(final(out)@) == drawing(old(out)@) + entry_lines(entries@, depth),
{
    let ghost drawn = drawing(out@);
    let ghost all = entry_lines(entries@, depth);
    let mut i: usize = 0;
    assert(drawn + all.take(0) =~= drawn);
    while i < entries.len()
        invariant
            i <= entries@.len(),
            all == entry_lines(entries@, depth),
            drawing(out@) == drawn + all.take(i as int),
        decreases entries@.len() - i,
    {
        let line = Line::Entry {
            depth,
            last: i == entries.len() - 1,
            key: &entries[i].0,
            val: &entries[i].1,
        };
        proof {
            lemma_drawing_push(out@, line);
            assert(drawn + all.take(i + 1) =~= (drawn + all.take(i as int)).push(shown(line)));
        }
        out.push(line);
        i += 1;
    }
    assert(all.take(entries@.len() as int) =~= all);
}

/// Draws the nodes under the edges of a node that begins on line `at`, and the keys between them.
fn print_edges<'a, K, V>(
    keys: &'a Vec<K>,
    edges: &'a Vec<Box<Node<K, V>>>,
    depth: usize,
    at: usize,
    out: &mut Vec<Line<&'a K, &'a V>>,
)
    requires
        old(out)@.len() == at + 1,
    ensures
        drawing(final(out)@) == drawing(old(out)@) + edge_lines(keys@, edges@, depth, at as nat),
    decreases edges@,
{
    let ghost drawn = drawing(out@);
    let mut i: usize = 0;
    assert(drawn + edge_lines(keys@, edges@.take(0), depth, at as nat) =~= drawn);
    while i < edges.len()
        invariant
            i <= edges@.len(),
            drawn.len() == at + 1,
            drawing(out@) == drawn + edge_lines(keys@, edges@.take(i as int), depth, at as nat),
        decreases edges@.len() - i,
    {
        let ghost more = edges@.take(i + 1);
        let ghost before = drawing(out@);
        assert(more.drop_last() =~= edges@.take(i as int));
        if i > 0 && i <= keys.len() {
            let line = Line::Separator { depth, key: &keys[i - 1] };
            proof {
                lemma_drawing_push(out@, line);
            }
            out.push(line);
        }
        assert(drawing(out@) =~= before + separator_line(keys@, i as int, depth));
        let child_depth: usize = if depth < usize::MAX {
            depth + 1
        } else {
            depth
        };
        print_node(&edges[i], child_depth, Some((at, i)), out);
        assert(drawing(out@) =~= drawn + edge_lines(keys@, more, depth, at as nat));
        i += 1;
    }
    assert(edges@.take(edges@.len() as int) =~= edges@);
}

/// Line `i`, with the leaf to the left of the one that begins there, if one does.
spec fn half_linked_line<K, V>(lines: Seq<Line<K, V>>, i: int) -> Line<K, V> {
    match lines[i] {
        Line::Leaf { depth, parent, .. } => Line::Leaf {
            depth,
            parent,
            prev: leaf_before(lines, i),
            next: None,
        },
        line => line,
    }
}

/// Enters in each leaf where the leaves to its left and right begin.
fn link_leaves<'a, K, V>(lines: &mut Vec<Line<&'a K, &'a V>>)
    ensures
        drawing(final(lines)@) == linked(drawing(old(lines)@)),
{
    let ghost draft = lines@;
    let ghost drawn = drawing(draft);
    let n: usize = lines.len();
    let mut prev: Option<usize> = None;
    let mut i: usize = 0;
    while i < n
        invariant
            i <= n == lines@.len() == draft.len(),
            drawn == drawing(draft),
            prev == leaf_before(drawn, i as int),
            forall|j: int| 0 <= j < i ==> shown(#[trigger] lines@[j]) == half_linked_line(drawn, j),
            forall|j: int| i <= j < n ==> #[trigger] lines@[j] == draft[j],
        decreases n - i,
    {
        assert(drawn[i as int] == shown(draft[i as int]));
        assert(lines@[i as int] == draft[i as int]);
        if let Line::Leaf { depth, parent, .. } = &lines[i] {
            let line = Line::Leaf { depth: *depth, parent: *parent, prev, next: None };
            lines[i] = line;
            prev = Some(i);
        }
        i += 1;
    }
    let mut next: Option<usize> = None;
    while i > 0
        invariant
            i <= n == lines@.len() == draft.len(),
            drawn == drawing(draft),
            next == leaf_after(drawn, i - 1),
            forall|j: int| 0 <= j < i ==> shown(#[trigger] lines@[j]) == half_linked_line(drawn, j),
            forall|j: int| i <= j < n ==> shown(#[trigger] lines@[j]) == linked_line(drawn, j),
        decreases i,
    {
        i -= 1;
        assert(drawn[i as int] == shown(draft[i as int]));
        assert(shown(lines@[i as int]) == half_linked_line(drawn, i as int));
        if let Line::Leaf { depth, parent, prev, .. } = &lines[i] {
            let line = Line::Leaf { depth: *depth, parent: *parent, prev: *prev, next };
            lines[i] = line;
            next = Some(i);
        }
    }
    assert(drawing(lines@) =~= linked(drawn)) by {
        assert forall|j: int| 0 <= j < n implies drawing(lines@)[j] == linked(drawn)[j] by {
            assert(shown(lines@[j]) == linked_line(drawn, j));
        }
    }
}

/// Draws a tree.
pub fn print_tree<'a, K, V>(root: &'a Option<Box<Node<K, V>>>) -> (lines: Vec<
    Line<&'a K, &'a V>,
>)
    ensures
        drawing(lines@) == tree_lines(*root),
{
    let mut lines: Vec<Line<&'a K, &'a V>> = Vec::new();
    match root {
        Some(root) => {
            print_node(root, 0, None, &mut lines);
            assert(drawing(lines@) =~= node_lines(**root, 0, None, 0));
            link_leaves(&mut lines);
        },
        None => {
            lines.push(Line::Empty);
            assert(drawing(lines@) =~= tree_lines(*root));
        },
    }
    lines
}

} // verus!
