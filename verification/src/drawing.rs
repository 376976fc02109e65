//! What the lines of a drawing say of one another: where nodes are, how far lines are indented,
//! which keys they show, and which leaves are neighbours.

use crate::marks::{in_order, leaf_marks, precedes, separator, weave, Mark};
use crate::node::Node;
use crate::order::{key_le, key_lt};
use crate::path::node_at;
use crate::print::{
    deeper, drawing, edge_lines, entry_lines, first_line, leaf_after, leaf_before, lemma_printed,
    linked, linked_line, node_lines, print_tree, printed, separator_line, shown, tree_lines, Line,
};
use vstd::prelude::*;

verus! {

/// A node begins on this line.
pub open spec fn begins<K, V>(line: Line<K, V>) -> bool {
    line is Node || line is Leaf
}

/// How far the line is indented.
pub open spec fn depth_of<K, V>(line: Line<K, V>) -> int {
    match line {
        Line::Empty => 0,
        Line::Node { depth, .. } => depth as int,
        Line::Leaf { depth, .. } => depth as int,
        Line::Entry { depth, .. } => depth as int,
        Line::Separator { depth, .. } => depth as int,
        Line::End { depth } => depth as int,
    }
}

/// The line of the node above and the edge that leads from it to the node that begins here.
pub open spec fn parent_of<K, V>(line: Line<K, V>) -> Option<(usize, usize)> {
    match line {
        Line::Node { parent, .. } => parent,
        Line::Leaf { parent, .. } => parent,
        _ => None,
    }
}

/// The line of the node above, or -1.
spec fn parent_line<K, V>(line: Line<K, V>) -> int {
    match parent_of(line) {
        Some((p, _)) => p as int,
        None => -1,
    }
}

/// A node begins here whose parent begins on line `p`.
pub open spec fn child_of<K, V>(line: Line<K, V>, p: int) -> bool {
    begins(line) && (parent_of(line) matches Some((q, _)) && q == p)
}

/// How many nodes whose parent begins on line `p` begin before line `i`.
pub open spec fn children_before<K, V>(lines: Seq<Line<K, V>>, p: int, i: int) -> nat
    decreases i,
{
    if i <= 0 {
        0
    } else {
        children_before(lines, p, i - 1) + if child_of(lines[i - 1], p) {
            1nat
        } else {
            0
        }
    }
}

/// `inner` is one level further in than `outer`, as far as there are numbers for it.
pub open spec fn one_deeper(outer: int, inner: int) -> bool {
    outer < usize::MAX ==> inner == outer + 1
}

/// Every node but the first has a parent: a node further up, one level further out. The nodes
/// below one node count its edges from 0.
pub open spec fn well_placed<K, V>(lines: Seq<Line<K, V>>) -> bool {
    forall|i: int|
        0 <= i < lines.len() && begins(#[trigger] lines[i]) ==> match parent_of(lines[i]) {
            None => i == 0 && depth_of(lines[i]) == 0,
            Some((p, e)) => {
                &&& p < i
                &&& lines[p as int] is Node
                &&& one_deeper(depth_of(lines[p as int]), depth_of(lines[i]))
                &&& e == children_before(lines, p as int, i)
            },
        }
}

proof fn lemma_children_add<K, V>(a: Seq<Line<K, V>>, b: Seq<Line<K, V>>, p: int, k: int)
    requires
        0 <= k <= (a + b).len(),
    ensures
        k <= a.len() ==> children_before(a + b, p, k) == children_before(a, p, k),
        k >= a.len() ==> children_before(a + b, p, k) == children_before(a, p, a.len() as int)
            + children_before(b, p, k - a.len()),
    decreases k,
{
    if k > 0 {
        lemma_children_add(a, b, p, k - 1);
        if k <= a.len() {
            assert((a + b)[k - 1] == a[k - 1]);
        } else {
            assert((a + b)[k - 1] == b[k - 1 - a.len()]);
        }
    }
}

proof fn lemma_no_children<K, V>(lines: Seq<Line<K, V>>, p: int, k: int)
    requires
        0 <= k <= lines.len(),
        forall|i: int| 0 <= i < k ==> !child_of(#[trigger] lines[i], p),
    ensures
        children_before(lines, p as int, k) == 0,
    decreases k,
{
    if k > 0 {
        lemma_no_children(lines, p, k - 1);
    }
}

/// What holds of line `k` of those of a node that begins on line `at`, if a node begins there.
spec fn placed_line_in<K, V>(lines: Seq<Line<K, V>>, at: int, k: int) -> bool {
    &&& parent_of(lines[k]) matches Some((p, e))
    &&& at <= p < at + k
    &&& lines[p - at] is Node
    &&& one_deeper(depth_of(lines[p - at]), depth_of(lines[k]))
    &&& e == children_before(lines, p as int, k)
}

/// The same of all lines but the first.
spec fn placed_in<K, V>(lines: Seq<Line<K, V>>, at: int) -> bool {
    forall|k: int|
        0 < k < lines.len() && begins(lines[k]) ==> #[trigger] placed_line_in(lines, at, k)
}

/// What holds of line `k` of those under the edges of a node that begins on line `at`.
spec fn placed_line_under<K, V>(lines: Seq<Line<K, V>>, at: int, depth: int, k: int) -> bool {
    &&& parent_of(lines[k]) matches Some((p, e))
    &&& e == children_before(lines, p as int, k)
    &&& if p == at {
        one_deeper(depth, depth_of(lines[k]))
    } else {
        &&& at < p <= at + k
        &&& lines[p - at - 1] is Node
        &&& one_deeper(depth_of(lines[p - at - 1]), depth_of(lines[k]))
    }
}

/// The same of all of them.
spec fn placed_under<K, V>(lines: Seq<Line<K, V>>, at: int, depth: int) -> bool {
    forall|k: int|
        0 <= k < lines.len() && begins(lines[k]) ==> #[trigger] placed_line_under(
            lines,
            at,
            depth,
            k,
        )
}

proof fn lemma_placed_node<K, V>(
    node: Node<K, V>,
    depth: usize,
    parent: Option<(usize, usize)>,
    at: nat,
)
    requires
        at + node_lines(node, depth, parent, at).len() <= usize::MAX,
        parent matches Some((p, _)) ==> p < at,
    ensures
        placed_in(node_lines(node, depth, parent, at), at as int),
    decreases node, 0nat,
{
    let lines = node_lines(node, depth, parent, at);
    if let Node::Internal { keys, edges } = node {
        let first = seq![first_line(node, depth, parent)];
        let under = edge_lines(keys@, edges@, depth, at);
        let end = Line::<K, V>::End { depth };
        assert(edges@.len() == edges.len());
        lemma_placed_edges(keys@, edges@, depth, at);
        assert(lines =~= first + under.push(end));
        assert forall|k: int| 0 < k < lines.len() && begins(lines[k]) implies #[trigger]
            placed_line_in(lines, at as int, k) by {
            assert(k - 1 < under.len());
            assert(lines[k] == under[k - 1]);
            assert(placed_line_under(under, at as int, depth as int, k - 1));
            let p = parent_line(lines[k]);
            if p != at {
                assert(lines[p - at] == under[p - at - 1]);
            }
            lemma_children_add(first, under.push(end), p, k);
            assert(under.push(end) =~= under + seq![end]);
            lemma_children_add(under, seq![end], p, k - 1);
            lemma_no_children(first, p, 1);
        }
    }
}

proof fn lemma_placed_edges<K, V>(
    keys: Seq<K>,
    edges: Seq<Box<Node<K, V>>>,
    depth: usize,
    at: nat,
)
    requires
        at + 1 + edge_lines(keys, edges, depth, at).len() <= usize::MAX,
        edges.len() <= usize::MAX,
    ensures
        placed_under(edge_lines(keys, edges, depth, at), at as int, depth as int),
        children_before(
            edge_lines(keys, edges, depth, at),
            at as int,
            edge_lines(keys, edges, depth, at).len() as int,
        ) == edges.len(),
    decreases edges, 1nat,
{
    if edges.len() > 0 {
        let lines = edge_lines(keys, edges, depth, at);
        let i = edges.len() - 1;
        let init = edge_lines(keys, edges.drop_last(), depth, at);
        let sep = separator_line::<K, V>(keys, i, depth);
        let before = init + sep;
        let b = before.len() as int;
        let start = (at + 1 + before.len()) as nat;
        let parent = Some((at as usize, i as usize));
        let node = node_lines(*edges.last(), deeper(depth), parent, start);
        assert(lines == before + node);
        lemma_placed_edges(keys, edges.drop_last(), depth, at);
        lemma_placed_node(*edges.last(), deeper(depth), parent, start);
        lemma_children_add(init, sep, at as int, b);
        lemma_no_children(sep, at as int, sep.len() as int);
        assert(children_before(before, at as int, b) == i);
        // Nothing before the last edge has a parent under it.
        assert forall|k: int, p: int| 0 <= k < b && p >= start implies !#[trigger] child_of(
            before[k],
            p,
        ) by {
            if k < init.len() {
                assert(before[k] == init[k]);
                assert(begins(init[k]) ==> placed_line_under(init, at as int, depth as int, k));
            }
        }
        assert forall|k: int| 0 < k < node.len() implies !child_of(
            #[trigger] node[k],
            at as int,
        ) by {
            assert(begins(node[k]) ==> placed_line_in(node, start as int, k));
        }
        assert(begins(node[0]) && parent_of(node[0]) == parent);
        assert(depth_of(node[0]) == deeper(depth));
        assert forall|k: int| 0 <= k < lines.len() && begins(lines[k]) implies #[trigger]
            placed_line_under(lines, at as int, depth as int, k) by {
            if k < b {
                assert(lines[k] == before[k]);
                assert(k < init.len());
                assert(lines[k] == init[k]);
                assert(placed_line_under(init, at as int, depth as int, k));
                let p = parent_line(lines[k]);
                lemma_children_add(before, node, p, k);
                lemma_children_add(init, sep, p, k);
                if p != at {
                    assert(lines[p - at - 1] == init[p - at - 1]);
                }
            } else if k == b {
                assert(lines[k] == node[0]);
                lemma_children_add(before, node, at as int, k);
            } else {
                assert(lines[k] == node[k - b]);
                assert(placed_line_in(node, start as int, k - b));
                let p = parent_line(lines[k]);
                lemma_children_add(before, node, p, k);
                assert forall|j: int| 0 <= j < b implies !child_of(#[trigger] before[j], p) by {
                    assert(!child_of(before[j], p));
                }
                lemma_no_children(before, p, b);
                assert(lines[p - at - 1] == node[p - start]);
            }
        }
        lemma_children_add(before, node, at as int, lines.len() as int);
        lemma_one_child(node, at as int, node.len() as int);
    }
}

proof fn lemma_one_child<K, V>(lines: Seq<Line<K, V>>, p: int, k: int)
    requires
        1 <= k <= lines.len(),
        child_of(lines[0], p),
        forall|i: int| 0 < i < k ==> !child_of(#[trigger] lines[i], p),
    ensures
        children_before(lines, p as int, k) == 1,
    decreases k,
{
    if k > 1 {
        lemma_one_child(lines, p, k - 1);
    } else {
        assert(children_before(lines, p, 0) == 0);
    }
}

/// The lines say the same of nodes, levels and neighbours, whatever keys and values they show.
pub open spec fn same_frame<K1, V1, K2, V2>(a: Line<K1, V1>, b: Line<K2, V2>) -> bool {
    match (a, b) {
        (Line::Empty, Line::Empty) => true,
        (
            Line::Node { depth: d1, parent: p1 },
            Line::Node { depth: d2, parent: p2 },
        ) => d1 == d2 && p1 == p2,
        (
            Line::Leaf { depth: d1, parent: p1, .. },
            Line::Leaf { depth: d2, parent: p2, .. },
        ) => d1 == d2 && p1 == p2,
        (
            Line::Entry { depth: d1, last: l1, .. },
            Line::Entry { depth: d2, last: l2, .. },
        ) => d1 == d2 && l1 == l2,
        (Line::Separator { depth: d1, .. }, Line::Separator { depth: d2, .. }) => d1 == d2,
        (Line::End { depth: d1 }, Line::End { depth: d2 }) => d1 == d2,
        _ => false,
    }
}

spec fn same_frames<K1, V1, K2, V2>(a: Seq<Line<K1, V1>>, b: Seq<Line<K2, V2>>) -> bool {
    &&& a.len() == b.len()
    &&& forall|i: int|
        #![trigger a[i]]
        #![trigger b[i]]
        0 <= i < a.len() ==> same_frame(a[i], b[i])
}

proof fn lemma_same_children<K1, V1, K2, V2>(
    a: Seq<Line<K1, V1>>,
    b: Seq<Line<K2, V2>>,
    p: int,
    k: int,
)
    requires
        same_frames(a, b),
        0 <= k <= a.len(),
    ensures
        children_before(a, p, k) == children_before(b, p, k),
    decreases k,
{
    if k > 0 {
        lemma_same_children(a, b, p, k - 1);
        assert(same_frame(a[k - 1], b[k - 1]));
    }
}

proof fn lemma_same_places<K1, V1, K2, V2>(a: Seq<Line<K1, V1>>, b: Seq<Line<K2, V2>>)
    requires
        same_frames(a, b),
        well_placed(a),
    ensures
        well_placed(b),
{
    assert forall|i: int| 0 <= i < b.len() && begins(#[trigger] b[i]) implies match parent_of(
        b[i],
    ) {
        None => i == 0 && depth_of(b[i]) == 0,
        Some((p, e)) => {
            &&& p < i
            &&& b[p as int] is Node
            &&& one_deeper(depth_of(b[p as int]), depth_of(b[i]))
            &&& e == children_before(b, p as int, i)
        },
    } by {
        assert(same_frame(a[i], b[i]));
        if let Some((p, e)) = parent_of(b[i]) {
            assert(same_frame(a[p as int], b[p as int]));
            lemma_same_children(a, b, p as int, i);
        }
    }
}

/// What is printed of a tree.
proof fn lemma_print_frames<K, V>(root: Node<K, V>, lines: Seq<Line<&K, &V>>)
    requires
        drawing(lines) == linked(node_lines(root, 0, None, 0)),
    ensures
        same_frames(node_lines(root, 0, None, 0), lines),
{
    let draft = node_lines(root, 0, None, 0);
    assert(drawing(lines).len() == lines.len());
    assert forall|i: int|
        #![trigger draft[i]]
        #![trigger lines[i]]
        0 <= i < draft.len() implies same_frame(draft[i], lines[i]) by {
        assert(drawing(lines)[i] == shown(lines[i]));
        assert(linked(draft)[i] == linked_line(draft, i));
    }
}

/// In what is printed of a tree, every node but the root names its parent: a node further up, one
/// level further out. The nodes below one node count its edges from 0.
pub proof fn lemma_print_places<K, V>(root: Option<Box<Node<K, V>>>, lines: Seq<Line<&K, &V>>)
    requires
        drawing(lines) == tree_lines(root),
        lines.len() <= usize::MAX,
    ensures
        well_placed(lines),
{
    assert(drawing(lines).len() == lines.len());
    match root {
        Some(root) => {
            let draft = node_lines(*root, 0, None, 0);
            lemma_placed_node(*root, 0, None, 0);
            assert(well_placed(draft)) by {
                assert forall|i: int| 0 < i < draft.len() && begins(
                    #[trigger] draft[i],
                ) implies placed_line_in(draft, 0, i) by {}
            }
            lemma_print_frames(*root, lines);
            lemma_same_places(draft, lines);
        },
        None => {
            assert(shown(lines[0]) == drawing(lines)[0]);
        },
    }
}

/// What may follow line `n` of a drawing: a node is followed by its first edge, a leaf by its
/// entries, and a key by the edge to its right. When a node has been drawn to its end, a key of
/// the node above follows, or the end of that node.
pub open spec fn follows<K, V>(line: Line<K, V>, n: int, next: Line<K, V>) -> bool {
    match line {
        Line::Empty => false,
        Line::Node { .. } => begins(next) && parent_of(next) == Some((n as usize, 0usize)),
        Line::Leaf { .. } => next is Entry && depth_of(next) == depth_of(line),
        Line::Entry { last: false, .. } => next is Entry && depth_of(next) == depth_of(line),
        Line::Separator { .. } => {
            &&& begins(next)
            &&& depth_of(next) == depth_of(line) + 1
            &&& parent_of(next) matches Some((_, e))
            &&& e > 0
        },
        _ => (next is Separator || next is End) && depth_of(next) + 1 == depth_of(line),
    }
}

/// A node at this depth has been drawn to its end.
pub open spec fn ends<K, V>(line: Line<K, V>, depth: int) -> bool {
    &&& line is End || (line matches Line::Entry { last, .. } && last)
    &&& depth_of(line) == depth
}

/// The drawing begins with the root and goes on until the root has been drawn to its end.
pub open spec fn well_nested<K, V>(lines: Seq<Line<K, V>>) -> bool {
    &&& lines.len() > 0
    &&& begins(lines[0])
    &&& depth_of(lines[0]) == 0
    &&& ends(lines.last(), 0)
    &&& forall|k: int, j: int|
        #![trigger lines[k], lines[j]]
        0 <= k < j < lines.len() && j == k + 1 ==> follows(lines[k], k, lines[j])
}

/// The same of a part of a drawing that begins on line `at`.
spec fn nested_from<K, V>(lines: Seq<Line<K, V>>, at: int) -> bool {
    forall|k: int, j: int|
        #![trigger lines[k], lines[j]]
        0 <= k < j < lines.len() && j == k + 1 ==> follows(lines[k], at + k, lines[j])
}

proof fn lemma_nested_add<K, V>(a: Seq<Line<K, V>>, b: Seq<Line<K, V>>, at: int)
    requires
        a.len() > 0,
        b.len() > 0,
        nested_from(a, at),
        nested_from(b, at + a.len()),
        follows(a.last(), at + a.len() - 1, b[0]),
    ensures
        nested_from(a + b, at),
{
    let lines = a + b;
    let n = a.len() as int;
    assert forall|k: int, j: int|
        #![trigger lines[k], lines[j]]
        0 <= k < j < lines.len() && j == k + 1 implies follows(lines[k], at + k, lines[j]) by {
        if j < n {
            assert(lines[k] == a[k] && lines[j] == a[j]);
        } else if j == n {
            assert(lines[k] == a.last() && lines[j] == b[0]);
        } else {
            assert(lines[k] == b[k - n] && lines[j] == b[j - n]);
            assert(follows(b[k - n], at + n + (k - n), b[j - n]));
        }
    }
}

proof fn lemma_nested_node<K, V>(
    node: Node<K, V>,
    depth: usize,
    parent: Option<(usize, usize)>,
    at: nat,
    h: nat,
)
    requires
        node.shaped(h),
        node.count() >= 1,
        depth + h <= usize::MAX,
        at + node_lines(node, depth, parent, at).len() <= usize::MAX,
    ensures
        node_lines(node, depth, parent, at).len() > 0,
        node_lines(node, depth, parent, at)[0] == first_line(node, depth, parent),
        nested_from(node_lines(node, depth, parent, at), at as int),
        ends(node_lines(node, depth, parent, at).last(), depth as int),
    decreases node, 0nat,
{
    let lines = node_lines(node, depth, parent, at);
    let first = seq![first_line(node, depth, parent)];
    match node {
        Node::Leaf { entries } => {
            let shown = entry_lines(entries@, depth);
            assert(lines == first + shown);
            assert(lines.last() == shown[shown.len() - 1]);
            lemma_nested_add(first, shown, at as int);
        },
        Node::Internal { keys, edges } => {
            let under = edge_lines(keys@, edges@, depth, at);
            let end = seq![Line::<K, V>::End { depth }];
            assert(lines =~= first + (under + end));
            lemma_nested_edges(keys@, edges@, depth, at, h);
            lemma_nested_add(under, end, at as int + 1);
            assert((under + end)[0] == under[0]);
            lemma_nested_add(first, under + end, at as int);
        },
    }
}

proof fn lemma_nested_edges<K, V>(
    keys: Seq<K>,
    edges: Seq<Box<Node<K, V>>>,
    depth: usize,
    at: nat,
    h: nat,
)
    requires
        h > 0,
        0 < edges.len() <= keys.len() + 1,
        edges.len() <= usize::MAX,
        forall|i: int| 0 <= i < edges.len() ==> (#[trigger] edges[i]).full((h - 1) as nat),
        depth + h <= usize::MAX,
        at + 1 + edge_lines(keys, edges, depth, at).len() <= usize::MAX,
    ensures
        edge_lines(keys, edges, depth, at).len() > 0,
        edge_lines(keys, edges, depth, at)[0] == first_line(
            *edges[0],
            (depth + 1) as usize,
            Some((at as usize, 0usize)),
        ),
        nested_from(edge_lines(keys, edges, depth, at), at as int + 1),
        ends(edge_lines(keys, edges, depth, at).last(), depth + 1),
    decreases edges, 1nat,
{
    let i = edges.len() - 1;
    let init = edge_lines(keys, edges.drop_last(), depth, at);
    let sep = separator_line::<K, V>(keys, i, depth);
    let start = at + 1 + (init + sep).len();
    let parent = Some((at as usize, i as usize));
    let node = node_lines(*edges.last(), deeper(depth), parent, start);
    assert(edges[i].full((h - 1) as nat));
    lemma_nested_node(*edges.last(), deeper(depth), parent, start, (h - 1) as nat);
    assert(edge_lines(keys, edges, depth, at) == init + sep + node);
    if i == 0 {
        assert(init + sep + node =~= node);
    } else {
        assert forall|j: int| 0 <= j < i implies (#[trigger] edges.drop_last()[j]).full(
            (h - 1) as nat,
        ) by {
            assert(edges[j].full((h - 1) as nat));
        }
        lemma_nested_edges(keys, edges.drop_last(), depth, at, h);
        lemma_nested_add(init, sep, at as int + 1);
        assert((init + sep).last() == sep[0]);
        lemma_nested_add(init + sep, node, at as int + 1);
        assert((init + sep + node)[0] == init[0]);
    }
}

/// In what is printed of a b-tree every line is followed by one that may follow it.
pub proof fn lemma_print_levels<K, V>(
    root: Box<Node<K, V>>,
    lines: Seq<Line<&K, &V>>,
    h: usize,
)
    requires
        drawing(lines) == tree_lines(Some(root)),
        lines.len() <= usize::MAX,
        root.shaped(h as nat),
        root.count() >= 1,
    ensures
        well_nested(lines),
{
    assert(drawing(lines).len() == lines.len());
    let draft = node_lines(*root, 0, None, 0);
    lemma_nested_node(*root, 0, None, 0, h as nat);
    lemma_print_frames(*root, lines);
    assert(same_frame(draft[0], lines[0]));
    assert(same_frame(draft[draft.len() - 1], lines[draft.len() - 1]));
    assert forall|k: int, j: int|
        #![trigger lines[k], lines[j]]
        0 <= k < j < lines.len() && j == k + 1 implies follows(lines[k], k, lines[j]) by {
        assert(same_frame(draft[k], lines[k]));
        assert(same_frame(draft[j], lines[j]));
        assert(follows(draft[k], 0 + k, draft[j]));
    }
}

/// Every leaf names the leaves next to it: there is none in between, and where none is named
/// there is none on that side.
pub open spec fn well_linked<K, V>(lines: Seq<Line<K, V>>) -> bool {
    forall|i: int|
        0 <= i < lines.len() ==> (#[trigger] lines[i] matches Line::Leaf { prev, next, .. } ==> {
            &&& match prev {
                Some(p) => {
                    &&& p < i
                    &&& lines[p as int] is Leaf
                    &&& forall|j: int| p < j < i ==> !(#[trigger] lines[j] is Leaf)
                },
                None => forall|j: int| 0 <= j < i ==> !(#[trigger] lines[j] is Leaf),
            }
            &&& match next {
                Some(p) => {
                    &&& i < p < lines.len()
                    &&& lines[p as int] is Leaf
                    &&& forall|j: int| i < j < p ==> !(#[trigger] lines[j] is Leaf)
                },
                None => forall|j: int| i < j < lines.len() ==> !(#[trigger] lines[j] is Leaf),
            }
        })
}

proof fn lemma_leaf_before<K, V>(lines: Seq<Line<K, V>>, i: int)
    requires
        0 <= i <= lines.len() <= usize::MAX,
    ensures
        match leaf_before(lines, i) {
            Some(p) => {
                &&& p < i
                &&& lines[p as int] is Leaf
                &&& forall|j: int| p < j < i ==> !(#[trigger] lines[j] is Leaf)
            },
            None => forall|j: int| 0 <= j < i ==> !(#[trigger] lines[j] is Leaf),
        },
    decreases i,
{
    if i > 0 && !(lines[i - 1] is Leaf) {
        lemma_leaf_before(lines, i - 1);
    }
}

proof fn lemma_leaf_after<K, V>(lines: Seq<Line<K, V>>, i: int)
    requires
        0 <= i < lines.len() <= usize::MAX,
    ensures
        match leaf_after(lines, i) {
            Some(p) => {
                &&& i < p < lines.len()
                &&& lines[p as int] is Leaf
                &&& forall|j: int| i < j < p ==> !(#[trigger] lines[j] is Leaf)
            },
            None => forall|j: int| i < j < lines.len() ==> !(#[trigger] lines[j] is Leaf),
        },
    decreases lines.len() - i,
{
    if i + 1 < lines.len() && !(lines[i + 1] is Leaf) {
        lemma_leaf_after(lines, i + 1);
    }
}

/// In what is printed of a tree every leaf names the leaves next to it.
pub proof fn lemma_print_leaves<K, V>(root: Option<Box<Node<K, V>>>, lines: Seq<Line<&K, &V>>)
    requires
        drawing(lines) == tree_lines(root),
        lines.len() <= usize::MAX,
    ensures
        well_linked(lines),
{
    assert(drawing(lines).len() == lines.len());
    match root {
        Some(root) => {
            let draft = node_lines(*root, 0, None, 0);
            lemma_print_frames(*root, lines);
            assert forall|i: int|
                #![trigger draft[i]]
                #![trigger lines[i]]
                0 <= i < lines.len() implies same_frame(draft[i], lines[i]) && (
            lines[i] matches Line::Leaf { prev, next, .. } ==> prev == leaf_before(draft, i)
                && next == leaf_after(draft, i)) by {
                assert(drawing(lines)[i] == shown(lines[i]));
                assert(linked(draft)[i] == linked_line(draft, i));
                assert(same_frame(draft[i], lines[i]));
            }
            assert forall|i: int| 0 <= i < lines.len() implies (#[trigger] lines[i] matches
                Line::Leaf { prev, next, .. } ==> {
                &&& match prev {
                    Some(p) => {
                        &&& p < i
                        &&& lines[p as int] is Leaf
                        &&& forall|j: int| p < j < i ==> !(#[trigger] lines[j] is Leaf)
                    },
                    None => forall|j: int| 0 <= j < i ==> !(#[trigger] lines[j] is Leaf),
                }
                &&& match next {
                    Some(p) => {
                        &&& i < p < lines.len()
                        &&& lines[p as int] is Leaf
                        &&& forall|j: int| i < j < p ==> !(#[trigger] lines[j] is Leaf)
                    },
                    None => forall|j: int|
                        i < j < lines.len() ==> !(#[trigger] lines[j] is Leaf),
                }
            }) by {
                lemma_leaf_before(draft, i);
                lemma_leaf_after(draft, i);
            }
        },
        None => {
            assert(shown(lines[0]) == drawing(lines)[0]);
        },
    }
}

/// The keys that the lines show, from top to bottom.
pub open spec fn drawn_marks<K, V>(lines: Seq<Line<K, V>>) -> Seq<Mark<K>>
    decreases lines.len(),
{
    if lines.len() == 0 {
        Seq::empty()
    } else {
        let before = drawn_marks(lines.drop_last());
        match lines.last() {
            Line::Entry { key, .. } => before.push(Mark::Entry(key)),
            Line::Separator { key, .. } => before.push(Mark::Separator(key)),
            _ => before,
        }
    }
}

proof fn lemma_drawn_add<K, V>(a: Seq<Line<K, V>>, b: Seq<Line<K, V>>)
    ensures
        drawn_marks(a + b) == drawn_marks(a) + drawn_marks(b),
    decreases b.len(),
{
    if b.len() == 0 {
        assert(a + b =~= a);
        assert(drawn_marks(a) + drawn_marks(b) =~= drawn_marks(a));
    } else {
        assert((a + b).drop_last() =~= a + b.drop_last());
        lemma_drawn_add(a, b.drop_last());
        assert(drawn_marks(a + b) =~= drawn_marks(a) + drawn_marks(b));
    }
}

proof fn lemma_drawn_one<K, V>(line: Line<K, V>)
    ensures
        drawn_marks(seq![line]) == match line {
            Line::Entry { key, .. } => seq![Mark::Entry(key)],
            Line::Separator { key, .. } => seq![Mark::Separator(key)],
            _ => Seq::empty(),
        },
{
    assert(seq![line].drop_last() =~= Seq::empty());
    assert(drawn_marks(seq![line].drop_last()) =~= Seq::<Mark<K>>::empty());
    assert(drawn_marks(seq![line]) =~= match line {
        Line::Entry { key, .. } => seq![Mark::Entry(key)],
        Line::Separator { key, .. } => seq![Mark::Separator(key)],
        _ => Seq::empty(),
    });
}

proof fn lemma_drawn_entries<K, V>(entries: Seq<(K, V)>, lines: Seq<Line<K, V>>)
    requires
        lines.len() == entries.len(),
        forall|i: int|
            0 <= i < lines.len() ==> (#[trigger] lines[i] matches Line::Entry { key, .. } && key
                == entries[i].0),
    ensures
        drawn_marks(lines) == leaf_marks(entries),
    decreases lines.len(),
{
    if lines.len() > 0 {
        let n = lines.len() - 1;
        assert forall|i: int| 0 <= i < n implies (#[trigger] lines.drop_last()[i] matches
            Line::Entry { key, .. } && key == entries.drop_last()[i].0) by {
            assert(lines[i] is Entry);
        }
        lemma_drawn_entries(entries.drop_last(), lines.drop_last());
        assert(lines.last() == lines[n]);
    }
    assert(drawn_marks(lines) =~= leaf_marks(entries));
}

proof fn lemma_drawn_node<K, V>(
    node: Node<K, V>,
    depth: usize,
    parent: Option<(usize, usize)>,
    at: nat,
)
    ensures
        drawn_marks(node_lines(node, depth, parent, at)) == node.marks(),
    decreases node, 0nat,
{
    let first = first_line(node, depth, parent);
    lemma_drawn_one(first);
    match node {
        Node::Leaf { entries } => {
            let lines = entry_lines(entries@, depth);
            lemma_drawn_entries(entries@, lines);
            lemma_drawn_add(seq![first], lines);
        },
        Node::Internal { keys, edges } => {
            let lines = edge_lines(keys@, edges@, depth, at);
            lemma_drawn_edges(keys@, edges@, depth, at);
            assert(lines.push(Line::End { depth }).drop_last() =~= lines);
            lemma_drawn_add(seq![first], lines.push(Line::End { depth }));
        },
    }
    assert(drawn_marks(node_lines(node, depth, parent, at)) =~= node.marks());
}

proof fn lemma_drawn_edges<K, V>(
    keys: Seq<K>,
    edges: Seq<Box<Node<K, V>>>,
    depth: usize,
    at: nat,
)
    ensures
        drawn_marks(edge_lines(keys, edges, depth, at)) == weave(keys, edges),
    decreases edges, 1nat,
{
    if edges.len() > 0 {
        let i = edges.len() - 1;
        let init = edge_lines(keys, edges.drop_last(), depth, at);
        let sep = separator_line::<K, V>(keys, i, depth);
        let parent = Some((at as usize, i as usize));
        let start = at + 1 + (init + sep).len();
        let node = node_lines(*edges.last(), deeper(depth), parent, start);
        lemma_drawn_edges(keys, edges.drop_last(), depth, at);
        lemma_drawn_node(*edges.last(), deeper(depth), parent, start);
        lemma_drawn_add(init, sep);
        lemma_drawn_add(init + sep, node);
        if 0 < i <= keys.len() {
            lemma_drawn_one(Line::<K, V>::Separator { depth, key: keys[i - 1] });
        }
        assert(drawn_marks(sep) =~= separator(keys, i));
    }
    assert(drawn_marks(edge_lines(keys, edges, depth, at)) =~= weave(keys, edges));
}

proof fn lemma_drawn_alike<K, V>(a: Seq<Line<K, V>>, b: Seq<Line<K, V>>)
    requires
        a.len() == b.len(),
        forall|i: int|
            0 <= i < a.len() ==> ((#[trigger] a[i]) is Leaf && b[i] is Leaf) || a[i] == b[i],
    ensures
        drawn_marks(a) == drawn_marks(b),
    decreases a.len(),
{
    if a.len() > 0 {
        let n = a.len() - 1;
        assert forall|i: int| 0 <= i < n implies ((#[trigger] a.drop_last()[i]) is Leaf
            && b.drop_last()[i] is Leaf) || a.drop_last()[i] == b.drop_last()[i] by {
            assert(a.drop_last()[i] == a[i]);
        }
        lemma_drawn_alike(a.drop_last(), b.drop_last());
        assert(a.last() == a[n]);
    }
}

/// What is printed of a tree shows all its keys from left to right, those of the entries and those
/// between the edges.
pub proof fn lemma_print_keys<K, V>(root: Option<Box<Node<K, V>>>, lines: Seq<Line<&K, &V>>)
    requires
        drawing(lines) == tree_lines(root),
        lines.len() <= usize::MAX,
    ensures
        drawn_marks(drawing(lines)) == match root {
            Some(root) => root.marks(),
            None => Seq::empty(),
        },
{
    match root {
        Some(root) => {
            let draft = node_lines(*root, 0, None, 0);
            lemma_drawn_node(*root, 0, None, 0);
            lemma_drawn_alike(draft, linked(draft));
        },
        None => lemma_drawn_one(Line::<K, V>::Empty),
    }
}

/// The key that a line shows.
pub open spec fn mark_of<K, V>(line: Line<K, V>) -> Option<Mark<K>> {
    match line {
        Line::Entry { key, .. } => Some(Mark::Entry(key)),
        Line::Separator { key, .. } => Some(Mark::Separator(key)),
        _ => None,
    }
}

/// Where a line that shows a key stands among those that do.
proof fn lemma_mark_index<K, V>(lines: Seq<Line<K, V>>, i: int) -> (a: int)
    requires
        0 <= i < lines.len(),
        mark_of(lines[i]) is Some,
    ensures
        a == drawn_marks(lines.take(i)).len(),
        0 <= a < drawn_marks(lines).len(),
        drawn_marks(lines)[a] == mark_of(lines[i])->0,
        drawn_marks(lines.take(i + 1)).len() == a + 1,
{
    let a = drawn_marks(lines.take(i)).len() as int;
    assert(lines.take(i + 1).drop_last() =~= lines.take(i));
    assert(lines =~= lines.take(i + 1) + lines.skip(i + 1));
    lemma_drawn_add(lines.take(i + 1), lines.skip(i + 1));
    assert(drawn_marks(lines.take(i + 1))[a] == mark_of(lines[i])->0);
    a
}

/// If the keys that are shown are in order, then every line that shows a key may come before every
/// later one that does.
pub proof fn lemma_drawn_order<K: Ord, V>(lines: Seq<Line<K, V>>)
    requires
        in_order(drawn_marks(lines)),
    ensures
        forall|i: int, j: int|
            #![trigger lines[i], lines[j]]
            0 <= i < j < lines.len() ==> match (lines[i], lines[j]) {
                (Line::Entry { key: x, .. }, Line::Entry { key: y, .. }) => key_lt(x, y),
                (Line::Entry { key: x, .. }, Line::Separator { key: y, .. }) => key_lt(x, y),
                (Line::Separator { key: x, .. }, Line::Entry { key: y, .. }) => key_le(x, y),
                (Line::Separator { key: x, .. }, Line::Separator { key: y, .. }) => key_lt(x, y),
                _ => true,
            },
{
    assert forall|i: int, j: int|
        #![trigger lines[i], lines[j]]
        0 <= i < j < lines.len() implies match (lines[i], lines[j]) {
        (Line::Entry { key: x, .. }, Line::Entry { key: y, .. }) => key_lt(x, y),
        (Line::Entry { key: x, .. }, Line::Separator { key: y, .. }) => key_lt(x, y),
        (Line::Separator { key: x, .. }, Line::Entry { key: y, .. }) => key_le(x, y),
        (Line::Separator { key: x, .. }, Line::Separator { key: y, .. }) => key_lt(x, y),
        _ => true,
    } by {
        if mark_of(lines[i]) is Some && mark_of(lines[j]) is Some {
            let a = lemma_mark_index(lines, i);
            let b = lemma_mark_index(lines, j);
            let part = lines.take(j);
            assert(part.take(i + 1) =~= lines.take(i + 1));
            assert(part =~= part.take(i + 1) + part.skip(i + 1));
            lemma_drawn_add(part.take(i + 1), part.skip(i + 1));
            assert(a < b);
            assert(precedes(drawn_marks(lines)[a], drawn_marks(lines)[b]));
        }
    }
}

/// The way from the root to the node that begins on line `i`, as the lines tell it.
pub open spec fn path_of<K, V>(lines: Seq<Line<K, V>>, i: int) -> Seq<usize>
    decreases i,
{
    match parent_of(lines[i]) {
        Some((p, e)) => if p < i {
            path_of(lines, p as int).push(e)
        } else {
            Seq::empty()
        },
        None => Seq::empty(),
    }
}

/// Every node that begins on a line is the node of the tree that the lines say it is: a leaf or an
/// internal node, with as many edges as nodes name it as their parent.
pub open spec fn shows_nodes<K, V, L, W>(lines: Seq<Line<L, W>>, root: Node<K, V>) -> bool {
    forall|i: int|
        0 <= i < lines.len() && begins(#[trigger] lines[i]) ==> {
            &&& node_at(root, path_of(lines, i)) matches Some(node)
            &&& match node {
                Node::Leaf { .. } => lines[i] is Leaf,
                Node::Internal { edges, .. } => {
                    &&& lines[i] is Node
                    &&& children_before(lines, i, lines.len() as int) == edges@.len()
                },
            }
        }
}

/// The same way within the lines of a node that begins on line `at`.
spec fn path_in<K, V>(lines: Seq<Line<K, V>>, at: int, k: int) -> Seq<usize>
    decreases k,
{
    match parent_of(lines[k]) {
        Some((p, e)) => if k > 0 && at <= p < at + k {
            path_in(lines, at, p - at).push(e)
        } else {
            Seq::empty()
        },
        None => Seq::empty(),
    }
}

/// The same way within the lines under the edges of a node that begins on line `at`.
spec fn path_under<K, V>(lines: Seq<Line<K, V>>, at: int, k: int) -> Seq<usize>
    decreases k,
{
    match parent_of(lines[k]) {
        Some((p, e)) => if at < p <= at + k {
            path_under(lines, at, p - at - 1).push(e)
        } else {
            seq![e]
        },
        None => Seq::empty(),
    }
}

/// The line begins `node`, of which `edges` children are shown.
spec fn shows<K, V, L, W>(line: Line<L, W>, children: nat, node: Option<Node<K, V>>) -> bool {
    &&& node matches Some(node)
    &&& match node {
        Node::Leaf { .. } => line is Leaf,
        Node::Internal { edges, .. } => line is Node && children == edges@.len(),
    }
}

spec fn shows_in<K, V>(lines: Seq<Line<K, V>>, at: int, node: Node<K, V>) -> bool {
    forall|k: int|
        #![trigger path_in(lines, at, k)]
        0 <= k < lines.len() && begins(lines[k]) ==> shows(
            lines[k],
            children_before(lines, at + k, lines.len() as int),
            node_at(node, path_in(lines, at, k)),
        )
}

spec fn shows_under<K, V>(
    lines: Seq<Line<K, V>>,
    at: int,
    edges: Seq<Box<Node<K, V>>>,
) -> bool {
    forall|k: int|
        0 <= k < lines.len() && begins(#[trigger] lines[k]) ==> {
            let path = path_under(lines, at, k);
            &&& path.len() > 0
            &&& path[0] < edges.len()
            &&& shows(
                lines[k],
                children_before(lines, at + 1 + k, lines.len() as int),
                node_at(*edges[path[0] as int], path.drop_first()),
            )
        }
}

/// A way told by the lines under the edges is the same with the line of the node in front.
proof fn lemma_path_in_under<K, V>(
    first: Line<K, V>,
    under: Seq<Line<K, V>>,
    end: Line<K, V>,
    at: int,
    depth: int,
    k: int,
)
    requires
        placed_under(under, at, depth),
        0 <= k < under.len(),
        begins(under[k]),
    ensures
        path_in(seq![first] + under.push(end), at, k + 1) == path_under(under, at, k),
    decreases k,
{
    let lines = seq![first] + under.push(end);
    assert(lines[k + 1] == under[k]);
    assert(placed_line_under(under, at, depth, k));
    let p = parent_line(under[k]);
    if p == at {
        assert(path_in(lines, at, 0) =~= Seq::empty()) by {
            assert(lines[0] == first);
        }
        assert(path_in(lines, at, k + 1) =~= path_under(under, at, k));
    } else {
        assert(begins(under[p - at - 1]));
        lemma_path_in_under(first, under, end, at, depth, p - at - 1);
    }
}

/// A way told by the lines under the first edges is the same with more lines behind.
proof fn lemma_path_under_init<K, V>(
    a: Seq<Line<K, V>>,
    b: Seq<Line<K, V>>,
    at: int,
    depth: int,
    k: int,
)
    requires
        placed_under(a, at, depth),
        0 <= k < a.len(),
        begins(a[k]),
    ensures
        path_under(a + b, at, k) == path_under(a, at, k),
    decreases k,
{
    assert((a + b)[k] == a[k]);
    assert(placed_line_under(a, at, depth, k));
    let p = parent_line(a[k]);
    if p != at {
        assert(begins(a[p - at - 1]));
        lemma_path_under_init(a, b, at, depth, p - at - 1);
    }
}

/// A way told by the lines of the last edge goes through that edge.
proof fn lemma_path_under_last<K, V>(
    before: Seq<Line<K, V>>,
    node: Seq<Line<K, V>>,
    at: int,
    e: usize,
    k: int,
)
    requires
        placed_in(node, at + 1 + before.len()),
        0 <= k < node.len(),
        begins(node[k]),
        parent_of(node[0]) matches Some((p, f)) && p == at && f == e,
        begins(node[0]),
    ensures
        path_under(before + node, at, before.len() + k) == seq![e] + path_in(
            node,
            at + 1 + before.len(),
            k,
        ),
    decreases k,
{
    let lines = before + node;
    let b = before.len() as int;
    let start = at + 1 + b;
    assert(lines[b + k] == node[k]);
    if k == 0 {
        assert(path_under(lines, at, b) =~= seq![e] + path_in(node, start, 0));
    } else {
        assert(placed_line_in(node, start, k));
        let p = parent_line(node[k]);
        assert(begins(node[p - start]));
        lemma_path_under_last(before, node, at, e, p - start);
        assert(b + (p - start) == p - at - 1);
        assert(path_under(lines, at, b + k) =~= seq![e] + path_in(node, start, k));
    }
}

proof fn lemma_shows_node<K, V>(
    node: Node<K, V>,
    depth: usize,
    parent: Option<(usize, usize)>,
    at: nat,
)
    requires
        at + node_lines(node, depth, parent, at).len() <= usize::MAX,
        parent matches Some((p, _)) ==> p < at,
    ensures
        shows_in(node_lines(node, depth, parent, at), at as int, node),
    decreases node, 0nat,
{
    let lines = node_lines(node, depth, parent, at);
    let first = first_line(node, depth, parent);
    assert(lines[0] == first);
    match node {
        Node::Leaf { entries } => {
            assert forall|k: int| 0 <= k < lines.len() && begins(#[trigger] lines[k]) implies shows(
                lines[k],
                children_before(lines, at + k, lines.len() as int),
                node_at(node, path_in(lines, at as int, k)),
            ) by {
                if k > 0 {
                    assert(lines[k] == entry_lines(entries@, depth)[k - 1]);
                }
            }
        },
        Node::Internal { keys, edges } => {
            let under = edge_lines(keys@, edges@, depth, at);
            let end = Line::<K, V>::End { depth };
            assert(edges@.len() == edges.len());
            lemma_placed_edges(keys@, edges@, depth, at);
            lemma_shows_edges(keys@, edges@, depth, at);
            assert(lines =~= seq![first] + under.push(end));
            assert forall|k: int| 0 <= k < lines.len() && begins(#[trigger] lines[k]) implies shows(
                lines[k],
                children_before(lines, at + k, lines.len() as int),
                node_at(node, path_in(lines, at as int, k)),
            ) by {
                let p = (at + k) as int;
                lemma_children_add(seq![first], under.push(end), p, lines.len() as int);
                assert(under.push(end) =~= under + seq![end]);
                lemma_children_add(under, seq![end], p, under.len() as int + 1);
                lemma_no_children(seq![first], p, 1);
                lemma_no_children(seq![end], p, 1);
                if k > 0 {
                    assert(lines[k] == under[k - 1]);
                    assert(begins(under[k - 1]));
                    lemma_path_in_under(first, under, end, at as int, depth as int, k - 1);
                }
            }
        },
    }
}

/// What a line under one of the first edges shows does not change when the last edge is drawn.
proof fn lemma_shows_first<K, V>(
    init: Seq<Line<K, V>>,
    sep: Seq<Line<K, V>>,
    node: Seq<Line<K, V>>,
    at: int,
    depth: int,
    k: int,
)
    requires
        placed_under(init, at, depth),
        placed_in(node, at + 1 + init.len() + sep.len()),
        0 <= k < init.len(),
        begins(init[k]),
        parent_line(node[0]) == at,
        forall|j: int| 0 <= j < sep.len() ==> !begins(#[trigger] sep[j]),
    ensures
        ({
            let lines = init + sep + node;
            &&& path_under(lines, at, k) == path_under(init, at, k)
            &&& children_before(lines, at + 1 + k, lines.len() as int) == children_before(
                init,
                at + 1 + k,
                init.len() as int,
            )
        }),
{
    let p = at + 1 + k;
    let before = init + sep;
    lemma_children_add(before, node, p, (before + node).len() as int);
    lemma_children_add(init, sep, p, before.len() as int);
    lemma_no_children(sep, p, sep.len() as int);
    assert(init + sep + node =~= init + (sep + node));
    lemma_path_under_init(init, sep + node, at, depth, k);
    assert forall|j: int| 0 <= j < node.len() implies !child_of(#[trigger] node[j], p) by {
        if j > 0 && begins(node[j]) {
            assert(placed_line_in(node, at + 1 + init.len() + sep.len(), j));
        }
    }
    lemma_no_children(node, p, node.len() as int);
}

/// What a line under the last edge shows is what it shows within that edge.
proof fn lemma_shows_last<K, V>(
    init: Seq<Line<K, V>>,
    sep: Seq<Line<K, V>>,
    node: Seq<Line<K, V>>,
    at: int,
    depth: int,
    e: usize,
    k: int,
)
    requires
        placed_under(init, at, depth),
        placed_in(node, at + 1 + (init + sep).len()),
        0 <= k < node.len(),
        begins(node[k]),
        begins(node[0]),
        parent_of(node[0]) matches Some((p, f)) && p == at && f == e,
        forall|j: int| 0 <= j < sep.len() ==> !begins(#[trigger] sep[j]),
    ensures
        ({
            let lines = init + sep + node;
            let b = (init + sep).len() as int;
            &&& path_under(lines, at, b + k) == seq![e] + path_in(node, at + 1 + b, k)
            &&& children_before(lines, at + 1 + b + k, lines.len() as int) == children_before(
                node,
                at + 1 + b + k,
                node.len() as int,
            )
        }),
{
    let before = init + sep;
    let b = before.len() as int;
    let p = at + 1 + b + k;
    lemma_children_add(before, node, p, (before + node).len() as int);
    lemma_children_add(init, sep, p, b);
    lemma_no_children(sep, p, sep.len() as int);
    lemma_path_under_last(before, node, at, e, k);
    assert forall|j: int| 0 <= j < init.len() implies !child_of(#[trigger] init[j], p) by {
        if begins(init[j]) {
            assert(placed_line_under(init, at, depth, j));
        }
    }
    lemma_no_children(init, p, init.len() as int);
}

proof fn lemma_shows_edges<K, V>(
    keys: Seq<K>,
    edges: Seq<Box<Node<K, V>>>,
    depth: usize,
    at: nat,
)
    requires
        at + 1 + edge_lines(keys, edges, depth, at).len() <= usize::MAX,
        edges.len() <= usize::MAX,
    ensures
        shows_under(edge_lines(keys, edges, depth, at), at as int, edges),
    decreases edges, 1nat,
{
    if edges.len() > 0 {
        let i = edges.len() - 1;
        let init = edge_lines(keys, edges.drop_last(), depth, at);
        let sep = separator_line::<K, V>(keys, i, depth);
        let start = (at + 1 + (init + sep).len()) as nat;
        let parent = Some((at as usize, i as usize));
        let node = node_lines(*edges.last(), deeper(depth), parent, start);
        lemma_placed_edges(keys, edges.drop_last(), depth, at);
        lemma_placed_node(*edges.last(), deeper(depth), parent, start);
        lemma_shows_edges(keys, edges.drop_last(), depth, at);
        lemma_shows_node(*edges.last(), deeper(depth), parent, start);
        assert(begins(node[0]) && parent_of(node[0]) == parent);
        lemma_shows_join(init, sep, node, at as int, depth as int, edges);
    }
}

proof fn lemma_shows_join<K, V>(
    init: Seq<Line<K, V>>,
    sep: Seq<Line<K, V>>,
    node: Seq<Line<K, V>>,
    at: int,
    depth: int,
    edges: Seq<Box<Node<K, V>>>,
)
    requires
        0 < edges.len() <= usize::MAX,
        placed_under(init, at, depth),
        placed_in(node, at + 1 + (init + sep).len()),
        shows_under(init, at, edges.drop_last()),
        shows_in(node, at + 1 + (init + sep).len(), *edges.last()),
        node.len() > 0,
        begins(node[0]),
        parent_of(node[0]) matches Some((p, e)) && p == at && e == edges.len() - 1,
        forall|j: int| 0 <= j < sep.len() ==> !begins(#[trigger] sep[j]),
    ensures
        shows_under(init + sep + node, at, edges),
{
    let lines = init + sep + node;
    let b = (init + sep).len() as int;
    let start = at + 1 + b;
    let e = (edges.len() - 1) as usize;
    assert forall|k: int| 0 <= k < lines.len() && begins(#[trigger] lines[k]) implies {
        let path = path_under(lines, at, k);
        &&& path.len() > 0
        &&& path[0] < edges.len()
        &&& shows(
            lines[k],
            children_before(lines, at + 1 + k, lines.len() as int),
            node_at(*edges[path[0] as int], path.drop_first()),
        )
    } by {
        if k < init.len() {
            assert(lines[k] == init[k]);
            assert(begins(init[k]));
            lemma_shows_first(init, sep, node, at, depth, k);
            let path = path_under(init, at, k);
            assert(edges.drop_last()[path[0] as int] == edges[path[0] as int]);
        } else if k < b {
            assert(lines[k] == sep[k - init.len()]);
        } else {
            assert(lines[k] == node[k - b]);
            assert(begins(node[k - b]));
            lemma_shows_last(init, sep, node, at, depth, e, k - b);
            let path = path_under(lines, at, k);
            assert(path == seq![e] + path_in(node, start, k - b));
            assert(path.drop_first() =~= path_in(node, start, k - b));
            assert(start + (k - b) == at + 1 + k);
        }
    }
}

proof fn lemma_path_whole<K1, V1, K2, V2>(a: Seq<Line<K1, V1>>, b: Seq<Line<K2, V2>>, k: int)
    requires
        same_frames(a, b),
        placed_in(a, 0),
        0 <= k < a.len(),
        begins(a[k]),
        parent_of(a[0]) is None,
    ensures
        path_of(b, k) == path_in(a, 0, k),
    decreases k,
{
    assert(same_frame(a[k], b[k]));
    if k > 0 {
        assert(placed_line_in(a, 0, k));
        let p = parent_line(a[k]);
        assert(begins(a[p]));
        lemma_path_whole(a, b, p);
    }
}

/// What is printed of a tree shows the nodes of the tree.
pub proof fn lemma_print_nodes<K, V>(root: Box<Node<K, V>>, lines: Seq<Line<&K, &V>>)
    requires
        drawing(lines) == tree_lines(Some(root)),
        lines.len() <= usize::MAX,
    ensures
        shows_nodes(lines, *root),
{
    let draft = node_lines(*root, 0, None, 0);
    assert(drawing(lines).len() == lines.len());
    lemma_placed_node(*root, 0, None, 0);
    lemma_shows_node(*root, 0, None, 0);
    lemma_print_frames(*root, lines);
    assert forall|i: int| 0 <= i < lines.len() && begins(#[trigger] lines[i]) implies {
        &&& node_at(*root, path_of(lines, i)) matches Some(node)
        &&& match node {
            Node::Leaf { .. } => lines[i] is Leaf,
            Node::Internal { edges, .. } => {
                &&& lines[i] is Node
                &&& children_before(lines, i, lines.len() as int) == edges@.len()
            },
        }
    } by {
        assert(same_frame(draft[i], lines[i]));
        assert(begins(draft[i]));
        lemma_path_whole(draft, lines, i);
        lemma_same_children(draft, lines, i, lines.len() as int);
        assert(children_before(draft, 0 + i, draft.len() as int) == children_before(
            draft,
            i,
            draft.len() as int,
        ));
    }
}

/// What is printed of a tree, whatever its shape. Every node but the root names its parent, one
/// level further out, and the edge that leads from there to it, counted from 0. Every leaf names
/// the leaves next to it. The lines show the nodes of the tree, all keys from left to right, and
/// all entries in order.
pub proof fn law_print_tree<'a, K, V>(
    root: Option<Box<Node<K, V>>>,
    lines: Vec<Line<&'a K, &'a V>>,
)
    requires
        call_ensures(print_tree::<K, V>, (&root,), lines),
    ensures
        well_placed(lines@),
        well_linked(lines@),
        drawn_marks(drawing(lines@)) == match root {
            Some(root) => root.marks(),
            None => Seq::empty(),
        },
        printed(drawing(lines@)) == match root {
            Some(root) => root.entries(),
            None => Seq::empty(),
        },
        match root {
            Some(root) => lines@.len() > 0 && begins(lines@[0]) && shows_nodes(lines@, *root),
            None => lines@ == seq![Line::<&'a K, &'a V>::Empty],
        },
{
    assert(lines@.len() == lines.len());
    lemma_print_places(root, lines@);
    lemma_print_leaves(root, lines@);
    lemma_print_keys(root, lines@);
    lemma_printed(root);
    assert(drawing(lines@).len() == lines@.len());
    match root {
        Some(root) => {
            lemma_print_nodes(root, lines@);
            lemma_print_frames(*root, lines@);
            assert(same_frame(node_lines(*root, 0, None, 0)[0], lines@[0]));
        },
        None => {
            assert(shown(lines@[0]) == drawing(lines@)[0]);
            assert(lines@ =~= seq![Line::<&'a K, &'a V>::Empty]);
        },
    }
}

} // verus!
