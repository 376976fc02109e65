//! Handing out all values of a tree at once, each open to change.

use crate::cursor::Cursor;
use crate::node::{concat, lemma_concat_add, lemma_concat_one, Node};
use crate::path::{leaf_entries, leaf_start, lemma_leaf_entries, lemma_prefix_len, valid_path};
use crate::values::{lemma_same_layout_entries, lemma_same_layout_refl, same_keys, same_layout};
use vstd::prelude::*;

verus! {

/// An entry that is handed out: its key, and its value open to change.
pub type Slot<'a, K, V> = Option<(&'a K, &'a mut V)>;

/// Hands out the entries of a slice.
fn collect_slice<'a, K, V>(slice: &'a mut [(K, V)], out: &mut Vec<Slot<'a, K, V>>)
    ensures
        same_keys(old(slice)@, final(slice)@),
        final(out)@.len() == old(out)@.len() + old(slice)@.len(),
        forall|i: int| 0 <= i < old(out)@.len() ==> #[trigger] final(out)@[i] == old(out)@[i],
        forall|i: int|
            #![trigger final(out)@[i]]
            old(out)@.len() <= i < final(out)@.len() ==> {
                let p = i - old(out)@.len();
                &&& final(out)@[i] matches Some((k, v))
                &&& *k == old(slice)@[p].0
                &&& *v == old(slice)@[p].1
                &&& final(slice)@[p] == (*k, *final(v))
            },
    decreases old(slice)@.len(),
{
    if slice.len() > 0 {
        let (head, tail) = slice.split_at_mut(1);
        let entry = &mut head[0];
        out.push(Some((&entry.0, &mut entry.1)));
        collect_slice(tail, out);
    }
}

/// Hands out the entries of a slice from index `lo` to before index `hi`.
fn collect_part<'a, K, V>(
    slice: &'a mut [(K, V)],
    lo: usize,
    hi: usize,
    out: &mut Vec<Slot<'a, K, V>>,
)
    requires
        lo <= hi <= old(slice)@.len(),
    ensures
        same_keys(old(slice)@, final(slice)@),
        final(out)@.len() == old(out)@.len() + (hi - lo),
        forall|p: int|
            0 <= p < old(slice)@.len() && !(lo <= p < hi) ==> #[trigger] final(slice)@[p]
                == old(slice)@[p],
        forall|i: int| 0 <= i < old(out)@.len() ==> #[trigger] final(out)@[i] == old(out)@[i],
        forall|i: int|
            #![trigger final(out)@[i]]
            old(out)@.len() <= i < final(out)@.len() ==> {
                let p = lo + i - old(out)@.len();
                &&& final(out)@[i] matches Some((k, v))
                &&& *k == old(slice)@[p].0
                &&& *v == old(slice)@[p].1
                &&& final(slice)@[p] == (*k, *final(v))
            },
{
    let (_, rest) = slice.split_at_mut(lo);
    let (mid, _) = rest.split_at_mut(hi - lo);
    collect_slice(mid, out);
}

/// How `concat` treats sums and single edges, for edges that are yet to be known.
proof fn lemma_concat_facts<K, V>()
    ensures
        forall|a: Seq<Box<Node<K, V>>>, b: Seq<Box<Node<K, V>>>|
            concat(#[trigger] (a + b)) == concat(a) + concat(b),
        forall|s: Seq<Box<Node<K, V>>>| s.len() == 1 ==> #[trigger] concat(s) == s[0].entries(),
{
    assert forall|a: Seq<Box<Node<K, V>>>, b: Seq<Box<Node<K, V>>>|
        concat(#[trigger] (a + b)) == concat(a) + concat(b) by {
        lemma_concat_add(a, b);
    }
    assert forall|s: Seq<Box<Node<K, V>>>| s.len() == 1 implies #[trigger] concat(s)
        == s[0].entries() by {
        assert(s =~= seq![s[0]]);
        lemma_concat_one(s[0]);
    }
}

/// Hands out the entries under a slice of edges.
fn collect_edges<'a, K, V>(edges: &'a mut [Box<Node<K, V>>], out: &mut Vec<Slot<'a, K, V>>)
    ensures
        final(edges)@.len() == old(edges)@.len(),
        forall|i: int|
            0 <= i < old(edges)@.len() ==> same_layout(
                *#[trigger] old(edges)@[i],
                *final(edges)@[i],
            ),
        concat(final(edges)@).len() == concat(old(edges)@).len(),
        final(out)@.len() == old(out)@.len() + concat(old(edges)@).len(),
        forall|i: int| 0 <= i < old(out)@.len() ==> #[trigger] final(out)@[i] == old(out)@[i],
        forall|i: int|
            #![trigger final(out)@[i]]
            old(out)@.len() <= i < final(out)@.len() ==> {
                let p = i - old(out)@.len();
                &&& final(out)@[i] matches Some((k, v))
                &&& *k == concat(old(edges)@)[p].0
                &&& *v == concat(old(edges)@)[p].1
                &&& concat(final(edges)@)[p] == (*k, *final(v))
            },
    decreases old(edges)@, 0nat,
{
    proof {
        lemma_concat_facts::<K, V>();
    }
    if edges.len() > 0 {
        let ghost edges0 = edges@;
        assert(edges0 =~= edges0.subrange(0, 1) + edges0.subrange(1, edges0.len() as int));
        let (head, tail) = edges.split_at_mut(1);
        collect_node(&mut *head[0], None, None, 0, out);
        collect_edges(tail, out);
    }
}

/// The first position that is handed out.
pub open spec fn from_pos<K, V>(node: Node<K, V>, from: Option<&Cursor>, depth: int) -> int {
    match from {
        Some(cursor) => leaf_start(node, cursor.path@.skip(depth)) + cursor.idx,
        None => 0,
    }
}

/// The position behind the last one that is handed out.
pub open spec fn to_pos<K, V>(node: Node<K, V>, to: Option<&Cursor>, depth: int) -> int {
    match to {
        Some(cursor) => leaf_start(node, cursor.path@.skip(depth)) + cursor.idx + 1,
        None => node.entries().len() as int,
    }
}

/// The cursor, from step `depth` on, is at an entry under `node`.
pub open spec fn under<K, V>(node: Node<K, V>, cursor: Option<&Cursor>, depth: int) -> bool {
    cursor matches Some(cursor) ==> {
        &&& depth <= cursor.path@.len()
        &&& valid_path(node, cursor.path@.skip(depth))
        &&& cursor.idx < leaf_entries(node, cursor.path@.skip(depth)).len()
    }
}

/// The position behind the last one that is handed out under the last of some edges.
spec fn edges_to<K, V>(edges: Seq<Box<Node<K, V>>>, to: Option<&Cursor>, depth: int) -> int {
    concat(edges.drop_last()).len() + to_pos(*edges.last(), to, depth)
}

/// Hands out the entries under a slice of edges, up to the one under the last edge that `to` is
/// at, where given.
fn collect_upto<'a, K, V>(
    edges: &'a mut [Box<Node<K, V>>],
    to: Option<&Cursor>,
    depth: usize,
    out: &mut Vec<Slot<'a, K, V>>,
)
    requires
        old(edges)@.len() > 0,
        under(*old(edges)@.last(), to, depth as int),
    ensures
        final(edges)@.len() == old(edges)@.len(),
        forall|i: int|
            0 <= i < old(edges)@.len() ==> same_layout(
                *#[trigger] old(edges)@[i],
                *final(edges)@[i],
            ),
        concat(final(edges)@).len() == concat(old(edges)@).len(),
        0 <= edges_to(old(edges)@, to, depth as int) <= concat(old(edges)@).len(),
        final(out)@.len() == old(out)@.len() + edges_to(old(edges)@, to, depth as int),
        forall|p: int|
            edges_to(old(edges)@, to, depth as int) <= p < concat(old(edges)@).len()
                ==> #[trigger] concat(final(edges)@)[p] == concat(old(edges)@)[p],
        forall|i: int| 0 <= i < old(out)@.len() ==> #[trigger] final(out)@[i] == old(out)@[i],
        forall|i: int|
            #![trigger final(out)@[i]]
            old(out)@.len() <= i < final(out)@.len() ==> {
                let p = i - old(out)@.len();
                &&& final(out)@[i] matches Some((k, v))
                &&& *k == concat(old(edges)@)[p].0
                &&& *v == concat(old(edges)@)[p].1
                &&& concat(final(edges)@)[p] == (*k, *final(v))
            },
    decreases old(edges)@, 1nat,
{
    let ghost edges0 = edges@;
    proof {
        lemma_concat_facts::<K, V>();
        lemma_same_layout_all::<K, V>();
        if to is Some {
            lemma_leaf_entries(*edges0.last(), to->0.path@.skip(depth as int));
        }
    }
    let n: usize = edges.len();
    let (init, last) = edges.split_at_mut(n - 1);
    assert(init@ =~= edges0.drop_last());
    assert(edges0 =~= init@ + last@);
    collect_edges(init, out);
    collect_node(&mut *last[0], None, to, depth, out);
}

/// Hands out the entries under a slice of edges, from the one under the first edge that `from`
/// is at to the one under the last edge that `to` is at, where given.
fn collect_between<'a, K, V>(
    edges: &'a mut [Box<Node<K, V>>],
    from: Option<&Cursor>,
    to: Option<&Cursor>,
    depth: usize,
    out: &mut Vec<Slot<'a, K, V>>,
)
    requires
        old(edges)@.len() > 0,
        under(*old(edges)@[0], from, depth as int),
        under(*old(edges)@.last(), to, depth as int),
        old(edges)@.len() == 1 ==> from_pos(*old(edges)@[0], from, depth as int) < to_pos(
            *old(edges)@[0],
            to,
            depth as int,
        ) || (from is None && to is None),
    ensures
        final(edges)@.len() == old(edges)@.len(),
        forall|i: int|
            0 <= i < old(edges)@.len() ==> same_layout(
                *#[trigger] old(edges)@[i],
                *final(edges)@[i],
            ),
        concat(final(edges)@).len() == concat(old(edges)@).len(),
        0 <= from_pos(*old(edges)@[0], from, depth as int) <= edges_to(
            old(edges)@,
            to,
            depth as int,
        ) <= concat(old(edges)@).len(),
        final(out)@.len() == old(out)@.len() + edges_to(old(edges)@, to, depth as int) - from_pos(
            *old(edges)@[0],
            from,
            depth as int,
        ),
        forall|p: int|
            0 <= p < concat(old(edges)@).len() && !(from_pos(*old(edges)@[0], from, depth as int)
                <= p < edges_to(old(edges)@, to, depth as int)) ==> #[trigger] concat(
                final(edges)@,
            )[p] == concat(old(edges)@)[p],
        forall|i: int| 0 <= i < old(out)@.len() ==> #[trigger] final(out)@[i] == old(out)@[i],
        forall|i: int|
            #![trigger final(out)@[i]]
            old(out)@.len() <= i < final(out)@.len() ==> {
                let p = from_pos(*old(edges)@[0], from, depth as int) + i - old(out)@.len();
                &&& final(out)@[i] matches Some((k, v))
                &&& *k == concat(old(edges)@)[p].0
                &&& *v == concat(old(edges)@)[p].1
                &&& concat(final(edges)@)[p] == (*k, *final(v))
            },
    decreases old(edges)@, 2nat,
{
    let ghost edges0 = edges@;
    proof {
        lemma_concat_facts::<K, V>();
        lemma_same_layout_all::<K, V>();
        if from is Some {
            lemma_leaf_entries(*edges0[0], from->0.path@.skip(depth as int));
        }
    }
    if edges.len() == 1 {
        assert(edges0.drop_last() =~= Seq::empty());
        collect_node(&mut *edges[0], from, to, depth, out);
    } else {
        let (head, tail) = edges.split_at_mut(1);
        assert(edges0 =~= head@ + tail@);
        assert(edges0.drop_last() =~= head@ + tail@.drop_last());
        collect_node(&mut *head[0], from, None, depth, out);
        collect_upto(tail, to, depth, out);
    }
}

/// Where the span begins that starts at `from` under edge `first`.
spec fn span_start<K, V>(
    edges: Seq<Box<Node<K, V>>>,
    first: int,
    from: Option<&Cursor>,
    depth: int,
) -> int {
    concat(edges.take(first)).len() + from_pos(*edges[first], from, depth)
}

/// Where the span ends that stops at `to` under edge `last`.
spec fn span_stop<K, V>(
    edges: Seq<Box<Node<K, V>>>,
    last: int,
    to: Option<&Cursor>,
    depth: int,
) -> int {
    concat(edges.take(last)).len() + to_pos(*edges[last], to, depth)
}

/// Hands out the entries under the edges from `first`, beginning where `from` is, to `last`,
/// ending where `to` is.
#[verifier::rlimit(40)]
fn collect_span<'a, K, V>(
    edges: &'a mut [Box<Node<K, V>>],
    first: usize,
    last: usize,
    from: Option<&Cursor>,
    to: Option<&Cursor>,
    depth: usize,
    out: &mut Vec<Slot<'a, K, V>>,
)
    requires
        first <= last < old(edges)@.len(),
        under(*old(edges)@[first as int], from, depth as int),
        under(*old(edges)@[last as int], to, depth as int),
        first == last ==> from_pos(*old(edges)@[first as int], from, depth as int) < to_pos(
            *old(edges)@[last as int],
            to,
            depth as int,
        ) || (from is None && to is None),
    ensures
        final(edges)@.len() == old(edges)@.len(),
        forall|i: int|
            0 <= i < old(edges)@.len() ==> same_layout(
                *#[trigger] old(edges)@[i],
                *final(edges)@[i],
            ),
        concat(final(edges)@).len() == concat(old(edges)@).len(),
        final(out)@.len() == old(out)@.len() + span_stop(
            old(edges)@,
            last as int,
            to,
            depth as int,
        ) - span_start(old(edges)@, first as int, from, depth as int),
        forall|p: int|
            0 <= p < concat(old(edges)@).len() && !(span_start(
                old(edges)@,
                first as int,
                from,
                depth as int,
            ) <= p < span_stop(old(edges)@, last as int, to, depth as int))
                ==> #[trigger] concat(final(edges)@)[p] == concat(old(edges)@)[p],
        forall|i: int| 0 <= i < old(out)@.len() ==> #[trigger] final(out)@[i] == old(out)@[i],
        forall|i: int|
            #![trigger final(out)@[i]]
            old(out)@.len() <= i < final(out)@.len() ==> {
                let start = span_start(old(edges)@, first as int, from, depth as int);
                let p = start + i - old(out)@.len();
                &&& final(out)@[i] matches Some((k, v))
                &&& *k == concat(old(edges)@)[p].0
                &&& *v == concat(old(edges)@)[p].1
                &&& concat(final(edges)@)[p] == (*k, *final(v))
            },
    decreases old(edges)@, 3nat,
{
    let ghost edges0 = edges@;
    let ghost f = first as int;
    let ghost l = last as int;
    proof {
        lemma_concat_facts::<K, V>();
        lemma_same_layout_all::<K, V>();
    }
    let n: usize = edges.len();
    let (before, rest) = edges.split_at_mut(first);
    let (mid, after) = rest.split_at_mut(last - first + 1);
    assert(before@ =~= edges0.take(f));
    assert(edges0 =~= before@ + (mid@ + after@));
    assert(edges0.take(l) =~= before@ + mid@.drop_last());
    assert(mid@ =~= edges0.subrange(f, l + 1));
    assert(f == 0 && l + 1 == n ==> mid@ =~= edges0);
    collect_between(mid, from, to, depth, out);
}

/// Trees with the same layout have the same number of entries, and each has its own layout.
proof fn lemma_same_layout_all<K, V>()
    ensures
        forall|a: Node<K, V>, b: Node<K, V>|
            #[trigger] same_layout(a, b) ==> a.entries().len() == b.entries().len(),
        forall|a: Node<K, V>| #[trigger] same_layout(a, a),
{
    assert forall|a: Node<K, V>, b: Node<K, V>| #[trigger]
        same_layout(a, b) implies a.entries().len() == b.entries().len() by {
        lemma_same_layout_entries(a, b);
    }
    assert forall|a: Node<K, V>| #[trigger] same_layout(a, a) by {
        lemma_same_layout_refl(a);
    }
}

/// Hands out the entries under `node`, from the one that `from` is at, where given, to the one
/// that `to` is at, where given.
pub fn collect_node<'a, K, V>(
    node: &'a mut Node<K, V>,
    from: Option<&Cursor>,
    to: Option<&Cursor>,
    depth: usize,
    out: &mut Vec<Slot<'a, K, V>>,
)
    requires
        under(*old(node), from, depth as int),
        under(*old(node), to, depth as int),
        from_pos(*old(node), from, depth as int) < to_pos(*old(node), to, depth as int) || (
        from is None && to is None),
    ensures
        same_layout(*old(node), *final(node)),
        final(node).entries().len() == old(node).entries().len(),
        0 <= from_pos(*old(node), from, depth as int) <= to_pos(*old(node), to, depth as int)
            <= old(node).entries().len(),
        ({
            let lo = from_pos(*old(node), from, depth as int);
            let hi = to_pos(*old(node), to, depth as int);
            &&& final(out)@.len() == old(out)@.len() + (hi - lo)
            &&& forall|p: int|
                0 <= p < old(node).entries().len() && !(lo <= p < hi)
                    ==> #[trigger] final(node).entries()[p] == old(node).entries()[p]
        }),
        forall|i: int| 0 <= i < old(out)@.len() ==> #[trigger] final(out)@[i] == old(out)@[i],
        forall|i: int|
            #![trigger final(out)@[i]]
            old(out)@.len() <= i < final(out)@.len() ==> {
                let p = from_pos(*old(node), from, depth as int) + i - old(out)@.len();
                &&& final(out)@[i] matches Some((k, v))
                &&& *k == old(node).entries()[p].0
                &&& *v == old(node).entries()[p].1
                &&& final(node).entries()[p] == (*k, *final(v))
            },
    decreases *old(node), 1nat,
{
    proof {
        lemma_same_layout_all::<K, V>();
        if from is Some {
            lemma_leaf_entries(*node, from->0.path@.skip(depth as int));
        }
        if to is Some {
            lemma_leaf_entries(*node, to->0.path@.skip(depth as int));
        }
    }
    match node {
        Node::Leaf { entries } => {
            let n: usize = entries.len();
            let lo: usize = match from {
                Some(cursor) => cursor.idx,
                None => 0,
            };
            let hi: usize = match to {
                Some(cursor) => cursor.idx + 1,
                None => n,
            };
            collect_part(entries.as_mut_slice(), lo, hi, out);
        },
        Node::Internal { keys, edges } => {
            if edges.len() == 0 {
                return;
            }
            let ghost edges0 = edges@;
            let first: usize = match from {
                Some(cursor) => cursor.path[depth],
                None => 0,
            };
            let last: usize = match to {
                Some(cursor) => cursor.path[depth],
                None => edges.len() - 1,
            };
            let deeper: usize = match (from, to) {
                (None, None) => 0,
                (Some(cursor), _) => {
                    assert(depth < cursor.path.len());
                    depth + 1
                },
                (None, Some(cursor)) => {
                    assert(depth < cursor.path.len());
                    depth + 1
                },
            };
            proof {
                let d = depth as int;
                let f = first as int;
                let l = last as int;
                if from is Some {
                    assert(from->0.path@.skip(d).drop_first() =~= from->0.path@.skip(d + 1));
                    lemma_leaf_entries(*edges0[f], from->0.path@.skip(d + 1));
                }
                if to is Some {
                    assert(to->0.path@.skip(d).drop_first() =~= to->0.path@.skip(d + 1));
                    lemma_leaf_entries(*edges0[l], to->0.path@.skip(d + 1));
                }
                if l < f {
                    lemma_prefix_len(edges0, l, f);
                }
                assert(edges0.take(0) =~= Seq::empty());
                assert(edges0.take(edges0.len() - 1) =~= edges0.drop_last());
            }
            collect_span(edges.as_mut_slice(), first, last, from, to, deeper, out);
        },
    }
}

} // verus!
