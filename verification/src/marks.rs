//! The keys of a tree as a walk from left to right meets them, entries and separators alike,
//! and the order that they are in.

use crate::node::{
    all_ge, all_lt, concat, lemma_concat_at, lemma_concat_index, lemma_entries_len, lemma_le_lt,
    lemma_lt_le, sorted_keys, within, Node,
};
use crate::order::{key_le, key_lt, total_order};
use crate::values::{same_keys, same_layout};
use vstd::prelude::*;

verus! {

/// A key that a walk over a tree meets.
pub enum Mark<K> {
    /// The key of an entry in a leaf.
    Entry(K),
    /// A key of an internal node, between the two edges that it separates.
    Separator(K),
}

impl<K> Mark<K> {
    pub open spec fn key(self) -> K {
        match self {
            Mark::Entry(key) => key,
            Mark::Separator(key) => key,
        }
    }
}

impl<K, V> Node<K, V> {
    /// The keys at and below this node, from left to right.
    pub open spec fn marks(self) -> Seq<Mark<K>>
        decreases self,
    {
        match self {
            Node::Leaf { entries } => leaf_marks(entries@),
            Node::Internal { keys, edges } => weave(keys@, edges@),
        }
    }
}

/// The keys of the entries of a leaf.
pub open spec fn leaf_marks<K, V>(entries: Seq<(K, V)>) -> Seq<Mark<K>> {
    Seq::new(entries.len(), |i: int| Mark::Entry(entries[i].0))
}

/// The separator to the left of edge `i`.
pub open spec fn separator<K>(keys: Seq<K>, i: int) -> Seq<Mark<K>> {
    if 0 < i <= keys.len() {
        seq![Mark::Separator(keys[i - 1])]
    } else {
        Seq::empty()
    }
}

/// The keys under the edges, with the separators between them.
pub open spec fn weave<K, V>(keys: Seq<K>, edges: Seq<Box<Node<K, V>>>) -> Seq<Mark<K>>
    decreases edges,
{
    if edges.len() == 0 {
        Seq::empty()
    } else {
        weave(keys, edges.drop_last()) + separator(keys, edges.len() - 1) + edges.last().marks()
    }
}

/// `a` may come before `b` in a walk: their keys increase, except that an entry may have the
/// very key that separates it from what is to its left.
pub open spec fn precedes<K: Ord>(a: Mark<K>, b: Mark<K>) -> bool {
    match (a, b) {
        (Mark::Separator(x), Mark::Entry(y)) => key_le(x, y),
        _ => key_lt(a.key(), b.key()),
    }
}

/// Every key that the walk meets may come before every later one.
pub open spec fn in_order<K: Ord>(marks: Seq<Mark<K>>) -> bool {
    forall|i: int, j: int|
        #![trigger marks[i], marks[j]]
        0 <= i < j < marks.len() ==> precedes(marks[i], marks[j])
}

/// All keys of the walk come before `key`.
spec fn marks_lt<K: Ord>(marks: Seq<Mark<K>>, key: K) -> bool {
    forall|i: int| 0 <= i < marks.len() ==> key_lt((#[trigger] marks[i]).key(), key)
}

/// All keys of the walk may come after the separator `key`.
spec fn marks_ge<K: Ord>(marks: Seq<Mark<K>>, key: K) -> bool {
    forall|i: int|
        0 <= i < marks.len() ==> precedes(Mark::Separator(key), #[trigger] marks[i])
}

/// Trees with the same layout have the same keys on the way.
pub proof fn lemma_same_layout_marks<K, V>(a: Node<K, V>, b: Node<K, V>)
    requires
        same_layout(a, b),
    ensures
        a.marks() == b.marks(),
    decreases a,
{
    match (a, b) {
        (Node::Leaf { entries: x }, Node::Leaf { entries: y }) => {
            assert(same_keys(x@, y@));
            assert(leaf_marks(x@) =~= leaf_marks(y@));
        },
        (Node::Internal { keys: xk, edges: xe }, Node::Internal { keys: yk, edges: ye }) => {
            assert forall|i: int| 0 <= i < xe@.len() implies (#[trigger] xe@[i]).marks()
                == ye@[i].marks() by {
                lemma_same_layout_marks(*xe@[i], *ye@[i]);
            }
            lemma_weave_same(xk@, xe@, ye@);
        },
        _ => {},
    }
}

proof fn lemma_weave_same<K, V>(
    keys: Seq<K>,
    a: Seq<Box<Node<K, V>>>,
    b: Seq<Box<Node<K, V>>>,
)
    requires
        a.len() == b.len(),
        forall|i: int| 0 <= i < a.len() ==> (#[trigger] a[i]).marks() == b[i].marks(),
    ensures
        weave(keys, a) == weave(keys, b),
    decreases a.len(),
{
    if a.len() > 0 {
        let (a1, b1) = (a.drop_last(), b.drop_last());
        assert forall|i: int| 0 <= i < a1.len() implies (#[trigger] a1[i]).marks()
            == b1[i].marks() by {
            assert(a1[i] == a[i]);
        }
        assert(a[a.len() - 1].marks() == b[b.len() - 1].marks());
        lemma_weave_same(keys, a.drop_last(), b.drop_last());
    }
}

/// Where the separator before edge `i` and the keys under that edge are in the walk.
pub proof fn lemma_weave_at<K, V>(keys: Seq<K>, edges: Seq<Box<Node<K, V>>>, i: int)
    requires
        0 <= i < edges.len(),
    ensures
        ({
            let before = weave(keys, edges.take(i));
            let part = before + separator(keys, i) + edges[i].marks();
            &&& part.len() <= weave(keys, edges).len()
            &&& weave(keys, edges).take(part.len() as int) == part
        }),
    decreases edges.len(),
{
    let before = weave(keys, edges.take(i));
    let part = before + separator(keys, i) + edges[i].marks();
    if i == edges.len() - 1 {
        assert(edges.take(i) =~= edges.drop_last());
        assert(weave(keys, edges).take(part.len() as int) =~= part);
    } else {
        assert(edges.drop_last().take(i) =~= edges.take(i));
        lemma_weave_at(keys, edges.drop_last(), i);
        let shorter = weave(keys, edges.drop_last());
        assert(weave(keys, edges).take(part.len() as int) =~= shorter.take(part.len() as int));
    }
}

/// If all entries under a node come before `key`, so do all its separators.
proof fn lemma_marks_lt<K: Ord, V>(node: Node<K, V>, h: nat, key: K)
    requires
        total_order::<K>(),
        node.shaped(h),
        node.ordered(),
        all_lt(node.entries(), key),
    ensures
        marks_lt(node.marks(), key),
    decreases node,
{
    match node {
        Node::Leaf { entries } => {
            let marks = node.marks();
            assert forall|i: int| 0 <= i < marks.len() implies key_lt(
                (#[trigger] marks[i]).key(),
                key,
            ) by {
                assert(key_lt(entries@[i].0, key));
            }
        },
        Node::Internal { keys, edges } => {
            assert forall|i: int| 0 <= i < edges@.len() implies marks_lt(
                (#[trigger] edges@[i]).marks(),
                key,
            ) && (i > 0 ==> key_lt(keys@[i - 1], key)) by {
                let edge = edges@[i];
                assert(edge.full((h - 1) as nat));
                lemma_concat_at(edges@, i);
                let p = concat(edges@.take(i)).len() as int;
                assert forall|q: int| 0 <= q < edge.entries().len() implies key_lt(
                    (#[trigger] edge.entries()[q]).0,
                    key,
                ) by {
                    assert(node.entries()[p + q] == edge.entries()[q]);
                }
                lemma_marks_lt(*edge, (h - 1) as nat, key);
                if i > 0 {
                    lemma_entries_len(*edge, (h - 1) as nat);
                    assert(within(edge.entries(), keys@, i));
                    assert(all_ge(edge.entries(), keys@[i - 1]));
                    let e = edge.entries()[0].0;
                    lemma_le_lt(keys@[i - 1], e, key);
                }
            }
            lemma_weave_lt(keys@, edges@, key);
        },
    }
}

proof fn lemma_weave_lt<K: Ord, V>(keys: Seq<K>, edges: Seq<Box<Node<K, V>>>, key: K)
    requires
        forall|i: int|
            0 <= i < edges.len() ==> marks_lt((#[trigger] edges[i]).marks(), key) && (i > 0
                && i <= keys.len() ==> key_lt(keys[i - 1], key)),
    ensures
        marks_lt(weave(keys, edges), key),
    decreases edges.len(),
{
    if edges.len() > 0 {
        let n = edges.len() - 1;
        assert forall|i: int| 0 <= i < n implies edges.drop_last()[i] == #[trigger] edges[i] by {}
        lemma_weave_lt(keys, edges.drop_last(), key);
        let before = weave(keys, edges.drop_last());
        let last = edges[n].marks();
        let marks = weave(keys, edges);
        assert forall|q: int| 0 <= q < marks.len() implies key_lt(
            (#[trigger] marks[q]).key(),
            key,
        ) by {
            let at = before.len() + separator(keys, n).len();
            if q < before.len() {
                assert(marks[q] == before[q]);
            } else if q < at {
                assert(marks[q] == Mark::Separator(keys[n - 1]));
            } else {
                assert(marks[q] == last[q - at]);
            }
        }
    }
}

/// If no entry under a node comes before `key`, all its separators come after it.
proof fn lemma_marks_ge<K: Ord, V>(node: Node<K, V>, h: nat, key: K)
    requires
        total_order::<K>(),
        node.shaped(h),
        node.ordered(),
        all_ge(node.entries(), key),
    ensures
        marks_ge(node.marks(), key),
    decreases node,
{
    match node {
        Node::Leaf { entries } => {
            let marks = node.marks();
            assert forall|i: int| 0 <= i < marks.len() implies precedes(
                Mark::Separator(key),
                #[trigger] marks[i],
            ) by {
                assert(key_le(key, entries@[i].0));
            }
        },
        Node::Internal { keys, edges } => {
            assert forall|i: int| 0 <= i < edges@.len() implies marks_ge(
                (#[trigger] edges@[i]).marks(),
                key,
            ) && (i > 0 ==> key_lt(key, keys@[i - 1])) by {
                let edge = edges@[i];
                assert(edge.full((h - 1) as nat));
                lemma_concat_at(edges@, i);
                let p = concat(edges@.take(i)).len() as int;
                assert forall|q: int| 0 <= q < edge.entries().len() implies key_le(
                    key,
                    (#[trigger] edge.entries()[q]).0,
                ) by {
                    assert(node.entries()[p + q] == edge.entries()[q]);
                }
                lemma_marks_ge(*edge, (h - 1) as nat, key);
                if i > 0 {
                    // The edge to the left has an entry, which the separator comes after.
                    let left = edges@[i - 1];
                    assert(left.full((h - 1) as nat));
                    lemma_entries_len(*left, (h - 1) as nat);
                    lemma_concat_at(edges@, i - 1);
                    let at = concat(edges@.take(i - 1)).len() as int;
                    assert(node.entries()[at] == left.entries()[0]);
                    assert(within(left.entries(), keys@, i - 1));
                    assert(all_lt(left.entries(), keys@[i - 1]));
                    let e = left.entries()[0].0;
                    lemma_le_lt(key, e, keys@[i - 1]);
                }
            }
            lemma_weave_ge(keys@, edges@, key);
        },
    }
}

proof fn lemma_weave_ge<K: Ord, V>(keys: Seq<K>, edges: Seq<Box<Node<K, V>>>, key: K)
    requires
        forall|i: int|
            0 <= i < edges.len() ==> marks_ge((#[trigger] edges[i]).marks(), key) && (i > 0
                && i <= keys.len() ==> key_lt(key, keys[i - 1])),
    ensures
        marks_ge(weave(keys, edges), key),
    decreases edges.len(),
{
    if edges.len() > 0 {
        let n = edges.len() - 1;
        assert forall|i: int| 0 <= i < n implies edges.drop_last()[i] == #[trigger] edges[i] by {}
        lemma_weave_ge(keys, edges.drop_last(), key);
        let before = weave(keys, edges.drop_last());
        let last = edges[n].marks();
        let marks = weave(keys, edges);
        assert forall|q: int| 0 <= q < marks.len() implies precedes(
            Mark::Separator(key),
            #[trigger] marks[q],
        ) by {
            let at = before.len() + separator(keys, n).len();
            if q < before.len() {
                assert(marks[q] == before[q]);
            } else if q < at {
                assert(marks[q] == Mark::Separator(keys[n - 1]));
            } else {
                assert(marks[q] == last[q - at]);
            }
        }
    }
}

/// A walk over an ordered tree is in order.
pub proof fn lemma_ordered_marks<K: Ord, V>(node: Node<K, V>, h: nat)
    requires
        total_order::<K>(),
        node.shaped(h),
        node.ordered(),
    ensures
        in_order(node.marks()),
    decreases node,
{
    match node {
        Node::Leaf { entries } => {
            let marks = node.marks();
            assert forall|i: int, j: int|
                #![trigger marks[i], marks[j]]
                0 <= i < j < marks.len() implies precedes(marks[i], marks[j]) by {
                assert(key_lt(entries@[i].0, entries@[j].0));
            }
        },
        Node::Internal { keys, edges } => {
            assert forall|i: int| 0 <= i < edges@.len() implies in_order(
                (#[trigger] edges@[i]).marks(),
            ) && (i > 0 ==> marks_ge(edges@[i].marks(), keys@[i - 1])) && (forall|j: int|
                i <= j < keys@.len() ==> marks_lt(edges@[i].marks(), #[trigger] keys@[j])) by {
                let edge = edges@[i];
                assert(edge.full((h - 1) as nat));
                lemma_ordered_marks(*edge, (h - 1) as nat);
                assert(within(edge.entries(), keys@, i));
                if i > 0 {
                    assert(all_ge(edge.entries(), keys@[i - 1]));
                    lemma_marks_ge(*edge, (h - 1) as nat, keys@[i - 1]);
                }
                assert forall|j: int| i <= j < keys@.len() implies marks_lt(
                    edges@[i].marks(),
                    #[trigger] keys@[j],
                ) by {
                    assert(all_lt(edge.entries(), keys@[j]));
                    lemma_marks_lt(*edge, (h - 1) as nat, keys@[j]);
                }
            }
            lemma_weave_in_order(keys@, edges@);
        },
    }
}

proof fn lemma_weave_in_order<K: Ord, V>(keys: Seq<K>, edges: Seq<Box<Node<K, V>>>)
    requires
        total_order::<K>(),
        sorted_keys(keys),
        edges.len() <= keys.len() + 1,
        forall|i: int|
            0 <= i < edges.len() ==> {
                &&& in_order((#[trigger] edges[i]).marks())
                &&& i > 0 ==> marks_ge(edges[i].marks(), keys[i - 1])
                &&& forall|j: int|
                    i <= j < keys.len() ==> marks_lt(edges[i].marks(), #[trigger] keys[j])
            },
    ensures
        in_order(weave(keys, edges)),
    decreases edges.len(),
{
    if edges.len() > 0 {
        let n = edges.len() - 1;
        let init = edges.drop_last();
        assert forall|i: int| 0 <= i < n implies init[i] == #[trigger] edges[i] by {}
        lemma_weave_in_order(keys, init);
        let before = weave(keys, init);
        let last = edges[n].marks();
        let marks = weave(keys, edges);
        if n == 0 {
            assert(marks =~= last);
        } else {
            let sep = keys[n - 1];
            assert forall|i: int| 0 <= i < init.len() implies marks_lt(
                (#[trigger] init[i]).marks(),
                sep,
            ) && (i > 0 && i <= keys.len() ==> key_lt(keys[i - 1], sep)) by {
                assert(init[i] == edges[i]);
            }
            lemma_weave_lt(keys, init, sep);
            let at = before.len() + 1;
            assert(separator(keys, n) =~= seq![Mark::Separator(sep)]);
            assert forall|i: int, j: int|
                #![trigger marks[i], marks[j]]
                0 <= i < j < marks.len() implies precedes(marks[i], marks[j]) by {
                if j < before.len() {
                    assert(marks[i] == before[i] && marks[j] == before[j]);
                } else if j == before.len() {
                    assert(marks[i] == before[i]);
                    assert(marks[j] == Mark::Separator(sep));
                } else {
                    assert(marks[j] == last[j - at]);
                    assert(marks_ge(last, sep));
                    assert(precedes(Mark::Separator(sep), last[j - at]));
                    if i < before.len() {
                        assert(marks[i] == before[i]);
                        assert(key_lt(before[i].key(), sep));
                        assert(key_le(sep, last[j - at].key()));
                        lemma_lt_le(before[i].key(), sep, last[j - at].key());
                        assert(key_lt(before[i].key(), last[j - at].key()));
                        assert(key_le(before[i].key(), last[j - at].key()));
                    } else if i == before.len() {
                        assert(marks[i] == Mark::Separator(sep));
                    } else {
                        assert(marks[i] == last[i - at]);
                    }
                }
            }
        }
    }
}

/// The walk over more edges takes in the walk over fewer.
proof fn lemma_weave_len<K, V>(keys: Seq<K>, edges: Seq<Box<Node<K, V>>>, i: int, j: int)
    requires
        0 <= i <= j <= edges.len(),
    ensures
        weave(keys, edges.take(i)).len() <= weave(keys, edges.take(j)).len(),
    decreases j - i,
{
    if i < j {
        lemma_weave_len(keys, edges, i, j - 1);
        assert(edges.take(j).drop_last() =~= edges.take(j - 1));
    }
}

/// A walk over a tree meets the keys of all entries.
proof fn lemma_entry_mark<K, V>(node: Node<K, V>, p: int) -> (q: int)
    requires
        0 <= p < node.entries().len(),
    ensures
        0 <= q < node.marks().len(),
        node.marks()[q] == Mark::Entry(node.entries()[p].0),
    decreases node,
{
    match node {
        Node::Leaf { .. } => p,
        Node::Internal { keys, edges } => {
            let (i, r) = lemma_concat_index(edges@, p);
            let t = lemma_entry_mark(*edges@[i], r);
            lemma_weave_at(keys@, edges@, i);
            let start = (weave(keys@, edges@.take(i)) + separator(keys@, i)).len() as int;
            let part = weave(keys@, edges@.take(i)) + separator(keys@, i) + edges@[i].marks();
            assert(node.marks().take(part.len() as int)[start + t] == edges@[i].marks()[t]);
            start + t
        },
    }
}

/// A tree is ordered if a walk over it is in order.
pub proof fn lemma_marks_ordered<K: Ord, V>(node: Node<K, V>, h: nat)
    requires
        node.shaped(h),
        in_order(node.marks()),
    ensures
        node.ordered(),
    decreases node,
{
    let marks = node.marks();
    match node {
        Node::Leaf { entries } => {
            assert forall|i: int, j: int|
                #![trigger entries@[i], entries@[j]]
                0 <= i < j < entries@.len() implies key_lt(entries@[i].0, entries@[j].0) by {
                assert(precedes(marks[i], marks[j]));
            }
        },
        Node::Internal { keys, edges } => {
            let keys = keys@;
            let edges = edges@;
            // Where the keys under an edge, and the separator to its left, are in the walk.
            let start = |i: int| (weave(keys, edges.take(i)) + separator(keys, i)).len() as int;
            assert forall|i: int| 0 <= i < edges.len() implies {
                &&& 0 <= #[trigger] start(i)
                &&& start(i) + edges[i].marks().len() == weave(keys, edges.take(i + 1)).len()
                &&& start(i) + edges[i].marks().len() <= marks.len()
                &&& i > 0 ==> start(i) == weave(keys, edges.take(i)).len() + 1
                &&& i > 0 ==> marks[start(i) - 1] == Mark::Separator(keys[i - 1])
                &&& forall|t: int|
                    0 <= t < edges[i].marks().len() ==> marks[start(i) + t]
                        == #[trigger] edges[i].marks()[t]
            } by {
                lemma_weave_at(keys, edges, i);
                assert(edges.take(i + 1).drop_last() =~= edges.take(i));
                let part = weave(keys, edges.take(i)) + separator(keys, i) + edges[i].marks();
                let prefix = marks.take(part.len() as int);
                assert forall|t: int| 0 <= t < edges[i].marks().len() implies marks[start(i) + t]
                    == #[trigger] edges[i].marks()[t] by {
                    assert(prefix[start(i) + t] == part[start(i) + t]);
                }
                if i > 0 {
                    assert(prefix[start(i) - 1] == part[start(i) - 1]);
                }
            }
            assert forall|i: int, j: int|
                #![trigger keys[i], keys[j]]
                0 <= i < j < keys.len() implies key_lt(keys[i], keys[j]) by {
                lemma_weave_len(keys, edges, i + 2, j + 1);
                assert(start(i + 1) >= 0 && start(j + 1) >= 0);
                assert(precedes(marks[start(i + 1) - 1], marks[start(j + 1) - 1]));
            }
            assert forall|i: int| 0 <= i < edges.len() implies (#[trigger] edges[i]).ordered() by {
                assert(edges[i].full((h - 1) as nat));
                let under = edges[i].marks();
                assert forall|a: int, b: int|
                    #![trigger under[a], under[b]]
                    0 <= a < b < under.len() implies precedes(under[a], under[b]) by {
                    assert(start(i) >= 0);
                    assert(precedes(marks[start(i) + a], marks[start(i) + b]));
                }
                lemma_marks_ordered(*edges[i], (h - 1) as nat);
            }
            assert forall|i: int| 0 <= i < edges.len() implies within(
                (#[trigger] edges[i]).entries(),
                keys,
                i,
            ) by {
                let s = edges[i].entries();
                assert forall|j: int| 0 <= j < i && j < keys.len() implies all_ge(
                    s,
                    #[trigger] keys[j],
                ) by {
                    assert forall|p: int| 0 <= p < s.len() implies key_le(
                        keys[j],
                        (#[trigger] s[p]).0,
                    ) by {
                        let q = lemma_entry_mark(*edges[i], p);
                        lemma_weave_len(keys, edges, j + 1, i);
                        assert(start(i) >= 0 && start(j + 1) >= 0);
                        assert(precedes(marks[start(j + 1) - 1], marks[start(i) + q]));
                    }
                }
                assert forall|j: int| i <= j < keys.len() implies all_lt(s, #[trigger] keys[j]) by {
                    assert forall|p: int| 0 <= p < s.len() implies key_lt(
                        (#[trigger] s[p]).0,
                        keys[j],
                    ) by {
                        let q = lemma_entry_mark(*edges[i], p);
                        lemma_weave_len(keys, edges, i + 1, j + 1);
                        assert(start(i) >= 0 && start(j + 1) >= 0);
                        assert(precedes(marks[start(i) + q], marks[start(j + 1) - 1]));
                    }
                }
            }
        },
    }
}

} // verus!
