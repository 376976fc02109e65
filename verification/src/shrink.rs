//! Removing an entry from a tree, refilling or merging the nodes that underflow.

use crate::node::{
    all_ge, all_lt, concat, lemma_concat_at, lemma_concat_one, lemma_entries_len, lemma_le_lt,
    lemma_lt_le, lemma_separated_divide, lemma_separated_join, lemma_separated_merge,
    lemma_separated_update, lemma_sorted_add, separated, within, M, Node,
};
use crate::order::{key_eq, key_le, key_lt, key_model, total_order};
use crate::path::{leaf_entries, leaf_start, lemma_leaf_entries, valid_path};
use crate::undo::{join, joins, records, removal, same_pair, Mend, Step};
use vstd::prelude::*;

verus! {

/// `left` and `right` are ordered, and `sep` separates them.
spec fn pair_ordered<K: Ord, V>(left: Node<K, V>, sep: K, right: Node<K, V>) -> bool {
    &&& left.ordered()
    &&& right.ordered()
    &&& all_lt(left.entries(), sep)
    &&& all_ge(right.entries(), sep)
}

/// Joins two ordered internal nodes with the key between them.
proof fn lemma_join<K: Ord, V>(
    lk: Seq<K>,
    le: Seq<Box<Node<K, V>>>,
    sep: K,
    rk: Seq<K>,
    re: Seq<Box<Node<K, V>>>,
    h: nat,
)
    requires
        total_order::<K>(),
        separated(lk, le),
        separated(rk, re),
        le.len() == lk.len() + 1,
        re.len() == rk.len() + 1,
        all_lt(concat(le), sep),
        all_ge(concat(re), sep),
        forall|i: int| 0 <= i < le.len() ==> (#[trigger] le[i]).full(h) && le[i].ordered(),
        forall|i: int| 0 <= i < re.len() ==> (#[trigger] re[i]).full(h) && re[i].ordered(),
    ensures
        separated(lk.push(sep) + rk, le + re),
        concat(le + re) == concat(le) + concat(re),
        forall|i: int|
            0 <= i < (le + re).len() ==> (#[trigger] (le + re)[i]).full(h) && (le
                + re)[i].ordered(),
{
    assert(le[le.len() - 1].full(h));
    assert(re[0].full(h));
    lemma_entries_len(*le.last(), h);
    lemma_entries_len(*re[0], h);
    lemma_separated_join(lk, le, sep, rk, re);
    assert forall|i: int| 0 <= i < (le + re).len() implies (#[trigger] (le + re)[i]).full(h) && (le
        + re)[i].ordered() by {
        if i < le.len() {
            assert((le + re)[i] == le[i]);
        } else {
            assert((le + re)[i] == re[i - le.len()]);
        }
    }
}

/// Divides the keys and edges of a joined node at key `m`.
proof fn lemma_divide<K: Ord, V>(
    keys: Seq<K>,
    edges: Seq<Box<Node<K, V>>>,
    m: int,
    h: nat,
    lk: Seq<K>,
    le: Seq<Box<Node<K, V>>>,
    rk: Seq<K>,
    re: Seq<Box<Node<K, V>>>,
)
    requires
        total_order::<K>(),
        separated(keys, edges),
        0 <= m < keys.len(),
        edges.len() == keys.len() + 1,
        forall|i: int| 0 <= i < edges.len() ==> (#[trigger] edges[i]).full(h) && edges[i].ordered(),
        lk == keys.take(m),
        le == edges.take(m + 1),
        rk == keys.skip(m + 1),
        re == edges.skip(m + 1),
    ensures
        separated(lk, le),
        separated(rk, re),
        all_lt(concat(le), keys[m]),
        all_ge(concat(re), keys[m]),
        concat(edges) == concat(le) + concat(re),
        forall|i: int| 0 <= i < le.len() ==> (#[trigger] le[i]).full(h) && le[i].ordered(),
        forall|i: int| 0 <= i < re.len() ==> (#[trigger] re[i]).full(h) && re[i].ordered(),
{
    lemma_separated_divide(keys, edges, m);
    assert forall|i: int| 0 <= i < le.len() implies (#[trigger] le[i]).full(h)
        && le[i].ordered() by {
        assert(le[i] == edges[i]);
    }
    assert forall|i: int| 0 <= i < re.len() implies (#[trigger] re[i]).full(h)
        && re[i].ordered() by {
        assert(re[i] == edges[m + 1 + i]);
    }
}

/// Moves the last entry or edge of `left` to the front of `right`. The key that was between
/// leaves is returned.
fn shift_right<K: Ord + Clone, V>(
    left: &mut Node<K, V>,
    sep: &mut K,
    right: &mut Node<K, V>,
    Ghost(h): Ghost<nat>,
) -> (before: Option<K>)
    requires
        key_model::<K>(),
        old(left).shaped(h),
        old(right).shaped(h),
        old(left).count() > M / 2,
        old(right).count() < M,
        pair_ordered(*old(left), *old(sep), *old(right)),
    ensures
        final(left).shaped(h),
        final(right).shaped(h),
        final(left).count() == old(left).count() - 1,
        final(right).count() == old(right).count() + 1,
        final(left).entries() + final(right).entries() == old(left).entries()
            + old(right).entries(),
        pair_ordered(*final(left), *final(sep), *final(right)),
        same_pair(
            *final(left),
            *final(sep),
            *final(right),
            *old(left),
            *old(sep),
            *old(right),
        ),
        before == if *old(left) is Leaf {
            Some(*old(sep))
        } else {
            None
        },
{
    let ghost sep0 = *sep;
    match left {
        Node::Leaf { entries: l } => match right {
            Node::Leaf { entries: r } => {
                let ghost l0 = l@;
                let ghost r0 = r@;
                let (key, val) = l.pop().unwrap();
                let mut before = key.clone();
                core::mem::swap(sep, &mut before);
                r.insert(0, (key, val));
                proof {
                    assert(key_eq(key, *sep));
                    let n = l0.len() - 1;
                    assert(l0[n] == (key, val));
                    assert(!key_lt(key, *sep));
                    assert forall|i: int| 0 <= i < l@.len() implies key_lt(
                        (#[trigger] l@[i]).0,
                        *sep,
                    ) by {
                        assert(l@[i] == l0[i]);
                        lemma_lt_le(l0[i].0, key, *sep);
                    }
                    assert forall|i: int| 0 <= i < r@.len() implies key_le(
                        *sep,
                        (#[trigger] r@[i]).0,
                    ) by {
                        if i > 0 {
                            assert(r@[i] == r0[i - 1]);
                            lemma_lt_le(key, sep0, r0[i - 1].0);
                            lemma_le_lt(*sep, key, r0[i - 1].0);
                        }
                    }
                    lemma_sorted_add(l0, sep0, r0);
                    assert(l@ + r@ =~= l0 + r0);
                    assert forall|i: int, j: int|
                        #![trigger r@[i], r@[j]]
                        0 <= i < j < r@.len() implies key_lt(r@[i].0, r@[j].0) by {
                        assert(r@[i] == (l0 + r0)[n + i]);
                        assert(r@[j] == (l0 + r0)[n + j]);
                    }
                }
                Some(before)
            },
            Node::Internal { .. } => {
                assert(false);
                None
            },
        },
        Node::Internal { keys: lk, edges: le } => match right {
            Node::Internal { keys: rk, edges: re } => {
                let ghost lk0 = lk@;
                let ghost le0 = le@;
                let ghost rk0 = rk@;
                let ghost re0 = re@;
                proof {
                    lemma_join(lk0, le0, sep0, rk0, re0, (h - 1) as nat);
                }
                let mut key = lk.pop().unwrap();
                let edge = le.pop().unwrap();
                core::mem::swap(sep, &mut key);
                rk.insert(0, key);
                re.insert(0, edge);
                proof {
                    let keys = lk0.push(sep0) + rk0;
                    let m = lk0.len() - 1;
                    assert(lk@ =~= keys.take(m));
                    assert(rk@ =~= keys.skip(m + 1));
                    assert(le@ =~= (le0 + re0).take(m + 1));
                    assert(re@ =~= (le0 + re0).skip(m + 1));
                    assert(keys[m] == *sep);
                    lemma_divide(
                        keys,
                        le0 + re0,
                        m,
                        (h - 1) as nat,
                        lk@,
                        le@,
                        rk@,
                        re@,
                    );
                    assert(lk@.push(*sep) + rk@ =~= keys);
                    assert(le@ + re@ =~= le0 + re0);
                }
                None
            },
            Node::Leaf { .. } => {
                assert(false);
                None
            },
        },
    }
}

/// Moves the first entry or edge of `right` to the back of `left`. The key that was between
/// leaves is returned.
fn shift_left<K: Ord + Clone, V>(
    left: &mut Node<K, V>,
    sep: &mut K,
    right: &mut Node<K, V>,
    Ghost(h): Ghost<nat>,
) -> (before: Option<K>)
    requires
        key_model::<K>(),
        old(left).shaped(h),
        old(right).shaped(h),
        old(left).count() < M,
        old(right).count() > M / 2,
        pair_ordered(*old(left), *old(sep), *old(right)),
    ensures
        final(left).shaped(h),
        final(right).shaped(h),
        final(left).count() == old(left).count() + 1,
        final(right).count() == old(right).count() - 1,
        final(left).entries() + final(right).entries() == old(left).entries()
            + old(right).entries(),
        pair_ordered(*final(left), *final(sep), *final(right)),
        same_pair(
            *final(left),
            *final(sep),
            *final(right),
            *old(left),
            *old(sep),
            *old(right),
        ),
        before == if *old(left) is Leaf {
            Some(*old(sep))
        } else {
            None
        },
{
    let ghost sep0 = *sep;
    match left {
        Node::Leaf { entries: l } => match right {
            Node::Leaf { entries: r } => {
                let ghost l0 = l@;
                let ghost r0 = r@;
                let mut before = r[1].0.clone();
                core::mem::swap(sep, &mut before);
                let entry = r.remove(0);
                l.push(entry);
                proof {
                    assert(key_eq(r0[1].0, *sep));
                    assert(!key_lt(r0[1].0, *sep));
                    lemma_sorted_add(l0, sep0, r0);
                    let all = l0 + r0;
                    let n = l0.len() as int;
                    assert(l@ + r@ =~= all);
                    assert(all[n + 1] == r0[1]);
                    assert forall|i: int| 0 <= i < l@.len() implies key_lt(
                        (#[trigger] l@[i]).0,
                        *sep,
                    ) by {
                        assert(l@[i] == all[i]);
                        lemma_lt_le(all[i].0, all[n + 1].0, *sep);
                    }
                    assert forall|i: int| 0 <= i < r@.len() implies key_le(
                        *sep,
                        (#[trigger] r@[i]).0,
                    ) by {
                        assert(r@[i] == all[n + 1 + i]);
                        if i > 0 {
                            lemma_le_lt(*sep, all[n + 1].0, all[n + 1 + i].0);
                        }
                    }
                    assert forall|i: int, j: int|
                        #![trigger l@[i], l@[j]]
                        0 <= i < j < l@.len() implies key_lt(l@[i].0, l@[j].0) by {
                        assert(l@[i] == all[i]);
                        assert(l@[j] == all[j]);
                    }
                }
                Some(before)
            },
            Node::Internal { .. } => {
                assert(false);
                None
            },
        },
        Node::Internal { keys: lk, edges: le } => match right {
            Node::Internal { keys: rk, edges: re } => {
                let ghost lk0 = lk@;
                let ghost le0 = le@;
                let ghost rk0 = rk@;
                let ghost re0 = re@;
                proof {
                    lemma_join(lk0, le0, sep0, rk0, re0, (h - 1) as nat);
                }
                let mut key = rk.remove(0);
                let edge = re.remove(0);
                core::mem::swap(sep, &mut key);
                lk.push(key);
                le.push(edge);
                proof {
                    let keys = lk0.push(sep0) + rk0;
                    let m = lk0.len() as int + 1;
                    assert(lk@ =~= keys.take(m));
                    assert(rk@ =~= keys.skip(m + 1));
                    assert(le@ =~= (le0 + re0).take(m + 1));
                    assert(re@ =~= (le0 + re0).skip(m + 1));
                    assert(keys[m] == *sep);
                    lemma_divide(
                        keys,
                        le0 + re0,
                        m,
                        (h - 1) as nat,
                        lk@,
                        le@,
                        rk@,
                        re@,
                    );
                    assert(lk@.push(*sep) + rk@ =~= keys);
                    assert(le@ + re@ =~= le0 + re0);
                }
                None
            },
            Node::Leaf { .. } => {
                assert(false);
                None
            },
        },
    }
}

/// What `left` and `right` have become when they were joined.
proof fn lemma_joined<K: Ord, V>(
    node: Node<K, V>,
    left: Node<K, V>,
    sep: K,
    right: Node<K, V>,
    h: nat,
)
    requires
        total_order::<K>(),
        left.shaped(h),
        right.shaped(h),
        left.count() + right.count() < M,
        pair_ordered(left, sep, right),
        joins(node, left, sep, right),
    ensures
        node.shaped(h),
        node.count() >= left.count() + right.count(),
        node.entries() == left.entries() + right.entries(),
        node.ordered(),
{
    match (left, right) {
        (Node::Leaf { entries: l }, Node::Leaf { entries: r }) => {
            lemma_sorted_add(l@, sep, r@);
        },
        (
            Node::Internal { keys: lk, edges: le },
            Node::Internal { keys: rk, edges: re },
        ) => {
            lemma_join(lk@, le@, sep, rk@, re@, (h - 1) as nat);
        },
        _ => {},
    }
}

/// What holds of the edges of a node before and after one of them is refilled.
spec fn children_ok<K: Ord, V>(
    keys: Seq<K>,
    edges: Seq<Box<Node<K, V>>>,
    h: nat,
    short: int,
) -> bool {
    &&& edges.len() == keys.len() + 1
    &&& separated(keys, edges)
    &&& forall|i: int| 0 <= i < edges.len() ==> (#[trigger] edges[i]).ordered()
    &&& forall|i: int|
        0 <= i < edges.len() ==> (#[trigger] edges[i]).shaped(h) && edges[i].count() >= M / 2 - (
        if i == short { 1int } else { 0 })
}

/// Two neighbouring edges and the key between them form an ordered pair.
proof fn lemma_pair<K: Ord, V>(keys: Seq<K>, edges: Seq<Box<Node<K, V>>>, i: int)
    requires
        separated(keys, edges),
        edges.len() == keys.len() + 1,
        0 <= i < keys.len(),
        edges[i].ordered(),
        edges[i + 1].ordered(),
    ensures
        pair_ordered(*edges[i], keys[i], *edges[i + 1]),
{
    assert(within(edges[i].entries(), keys, i));
    assert(within(edges[i + 1].entries(), keys, i + 1));
}

/// The entries under all edges, with those under edges `i` and `i + 1` taken together.
proof fn lemma_concat_pair<K, V>(edges: Seq<Box<Node<K, V>>>, i: int)
    requires
        0 <= i < edges.len() - 1,
    ensures
        concat(edges) == concat(edges.take(i)) + (edges[i].entries() + edges[i + 1].entries())
            + concat(edges.skip(i + 2)),
{
    lemma_concat_at(edges, i + 1);
    lemma_concat_at(edges, i);
    assert(concat(edges) =~= concat(edges.take(i)) + (edges[i].entries()
        + edges[i + 1].entries()) + concat(edges.skip(i + 2)));
}

/// Replacing two neighbouring edges and the key between them, with the same entries under
/// the two, keeps the edges in order.
proof fn lemma_replace_pair<K: Ord, V>(
    keys: Seq<K>,
    edges: Seq<Box<Node<K, V>>>,
    i: int,
    left: Box<Node<K, V>>,
    sep: K,
    right: Box<Node<K, V>>,
)
    requires
        total_order::<K>(),
        separated(keys, edges),
        edges.len() == keys.len() + 1,
        0 <= i < keys.len(),
        left.entries() + right.entries() == edges[i].entries() + edges[i + 1].entries(),
        left.entries().len() > 0,
        right.entries().len() > 0,
        pair_ordered(*left, sep, *right),
    ensures
        separated(keys.update(i, sep), edges.update(i, left).update(i + 1, right)),
        concat(edges.update(i, left).update(i + 1, right)) == concat(edges),
{
    // Think of the two as merged into one, and of that one as split again.
    let edges2 = edges.update(i, left).update(i + 1, right);
    lemma_concat_pair(edges, i);
    lemma_concat_pair(edges2, i);
    assert(edges2.take(i) =~= edges.take(i));
    assert(edges2.skip(i + 2) =~= edges.skip(i + 2));
    lemma_replace_pair_separated(keys, edges, i, left, sep, right);
}

proof fn lemma_replace_pair_separated<K: Ord, V>(
    keys: Seq<K>,
    edges: Seq<Box<Node<K, V>>>,
    i: int,
    left: Box<Node<K, V>>,
    sep: K,
    right: Box<Node<K, V>>,
)
    requires
        total_order::<K>(),
        separated(keys, edges),
        edges.len() == keys.len() + 1,
        0 <= i < keys.len(),
        left.entries() + right.entries() == edges[i].entries() + edges[i + 1].entries(),
        left.entries().len() > 0,
        right.entries().len() > 0,
        pair_ordered(*left, sep, *right),
    ensures
        separated(keys.update(i, sep), edges.update(i, left).update(i + 1, right)),
{
    let keys2 = keys.update(i, sep);
    let edges2 = edges.update(i, left).update(i + 1, right);
    let both = left.entries() + right.entries();
    let l = left.entries();
    let r = right.entries();
    assert(within(edges[i].entries(), keys, i));
    assert(within(edges[i + 1].entries(), keys, i + 1));
    // All entries of the pair lie between the keys around it.
    assert forall|c: int| 0 <= c < keys.len() && c != i implies if c < i {
        all_ge(both, #[trigger] keys[c])
    } else {
        all_lt(both, keys[c])
    } by {
        let a = edges[i].entries();
        let b = edges[i + 1].entries();
        assert forall|p: int| 0 <= p < both.len() implies if c < i {
            key_le(keys[c], (#[trigger] both[p]).0)
        } else {
            key_lt(both[p].0, keys[c])
        } by {
            if p < a.len() {
                assert(both[p] == a[p]);
            } else {
                assert(both[p] == b[p - a.len()]);
            }
        }
    }
    assert(both[0] == l[0]);
    assert(both[l.len() as int] == r[0]);
    assert forall|c: int| 0 <= c < i implies key_lt(#[trigger] keys[c], sep) by {
        lemma_le_lt(keys[c], l[0].0, sep);
    }
    assert forall|c: int| i < c < keys.len() implies key_lt(sep, #[trigger] keys[c]) by {
        lemma_le_lt(sep, r[0].0, keys[c]);
    }
    assert forall|a: int, b: int|
        #![trigger keys2[a], keys2[b]]
        0 <= a < b < keys2.len() implies key_lt(keys2[a], keys2[b]) by {
        if a != i {
            assert(keys2[a] == keys[a]);
        }
        if b != i {
            assert(keys2[b] == keys[b]);
        }
    }
    assert forall|j: int| 0 <= j < edges2.len() implies within(
        (#[trigger] edges2[j]).entries(),
        keys2,
        j,
    ) by {
        let s = edges2[j].entries();
        if j != i && j != i + 1 {
            assert(edges2[j] == edges[j]);
            assert(within(edges[j].entries(), keys, j));
        }
        assert forall|p: int| 0 <= p < s.len() && (j == i || j == i + 1) implies exists|q: int|
            0 <= q < both.len() && both[q] == #[trigger] s[p] by {
            if j == i {
                assert(both[p] == s[p]);
            } else {
                assert(both[l.len() + p] == s[p]);
            }
        }
        assert forall|c: int| 0 <= c < j && c < keys2.len() implies all_ge(
            s,
            #[trigger] keys2[c],
        ) by {
            if c != i {
                assert(keys2[c] == keys[c]);
            } else if j > i + 1 {
                assert(all_ge(s, keys[i + 1]));
                assert(key_lt(sep, keys[i + 1]));
                assert forall|p: int| 0 <= p < s.len() implies key_le(
                    sep,
                    (#[trigger] s[p]).0,
                ) by {
                    lemma_lt_le(sep, keys[i + 1], s[p].0);
                }
            }
        }
        assert forall|c: int| j <= c < keys2.len() implies all_lt(s, #[trigger] keys2[c]) by {
            if c != i {
                assert(keys2[c] == keys[c]);
            } else if j < i {
                assert(all_lt(s, keys[i - 1]));
                assert(key_lt(keys[i - 1], sep));
                assert forall|p: int| 0 <= p < s.len() implies key_lt(
                    (#[trigger] s[p]).0,
                    sep,
                ) by {
                    lemma_lt_le(s[p].0, keys[i - 1], sep);
                }
            }
        }
    }
}

/// Of all edges and keys only edges `i` and `i + 1` and the key between them have changed: the
/// second of the two has `gain` more than before, and the first that much less.
spec fn rotated<K, V>(
    keys: Seq<K>,
    edges: Seq<Box<Node<K, V>>>,
    new_keys: Seq<K>,
    new_edges: Seq<Box<Node<K, V>>>,
    i: int,
    gain: int,
) -> bool {
    &&& new_keys == keys.update(i, new_keys[i])
    &&& new_edges == edges.update(i, new_edges[i]).update(i + 1, new_edges[i + 1])
    &&& new_edges[i].count() == edges[i].count() - gain
    &&& new_edges[i + 1].count() == edges[i + 1].count() + gain
    &&& new_edges[i].entries() + new_edges[i + 1].entries() == edges[i].entries() + edges[i
        + 1].entries()
}

/// Edge `i + 1` has been merged into edge `i`, and the others and their keys have not changed.
spec fn merged<K, V>(
    keys: Seq<K>,
    edges: Seq<Box<Node<K, V>>>,
    new_keys: Seq<K>,
    new_edges: Seq<Box<Node<K, V>>>,
    i: int,
) -> bool {
    &&& new_keys == keys.remove(i)
    &&& new_edges == edges.update(i, new_edges[i]).remove(i + 1)
    &&& new_edges[i].entries() == edges[i].entries() + edges[i + 1].entries()
}

/// Edge `i` has a neighbour that can do without one of its entries or edges.
pub open spec fn neighbour_gives<K, V>(edges: Seq<Box<Node<K, V>>>, i: int) -> bool {
    ||| i > 0 && edges[i - 1].count() > M / 2
    ||| i + 1 < edges.len() && edges[i + 1].count() > M / 2
}

/// The node itself holds one less when an entry is removed from the leaf that `path` leads to: an
/// internal node does if the edge on the way falls short and is merged with a neighbour, since
/// none can refill it.
pub open spec fn loses_key<K, V>(node: Node<K, V>, path: Seq<usize>) -> bool
    decreases node,
{
    match node {
        Node::Leaf { .. } => true,
        Node::Internal { keys, edges } => {
            &&& path.len() > 0
            &&& path[0] < edges@.len()
            &&& edges@[path[0] as int].count() == M / 2
            &&& !neighbour_gives(edges@, path[0] as int)
            &&& loses_key(*edges@[path[0] as int], path.drop_first())
        },
    }
}

/// Refills edge `i + 1` from edge `i`.
fn rotate_right<K: Ord + Clone, V>(
    keys: &mut Vec<K>,
    edges: &mut Vec<Box<Node<K, V>>>,
    i: usize,
    Ghost(h): Ghost<nat>,
) -> (mend: Mend<K, V>)
    requires
        key_model::<K>(),
        i + 1 < old(edges).len(),
        children_ok(old(keys)@, old(edges)@, h, i + 1),
        old(edges)@[i as int].count() > M / 2,
        old(edges)@[i + 1].count() == M / 2 - 1,
    ensures
        children_ok(final(keys)@, final(edges)@, h, -1),
        final(keys)@.len() == old(keys)@.len(),
        concat(final(edges)@) == concat(old(edges)@),
        rotated(old(keys)@, old(edges)@, final(keys)@, final(edges)@, i as int, 1),
        records(mend, final(keys)@, final(edges)@, old(keys)@, old(edges)@),
        mend.spare is None,
{
    let ghost keys0 = keys@;
    let ghost edges0 = edges@;
    let ghost ii = i as int;
    proof {
        lemma_pair(keys0, edges0, ii);
    }
    let mut right = edges.remove(i + 1);
    let left_len: usize = edges[i].len();
    let sep = shift_right(&mut *edges[i], &mut keys[i], &mut *right, Ghost(h));
    let ghost left = edges@[ii];
    edges.insert(i + 1, right);
    proof {
        lemma_entries_len(*left, h);
        lemma_entries_len(*right, h);
        assert(edges@ =~= edges0.update(ii, left).update(ii + 1, right));
        assert(keys@ =~= keys0.update(ii, keys@[ii]));
        lemma_replace_pair(keys0, edges0, ii, left, keys@[ii], right);
    }
    Mend { at: i, left: left_len, sep, spare: None }
}

/// Refills edge `i` from edge `i + 1`.
fn rotate_left<K: Ord + Clone, V>(
    keys: &mut Vec<K>,
    edges: &mut Vec<Box<Node<K, V>>>,
    i: usize,
    Ghost(h): Ghost<nat>,
) -> (mend: Mend<K, V>)
    requires
        key_model::<K>(),
        i + 1 < old(edges).len(),
        children_ok(old(keys)@, old(edges)@, h, i as int),
        old(edges)@[i as int].count() == M / 2 - 1,
        old(edges)@[i + 1].count() > M / 2,
    ensures
        children_ok(final(keys)@, final(edges)@, h, -1),
        final(keys)@.len() == old(keys)@.len(),
        concat(final(edges)@) == concat(old(edges)@),
        rotated(old(keys)@, old(edges)@, final(keys)@, final(edges)@, i as int, -1),
        records(mend, final(keys)@, final(edges)@, old(keys)@, old(edges)@),
        mend.spare is None,
{
    let ghost keys0 = keys@;
    let ghost edges0 = edges@;
    let ghost ii = i as int;
    proof {
        lemma_pair(keys0, edges0, ii);
    }
    let mut right = edges.remove(i + 1);
    let left_len: usize = edges[i].len();
    let sep = shift_left(&mut *edges[i], &mut keys[i], &mut *right, Ghost(h));
    let ghost left = edges@[ii];
    edges.insert(i + 1, right);
    proof {
        lemma_entries_len(*left, h);
        lemma_entries_len(*right, h);
        assert(edges@ =~= edges0.update(ii, left).update(ii + 1, right));
        assert(keys@ =~= keys0.update(ii, keys@[ii]));
        lemma_replace_pair(keys0, edges0, ii, left, keys@[ii], right);
    }
    Mend { at: i, left: left_len, sep, spare: None }
}

/// Merges edge `i + 1` into edge `i`.
fn merge_edges<K: Ord, V>(
    keys: &mut Vec<K>,
    edges: &mut Vec<Box<Node<K, V>>>,
    i: usize,
    Ghost(h): Ghost<nat>,
    Ghost(short): Ghost<int>,
) -> (mend: Mend<K, V>)
    requires
        total_order::<K>(),
        i + 1 < old(edges).len(),
        short == i || short == i + 1,
        children_ok(old(keys)@, old(edges)@, h, short),
        old(edges)@[i as int].count() + old(edges)@[i + 1].count() < M,
    ensures
        children_ok(final(keys)@, final(edges)@, h, -1),
        final(keys)@.len() == old(keys)@.len() - 1,
        concat(final(edges)@) == concat(old(edges)@),
        merged(old(keys)@, old(edges)@, final(keys)@, final(edges)@, i as int),
        records(mend, final(keys)@, final(edges)@, old(keys)@, old(edges)@),
        mend.spare is Some,
{
    let ghost keys0 = keys@;
    let ghost edges0 = edges@;
    let ghost ii = i as int;
    proof {
        lemma_pair(keys0, edges0, ii);
    }
    let left_len: usize = edges[i].len();
    let sep = keys.remove(i);
    let mut right = edges.remove(i + 1);
    let sep = join(&mut *edges[i], sep, &mut *right);
    proof {
        let node = edges@[ii];
        lemma_joined(*node, *edges0[ii], keys0[ii], *edges0[ii + 1], h);
        assert(edges@ =~= edges0.update(ii, node).remove(ii + 1));
        lemma_separated_merge(keys0, edges0, ii, node);
        lemma_concat_pair(edges0, ii);
        lemma_concat_at(edges@, ii);
        assert(edges@.take(ii) =~= edges0.take(ii));
        assert(edges@.skip(ii + 1) =~= edges0.skip(ii + 2));
    }
    Mend { at: i, left: left_len, sep, spare: Some(right) }
}

/// Refills edge `idx`, which is one short: from the edge before it, from the edge after it,
/// or by merging it with one of the two.
fn refill<K: Ord + Clone, V>(
    keys: &mut Vec<K>,
    edges: &mut Vec<Box<Node<K, V>>>,
    idx: usize,
    Ghost(h): Ghost<nat>,
) -> (mend: Mend<K, V>)
    requires
        key_model::<K>(),
        idx < old(edges).len(),
        old(keys).len() >= 1,
        children_ok(old(keys)@, old(edges)@, h, idx as int),
        old(edges)@[idx as int].count() == M / 2 - 1,
    ensures
        children_ok(final(keys)@, final(edges)@, h, -1),
        concat(final(edges)@) == concat(old(edges)@),
        ({
            let (k0, e0, k1, e1) = (old(keys)@, old(edges)@, final(keys)@, final(edges)@);
            let i = idx as int;
            if i > 0 && e0[i - 1].count() > M / 2 {
                rotated(k0, e0, k1, e1, i - 1, 1)
            } else if i < k0.len() && e0[i + 1].count() > M / 2 {
                rotated(k0, e0, k1, e1, i, -1)
            } else if i > 0 {
                merged(k0, e0, k1, e1, i - 1)
            } else {
                merged(k0, e0, k1, e1, i)
            }
        }),
        records(mend, final(keys)@, final(edges)@, old(keys)@, old(edges)@),
        mend.spare is Some <==> !neighbour_gives(old(edges)@, idx as int),
{
    if idx > 0 && edges[idx - 1].len() > M / 2 {
        rotate_right(keys, edges, idx - 1, Ghost(h))
    } else if idx < keys.len() && edges[idx + 1].len() > M / 2 {
        rotate_left(keys, edges, idx, Ghost(h))
    } else if idx > 0 {
        merge_edges(keys, edges, idx - 1, Ghost(h), Ghost(idx as int))
    } else {
        merge_edges(keys, edges, idx, Ghost(h), Ghost(idx as int))
    }
}

/// What holds of the edges of a node when an entry has been removed under one of them.
proof fn lemma_child_removal<K: Ord, V>(
    keys: Seq<K>,
    edges: Seq<Box<Node<K, V>>>,
    i: int,
    child: Box<Node<K, V>>,
    at: int,
    h: nat,
)
    requires
        edges.len() == keys.len() + 1,
        separated(keys, edges),
        forall|j: int| 0 <= j < edges.len() ==> (#[trigger] edges[j]).full(h),
        forall|j: int| 0 <= j < edges.len() ==> (#[trigger] edges[j]).ordered(),
        0 <= i < edges.len(),
        0 <= at < edges[i].entries().len(),
        child.entries() == edges[i].entries().remove(at),
        child.shaped(h),
        child.count() >= edges[i].count() - 1,
        child.ordered(),
    ensures
        children_ok(keys, edges.update(i, child), h, i),
        concat(edges.update(i, child)) == concat(edges).remove(
            concat(edges.take(i)).len() + at,
        ),
{
    let edges1 = edges.update(i, child);
    let s = edges[i].entries();
    let s1 = child.entries();
    assert(edges[i].full(h));
    assert(edges1.take(i) =~= edges.take(i));
    assert(edges1.skip(i + 1) =~= edges.skip(i + 1));
    lemma_concat_at(edges, i);
    lemma_concat_at(edges1, i);
    assert(concat(edges1) =~= concat(edges).remove(concat(edges.take(i)).len() + at));
    assert forall|p: int| 0 <= p < s1.len() implies exists|q: int|
        0 <= q < s.len() && s[q] == #[trigger] s1[p] by {
        let q = if p < at { p } else { p + 1 };
        assert(s[q] == s1[p]);
    }
    assert(within(s, keys, i));
    assert forall|j: int| 0 <= j < i && j < keys.len() implies all_ge(s1, #[trigger] keys[j]) by {
        assert(all_ge(s, keys[j]));
    }
    assert forall|j: int| i <= j < keys.len() implies all_lt(s1, #[trigger] keys[j]) by {
        assert(all_lt(s, keys[j]));
    }
    lemma_separated_update(keys, edges, i, child);
    assert forall|j: int| 0 <= j < edges1.len() && j != i implies (#[trigger] edges1[j]).full(h)
        && edges1[j].ordered() by {
        assert(edges1[j] == edges[j]);
    }
}

/// Removes entry `idx` of the leaf that `path`, from step `depth` on, leads to. The steps, from
/// the leaf upwards, record how the nodes on the way were refilled.
#[verifier::rlimit(40)]
pub fn remove_at<K: Ord + Clone, V>(
    node: &mut Node<K, V>,
    path: &Vec<usize>,
    depth: usize,
    idx: usize,
    steps: &mut Vec<Step<K, V>>,
) -> (entry: (K, V))
    requires
        key_model::<K>(),
        depth <= path.len(),
        old(node).shaped((path.len() - depth) as nat),
        old(node).count() >= 1,
        old(node).ordered(),
        valid_path(*old(node), path@.skip(depth as int)),
        idx < leaf_entries(*old(node), path@.skip(depth as int)).len(),
    ensures
        final(node).shaped((path.len() - depth) as nat),
        final(node).count() == old(node).count() - if loses_key(
            *old(node),
            path@.skip(depth as int),
        ) {
            1int
        } else {
            0
        },
        final(node).ordered(),
        ({
            let at = leaf_start(*old(node), path@.skip(depth as int)) + idx;
            &&& at < old(node).entries().len()
            &&& entry == old(node).entries()[at]
            &&& final(node).entries() == old(node).entries().remove(at)
        }),
        removal(
            *final(node),
            final(steps)@,
            *old(node),
            path@.skip(depth as int),
            idx as int,
        ),
        final(steps)@.len() == old(steps)@.len() + path.len() - depth,
    decreases path.len() - depth,
{
    let ghost node0 = *node;
    let ghost h = (path.len() - depth) as nat;
    match node {
        Node::Leaf { entries } => {
            let ghost entries0 = entries@;
            let entry = entries.remove(idx);
            assert forall|i: int, j: int|
                #![trigger entries@[i], entries@[j]]
                0 <= i < j < entries@.len() implies key_lt(entries@[i].0, entries@[j].0) by {
                let i1 = if i < idx { i } else { i + 1 };
                let j1 = if j < idx { j } else { j + 1 };
                assert(entries@[i] == entries0[i1] && entries@[j] == entries0[j1]);
            }
            entry
        },
        Node::Internal { keys, edges } => {
            let ghost keys0 = keys@;
            let ghost edges0 = edges@;
            let c: usize = path[depth];
            let ghost ci = c as int;
            let ghost sub = path@.skip(depth + 1);
            let ghost sub_at = leaf_start(*edges0[ci], sub) + idx;
            let ghost at = leaf_start(node0, path@.skip(depth as int)) + idx;
            proof {
                assert(path@.skip(depth as int).drop_first() =~= sub);
                assert(edges0[ci].full((h - 1) as nat));
                assert(edges0[ci].ordered());
                lemma_leaf_entries(*edges0[ci], sub);
                lemma_concat_at(edges0, ci);
                assert(within(edges0[ci].entries(), keys0, ci));
            }
            let entry = remove_at(&mut *edges[c], path, depth + 1, idx, steps);
            let ghost steps1 = steps@;
            let ghost edges1 = edges@;
            proof {
                assert(edges1 =~= edges0.update(ci, edges1[ci]));
                lemma_child_removal(keys0, edges0, ci, edges1[ci], sub_at, (h - 1) as nat);
            }
            let ghost child = edges1[ci];
            let mend = if edges[c].len() < M / 2 {
                Some(refill(keys, edges, c, Ghost((h - 1) as nat)))
            } else {
                None
            };
            steps.push(Step { mend, child: Ghost(child) });
            assert(steps@.drop_last() =~= steps1);
            entry
        },
    }
}

/// Takes the only edge, if any, out of a node that holds no keys.
pub fn vacate<K: Ord, V>(node: &mut Node<K, V>, Ghost(h): Ghost<nat>) -> (only: Option<
    Box<Node<K, V>>,
>)
    requires
        old(node).shaped(h),
        old(node).count() == 0,
        old(node).ordered(),
    ensures
        final(node).vacant(),
        *final(node) is Leaf <==> *old(node) is Leaf,
        *old(node) matches Node::Internal { edges, .. } ==> only is Some && edges@ == seq![only->0],
        match only {
            Some(child) => {
                &&& h > 0
                &&& child.full((h - 1) as nat)
                &&& child.ordered()
                &&& child.entries() == old(node).entries()
            },
            None => h == 0 && old(node).entries().len() == 0,
        },
{
    match node {
        Node::Leaf { .. } => None,
        Node::Internal { keys, edges } => {
            proof {
                assert(edges@ =~= seq![edges@[0]]);
                lemma_concat_one(edges@[0]);
                assert(edges@[0].full((h - 1) as nat));
                assert(edges@[0].ordered());
            }
            edges.pop()
        },
    }
}

/// Puts the only edge, if any, back into a node that it was taken out of.
pub fn occupy<K, V>(node: &mut Node<K, V>, only: Option<Box<Node<K, V>>>)
    requires
        old(node).vacant(),
        *old(node) is Leaf <==> only is None,
    ensures
        match *final(node) {
            Node::Leaf { entries } => only is None && entries@.len() == 0,
            Node::Internal { keys, edges } => {
                only is Some && keys@.len() == 0 && edges@ == seq![only->0]
            },
        },
{
    match node {
        Node::Leaf { .. } => {},
        Node::Internal { keys, edges } => match only {
            Some(child) => {
                edges.push(child);
                assert(edges@ =~= seq![child]);
            },
            None => {},
        },
    }
}

} // verus!
