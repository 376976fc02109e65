//! The nodes of a b-tree: what they hold, what shape they have, and in what order their keys are.

use crate::order::{key_le, key_lt, total_order};
use vstd::prelude::*;

verus! {

/// The most entries that a leaf holds, and the most keys that an internal node holds.
///
/// Every node but the root holds at least half as many.
pub const M: usize = 8;

/// A node of a b-tree.
///
/// All entries are in the leaves. The keys of an internal node only guide a lookup: the
/// entries under edge `i` come before key `i`, those under the edges after it do not.
pub enum Node<K, V> {
    Leaf { entries: Vec<(K, V)> },
    Internal { keys: Vec<K>, edges: Vec<Box<Node<K, V>>> },
}

impl<K, V> Node<K, V> {
    /// The entries under this node, from left to right.
    pub open spec fn entries(self) -> Seq<(K, V)>
        decreases self,
    {
        match self {
            Node::Leaf { entries } => entries@,
            Node::Internal { keys, edges } => concat(edges@),
        }
    }

    /// How many entries a leaf holds itself, or how many keys an internal node holds.
    pub open spec fn count(self) -> nat {
        match self {
            Node::Leaf { entries } => entries@.len(),
            Node::Internal { keys, edges } => keys@.len(),
        }
    }

    /// The node holds nothing.
    pub open spec fn vacant(self) -> bool {
        match self {
            Node::Leaf { entries } => entries@.len() == 0,
            Node::Internal { keys, edges } => keys@.len() == 0 && edges@.len() == 0,
        }
    }

    /// All leaves are `h` levels down, no node holds more than `M`, and every node below
    /// this one holds at least `M / 2`.
    pub open spec fn shaped(self, h: nat) -> bool
        decreases h, 0nat,
    {
        match self {
            Node::Leaf { entries } => h == 0 && entries@.len() <= M,
            Node::Internal { keys, edges } => {
                &&& h > 0
                &&& keys@.len() <= M
                &&& edges@.len() == keys@.len() + 1
                &&& forall|i: int|
                    0 <= i < edges@.len() ==> (#[trigger] edges@[i]).full((h - 1) as nat)
            },
        }
    }

    /// The node has its shape and holds at least `M / 2`.
    pub open spec fn full(self, h: nat) -> bool
        decreases h, 1nat,
    {
        self.shaped(h) && self.count() >= M / 2
    }

    /// How many entries or keys the node holds itself.
    pub fn len(&self) -> (n: usize)
        ensures
            n == self.count(),
    {
        match self {
            Node::Leaf { entries } => entries.len(),
            Node::Internal { keys, .. } => keys.len(),
        }
    }
}

impl<K: Ord, V> Node<K, V> {
    /// The keys are in order at every level below this node.
    pub open spec fn ordered(self) -> bool
        decreases self,
    {
        match self {
            Node::Leaf { entries } => sorted(entries@),
            Node::Internal { keys, edges } => {
                &&& separated(keys@, edges@)
                &&& forall|i: int| 0 <= i < edges@.len() ==> (#[trigger] edges@[i]).ordered()
            },
        }
    }
}

/// The entries under a sequence of edges, from left to right.
pub open spec fn concat<K, V>(edges: Seq<Box<Node<K, V>>>) -> Seq<(K, V)>
    decreases edges,
{
    if edges.len() == 0 {
        Seq::empty()
    } else {
        concat(edges.drop_last()) + edges.last().entries()
    }
}

/// The keys of the entries are strictly increasing.
pub open spec fn sorted<K: Ord, V>(s: Seq<(K, V)>) -> bool {
    forall|i: int, j: int|
        #![trigger s[i], s[j]]
        0 <= i < j < s.len() ==> key_lt(s[i].0, s[j].0)
}

/// The keys are strictly increasing.
pub open spec fn sorted_keys<K: Ord>(keys: Seq<K>) -> bool {
    forall|i: int, j: int|
        #![trigger keys[i], keys[j]]
        0 <= i < j < keys.len() ==> key_lt(keys[i], keys[j])
}

/// All entries come before `key`.
pub open spec fn all_lt<K: Ord, V>(s: Seq<(K, V)>, key: K) -> bool {
    forall|i: int| 0 <= i < s.len() ==> key_lt((#[trigger] s[i]).0, key)
}

/// No entry comes before `key`.
pub open spec fn all_ge<K: Ord, V>(s: Seq<(K, V)>, key: K) -> bool {
    forall|i: int| 0 <= i < s.len() ==> key_le(key, (#[trigger] s[i]).0)
}

/// The entries belong in gap `i` of `keys`: after the first `i` of them, before the others.
pub open spec fn within<K: Ord, V>(s: Seq<(K, V)>, keys: Seq<K>, i: int) -> bool {
    &&& forall|j: int| 0 <= j < i && j < keys.len() ==> all_ge(s, #[trigger] keys[j])
    &&& forall|j: int| i <= j < keys.len() ==> all_lt(s, #[trigger] keys[j])
}

/// `keys` are sorted and separate the entries under `edges`.
pub open spec fn separated<K: Ord, V>(keys: Seq<K>, edges: Seq<Box<Node<K, V>>>) -> bool {
    &&& sorted_keys(keys)
    &&& forall|i: int|
        0 <= i < edges.len() ==> within((#[trigger] edges[i]).entries(), keys, i)
}

// Facts about `concat`.

pub proof fn lemma_concat_add<K, V>(a: Seq<Box<Node<K, V>>>, b: Seq<Box<Node<K, V>>>)
    ensures
        concat(a + b) == concat(a) + concat(b),
    decreases b.len(),
{
    if b.len() == 0 {
        assert(a + b =~= a);
        assert(concat(a) + concat(b) =~= concat(a));
    } else {
        assert((a + b).drop_last() =~= a + b.drop_last());
        assert((a + b).last() == b.last());
        lemma_concat_add(a, b.drop_last());
        assert(concat(a + b) =~= concat(a) + concat(b));
    }
}

pub proof fn lemma_concat_one<K, V>(node: Box<Node<K, V>>)
    ensures
        concat(seq![node]) == node.entries(),
{
    assert(seq![node].drop_last() =~= Seq::empty());
    assert(concat(seq![node].drop_last()) =~= Seq::<(K, V)>::empty());
    assert(concat(seq![node]) =~= node.entries());
}

/// The entries under all edges are those before edge `i`, those under it, and those after it.
pub proof fn lemma_concat_at<K, V>(edges: Seq<Box<Node<K, V>>>, i: int)
    requires
        0 <= i < edges.len(),
    ensures
        concat(edges) == concat(edges.take(i)) + edges[i].entries() + concat(edges.skip(i + 1)),
        concat(edges.take(i + 1)) == concat(edges.take(i)) + edges[i].entries(),
{
    assert(edges =~= edges.take(i + 1) + edges.skip(i + 1));
    lemma_concat_add(edges.take(i + 1), edges.skip(i + 1));
    assert(edges.take(i + 1).drop_last() =~= edges.take(i));
}

/// Every entry under the edges is an entry under one of them.
pub proof fn lemma_concat_index<K, V>(edges: Seq<Box<Node<K, V>>>, p: int) -> (r: (int, int))
    requires
        0 <= p < concat(edges).len(),
    ensures
        0 <= r.0 < edges.len(),
        0 <= r.1 < edges[r.0].entries().len(),
        edges[r.0].entries()[r.1] == concat(edges)[p],
        p == concat(edges.take(r.0)).len() + r.1,
    decreases edges.len(),
{
    let init = edges.drop_last();
    if p < concat(init).len() {
        let r = lemma_concat_index(init, p);
        assert(init.take(r.0) =~= edges.take(r.0));
        r
    } else {
        assert(edges.take(edges.len() - 1) =~= init);
        (edges.len() - 1, p - concat(init).len())
    }
}

/// No node of a tree of height `h` is empty, and there are more entries than levels.
pub proof fn lemma_entries_len<K, V>(node: Node<K, V>, h: nat)
    requires
        node.shaped(h),
        node.count() >= 1,
    ensures
        node.entries().len() >= h + 1,
    decreases h,
{
    match node {
        Node::Leaf { .. } => {},
        Node::Internal { keys, edges } => {
            let last = edges@.last();
            let init = edges@.drop_last();
            assert(edges@[edges@.len() - 1].full((h - 1) as nat));
            assert(edges@[edges@.len() - 2].full((h - 1) as nat));
            assert(init.last() == edges@[edges@.len() - 2]);
            lemma_entries_len(*last, (h - 1) as nat);
            lemma_entries_len(*init.last(), (h - 1) as nat);
            assert(concat(init) == concat(init.drop_last()) + init.last().entries());
        },
    }
}

/// Under an internal node there are at least `M` entries, since every edge has half of them.
pub proof fn lemma_entries_min<K, V>(node: Node<K, V>, h: nat)
    requires
        node.shaped(h),
        node.count() >= 1,
    ensures
        node is Internal ==> node.entries().len() >= M,
        node.entries().len() >= node.count(),
    decreases h,
{
    if let Node::Internal { keys, edges } = node {
        let n = edges@.len() as int;
        let init = edges@.drop_last();
        assert(edges@[n - 1].full((h - 1) as nat));
        assert(edges@[n - 2].full((h - 1) as nat));
        assert(init.last() == edges@[n - 2]);
        lemma_entries_min(*edges@[n - 1], (h - 1) as nat);
        lemma_entries_min(*edges@[n - 2], (h - 1) as nat);
        assert(concat(init) == concat(init.drop_last()) + init.last().entries());
    }
}

// Facts about the order of entries and keys.

pub proof fn lemma_concat_all_lt<K: Ord, V>(edges: Seq<Box<Node<K, V>>>, key: K)
    requires
        forall|i: int| 0 <= i < edges.len() ==> all_lt((#[trigger] edges[i]).entries(), key),
    ensures
        all_lt(concat(edges), key),
{
    assert forall|p: int| 0 <= p < concat(edges).len() implies key_lt(
        (#[trigger] concat(edges)[p]).0,
        key,
    ) by {
        let (i, q) = lemma_concat_index(edges, p);
        assert(all_lt(edges[i].entries(), key));
    }
}

pub proof fn lemma_concat_all_ge<K: Ord, V>(edges: Seq<Box<Node<K, V>>>, key: K)
    requires
        forall|i: int| 0 <= i < edges.len() ==> all_ge((#[trigger] edges[i]).entries(), key),
    ensures
        all_ge(concat(edges), key),
{
    assert forall|p: int| 0 <= p < concat(edges).len() implies key_le(
        key,
        (#[trigger] concat(edges)[p]).0,
    ) by {
        let (i, q) = lemma_concat_index(edges, p);
        assert(all_ge(edges[i].entries(), key));
    }
}

/// Two sorted runs with a key between them are one sorted run.
pub proof fn lemma_sorted_add<K: Ord, V>(a: Seq<(K, V)>, key: K, b: Seq<(K, V)>)
    requires
        total_order::<K>(),
        sorted(a),
        sorted(b),
        all_lt(a, key),
        all_ge(b, key),
    ensures
        sorted(a + b),
{
    let s = a + b;
    assert forall|i: int, j: int|
        #![trigger s[i], s[j]]
        0 <= i < j < s.len() implies key_lt(s[i].0, s[j].0) by {
        if j < a.len() {
            assert(s[i] == a[i] && s[j] == a[j]);
        } else if i >= a.len() {
            assert(s[i] == b[i - a.len()] && s[j] == b[j - a.len()]);
        } else {
            assert(s[i] == a[i] && s[j] == b[j - a.len()]);
            lemma_lt_le(a[i].0, key, b[j - a.len()].0);
        }
    }
}

pub proof fn lemma_lt_le<K: Ord>(a: K, b: K, c: K)
    requires
        total_order::<K>(),
        key_lt(a, b),
        key_le(b, c),
    ensures
        key_lt(a, c),
{
    if key_le(c, a) {
        assert(key_le(b, a));
    }
}

pub proof fn lemma_le_lt<K: Ord>(a: K, b: K, c: K)
    requires
        total_order::<K>(),
        key_le(a, b),
        key_lt(b, c),
    ensures
        key_lt(a, c),
{
    if key_le(c, a) {
        assert(key_le(c, b));
    }
}

/// The entries under an ordered node are sorted.
pub proof fn lemma_ordered_sorted<K: Ord, V>(node: Node<K, V>, h: nat)
    requires
        total_order::<K>(),
        node.shaped(h),
        node.ordered(),
    ensures
        sorted(node.entries()),
    decreases h, 0nat,
{
    match node {
        Node::Leaf { .. } => {},
        Node::Internal { keys, edges } => {
            assert(edges@.take(edges@.len() as int) =~= edges@);
            lemma_edges_sorted(keys@, edges@, edges@.len() as int, h);
        },
    }
}

proof fn lemma_edges_sorted<K: Ord, V>(
    keys: Seq<K>,
    edges: Seq<Box<Node<K, V>>>,
    n: int,
    h: nat,
)
    requires
        total_order::<K>(),
        h > 0,
        0 <= n <= edges.len(),
        edges.len() == keys.len() + 1,
        forall|i: int| 0 <= i < edges.len() ==> (#[trigger] edges[i]).full((h - 1) as nat),
        forall|i: int| 0 <= i < edges.len() ==> (#[trigger] edges[i]).ordered(),
        separated(keys, edges),
    ensures
        sorted(concat(edges.take(n))),
    decreases h - 1, n + 1,
{
    if n > 0 {
        let init = edges.take(n - 1);
        assert(edges.take(n).drop_last() =~= init);
        lemma_edges_sorted(keys, edges, n - 1, h);
        assert(edges[n - 1].full((h - 1) as nat));
        lemma_ordered_sorted(*edges[n - 1], (h - 1) as nat);
        if n > 1 {
            let key = keys[n - 2];
            assert forall|i: int| 0 <= i < init.len() implies all_lt(
                (#[trigger] init[i]).entries(),
                key,
            ) by {
                assert(within(edges[i].entries(), keys, i));
            }
            lemma_concat_all_lt(init, key);
            assert(within(edges[n - 1].entries(), keys, n - 1));
            lemma_sorted_add(concat(init), key, edges[n - 1].entries());
        } else {
            assert(concat(init) =~= Seq::<(K, V)>::empty());
            assert(concat(edges.take(n)) =~= edges[0].entries());
        }
    }
}

// Facts about `separated`, for each way in which edges and keys change.

/// An edge may hold any entries that belong in its gap.
pub proof fn lemma_separated_update<K: Ord, V>(
    keys: Seq<K>,
    edges: Seq<Box<Node<K, V>>>,
    i: int,
    node: Box<Node<K, V>>,
)
    requires
        separated(keys, edges),
        0 <= i < edges.len(),
        within(node.entries(), keys, i),
    ensures
        separated(keys, edges.update(i, node)),
{
    let edges2 = edges.update(i, node);
    assert forall|j: int| 0 <= j < edges2.len() implies within(
        (#[trigger] edges2[j]).entries(),
        keys,
        j,
    ) by {
        if j != i {
            assert(edges2[j] == edges[j]);
        }
    }
}

/// An edge may be split at a key that separates its entries.
pub proof fn lemma_separated_split<K: Ord, V>(
    keys: Seq<K>,
    edges: Seq<Box<Node<K, V>>>,
    i: int,
    left: Box<Node<K, V>>,
    key: K,
    right: Box<Node<K, V>>,
)
    requires
        total_order::<K>(),
        separated(keys, edges),
        0 <= i < edges.len(),
        edges.len() == keys.len() + 1,
        within(left.entries() + right.entries(), keys, i),
        left.entries().len() > 0,
        right.entries().len() > 0,
        all_lt(left.entries(), key),
        all_ge(right.entries(), key),
    ensures
        separated(keys.insert(i, key), edges.update(i, left).insert(i + 1, right)),
{
    let keys2 = keys.insert(i, key);
    let edges2 = edges.update(i, left).insert(i + 1, right);
    let both = left.entries() + right.entries();
    let l = left.entries();
    let r = right.entries();
    assert(both[0] == l[0]);
    assert(both[l.len() as int] == r[0]);
    assert forall|j: int| 0 <= j < i implies key_lt(#[trigger] keys[j], key) by {
        assert(all_ge(both, keys[j]));
        lemma_le_lt(keys[j], l[0].0, key);
    }
    assert forall|j: int| i <= j < keys.len() implies key_lt(key, #[trigger] keys[j]) by {
        assert(all_lt(both, keys[j]));
        lemma_le_lt(key, r[0].0, keys[j]);
    }
    assert forall|a: int, b: int|
        #![trigger keys2[a], keys2[b]]
        0 <= a < b < keys2.len() implies key_lt(keys2[a], keys2[b]) by {
        let a1 = if a < i { a } else { a - 1 };
        let b1 = if b < i { b } else { b - 1 };
        if a != i {
            assert(keys2[a] == keys[a1]);
        }
        if b != i {
            assert(keys2[b] == keys[b1]);
        }
    }
    assert forall|j: int| 0 <= j < edges2.len() implies within(
        (#[trigger] edges2[j]).entries(),
        keys2,
        j,
    ) by {
        let j1 = if j <= i { j } else { j - 1 };
        let s = edges2[j].entries();
        let s1 = if j == i || j == i + 1 { both } else { edges[j1].entries() };
        assert(within(s1, keys, j1));
        assert forall|p: int| 0 <= p < s.len() implies exists|q: int|
            0 <= q < s1.len() && s1[q] == #[trigger] s[p] by {
            if j == i + 1 {
                assert(s1[l.len() + p] == s[p]);
            } else {
                assert(s1[p] == s[p]);
            }
        }
        assert forall|c: int| 0 <= c < j && c < keys2.len() implies all_ge(
            s,
            #[trigger] keys2[c],
        ) by {
            if c < i {
                assert(keys2[c] == keys[c]);
            } else if c > i {
                assert(keys2[c] == keys[c - 1]);
            } else if j > i + 1 {
                assert(all_ge(s1, keys[i]));
                assert(key_lt(key, keys[i]));
                assert forall|p: int| 0 <= p < s.len() implies key_le(
                    key,
                    (#[trigger] s[p]).0,
                ) by {
                    lemma_lt_le(key, keys[i], s[p].0);
                }
            }
        }
        assert forall|c: int| j <= c < keys2.len() implies all_lt(s, #[trigger] keys2[c]) by {
            if c < i {
                assert(keys2[c] == keys[c]);
            } else if c > i {
                assert(keys2[c] == keys[c - 1]);
            } else if j < i {
                assert(all_lt(s1, keys[i - 1]));
                assert(key_lt(keys[i - 1], key));
                assert forall|p: int| 0 <= p < s.len() implies key_lt(
                    (#[trigger] s[p]).0,
                    key,
                ) by {
                    lemma_lt_le(s[p].0, keys[i - 1], key);
                }
            }
        }
    }
}

/// Two neighbouring edges may be merged and the key between them dropped.
pub proof fn lemma_separated_merge<K: Ord, V>(
    keys: Seq<K>,
    edges: Seq<Box<Node<K, V>>>,
    i: int,
    node: Box<Node<K, V>>,
)
    requires
        total_order::<K>(),
        separated(keys, edges),
        0 <= i < keys.len(),
        edges.len() == keys.len() + 1,
        node.entries() == edges[i].entries() + edges[i + 1].entries(),
    ensures
        separated(keys.remove(i), edges.update(i, node).remove(i + 1)),
        within(node.entries(), keys.remove(i), i),
{
    let keys2 = keys.remove(i);
    let edges2 = edges.update(i, node).remove(i + 1);
    assert forall|a: int, b: int|
        #![trigger keys2[a], keys2[b]]
        0 <= a < b < keys2.len() implies key_lt(keys2[a], keys2[b]) by {
        let a1 = if a < i { a } else { a + 1 };
        let b1 = if b < i { b } else { b + 1 };
        assert(keys2[a] == keys[a1] && keys2[b] == keys[b1]);
    }
    assert forall|j: int| 0 <= j < edges2.len() implies within(
        (#[trigger] edges2[j]).entries(),
        keys2,
        j,
    ) by {
        let j1 = if j <= i { j } else { j + 1 };
        assert(within(edges[j1].entries(), keys, j1));
        assert(within(edges[i + 1].entries(), keys, i + 1));
        let s = edges2[j].entries();
        let l = edges[i].entries();
        let r = edges[i + 1].entries();
        assert forall|c: int| 0 <= c < j && c < keys2.len() implies all_ge(
            s,
            #[trigger] keys2[c],
        ) by {
            let c1 = if c < i { c } else { c + 1 };
            assert(keys2[c] == keys[c1]);
            if j == i {
                assert(all_ge(l, keys[c1]) && all_ge(r, keys[c1]));
                assert forall|p: int| 0 <= p < s.len() implies key_le(
                    keys[c1],
                    (#[trigger] s[p]).0,
                ) by {
                    if p < l.len() {
                        assert(s[p] == l[p]);
                    } else {
                        assert(s[p] == r[p - l.len()]);
                    }
                }
            }
        }
        assert forall|c: int| j <= c < keys2.len() implies all_lt(s, #[trigger] keys2[c]) by {
            let c1 = if c < i { c } else { c + 1 };
            assert(keys2[c] == keys[c1]);
            if j == i {
                assert(all_lt(l, keys[c1]) && all_lt(r, keys[c1]));
                assert forall|p: int| 0 <= p < s.len() implies key_lt(
                    (#[trigger] s[p]).0,
                    keys[c1],
                ) by {
                    if p < l.len() {
                        assert(s[p] == l[p]);
                    } else {
                        assert(s[p] == r[p - l.len()]);
                    }
                }
            }
        }
    }
    assert(edges2[i] == node);
}

/// The keys and edges of an internal node may be divided at any key.
pub proof fn lemma_separated_divide<K: Ord, V>(
    keys: Seq<K>,
    edges: Seq<Box<Node<K, V>>>,
    m: int,
)
    requires
        total_order::<K>(),
        separated(keys, edges),
        0 <= m < keys.len(),
        edges.len() == keys.len() + 1,
    ensures
        separated(keys.take(m), edges.take(m + 1)),
        separated(keys.skip(m + 1), edges.skip(m + 1)),
        all_lt(concat(edges.take(m + 1)), keys[m]),
        all_ge(concat(edges.skip(m + 1)), keys[m]),
        concat(edges) == concat(edges.take(m + 1)) + concat(edges.skip(m + 1)),
{
    let lk = keys.take(m);
    let le = edges.take(m + 1);
    let rk = keys.skip(m + 1);
    let re = edges.skip(m + 1);
    assert forall|j: int| 0 <= j < le.len() implies within((#[trigger] le[j]).entries(), lk, j)
        && all_lt(le[j].entries(), keys[m]) by {
        assert(within(edges[j].entries(), keys, j));
        assert forall|c: int| 0 <= c < j && c < lk.len() implies all_ge(
            le[j].entries(),
            #[trigger] lk[c],
        ) by {
            assert(lk[c] == keys[c]);
        }
        assert forall|c: int| j <= c < lk.len() implies all_lt(
            le[j].entries(),
            #[trigger] lk[c],
        ) by {
            assert(lk[c] == keys[c]);
        }
    }
    assert forall|j: int| 0 <= j < re.len() implies within((#[trigger] re[j]).entries(), rk, j)
        && all_ge(re[j].entries(), keys[m]) by {
        assert(within(edges[j + m + 1].entries(), keys, j + m + 1));
        assert forall|c: int| 0 <= c < j && c < rk.len() implies all_ge(
            re[j].entries(),
            #[trigger] rk[c],
        ) by {
            assert(rk[c] == keys[c + m + 1]);
        }
        assert forall|c: int| j <= c < rk.len() implies all_lt(
            re[j].entries(),
            #[trigger] rk[c],
        ) by {
            assert(rk[c] == keys[c + m + 1]);
        }
    }
    lemma_concat_all_lt(le, keys[m]);
    lemma_concat_all_ge(re, keys[m]);
    assert(edges =~= le + re);
    lemma_concat_add(le, re);
}

/// Two internal nodes with a key between them may be joined.
pub proof fn lemma_separated_join<K: Ord, V>(
    lk: Seq<K>,
    le: Seq<Box<Node<K, V>>>,
    key: K,
    rk: Seq<K>,
    re: Seq<Box<Node<K, V>>>,
)
    requires
        total_order::<K>(),
        separated(lk, le),
        separated(rk, re),
        le.len() == lk.len() + 1,
        re.len() == rk.len() + 1,
        all_lt(concat(le), key),
        all_ge(concat(re), key),
        le.last().entries().len() > 0,
        re[0].entries().len() > 0,
    ensures
        separated(lk.push(key) + rk, le + re),
        concat(le + re) == concat(le) + concat(re),
{
    let keys = lk.push(key) + rk;
    let edges = le + re;
    lemma_concat_add(le, re);
    let m = lk.len() as int;
    // The separating key lies strictly between the keys of the two nodes.
    assert forall|i: int| 0 <= i < le.len() implies all_lt((#[trigger] le[i]).entries(), key) by {
        lemma_concat_at(le, i);
        let s = le[i].entries();
        assert forall|p: int| 0 <= p < s.len() implies key_lt((#[trigger] s[p]).0, key) by {
            assert(concat(le)[concat(le.take(i)).len() + p] == s[p]);
        }
    }
    assert forall|i: int| 0 <= i < re.len() implies all_ge((#[trigger] re[i]).entries(), key) by {
        lemma_concat_at(re, i);
        let s = re[i].entries();
        assert forall|p: int| 0 <= p < s.len() implies key_le(key, (#[trigger] s[p]).0) by {
            assert(concat(re)[concat(re.take(i)).len() + p] == s[p]);
        }
    }
    assert forall|j: int| 0 <= j < lk.len() implies key_lt(#[trigger] lk[j], key) by {
        assert(within(le[m].entries(), lk, m));
        assert(all_ge(le[m].entries(), lk[j]));
        lemma_le_lt(lk[j], le[m].entries()[0].0, key);
    }
    assert forall|j: int| 0 <= j < rk.len() implies key_lt(key, #[trigger] rk[j]) by {
        assert(within(re[0].entries(), rk, 0));
        assert(all_lt(re[0].entries(), rk[j]));
        lemma_le_lt(key, re[0].entries()[0].0, rk[j]);
    }
    assert forall|a: int, b: int|
        #![trigger keys[a], keys[b]]
        0 <= a < b < keys.len() implies key_lt(keys[a], keys[b]) by {
        if b < m {
            assert(keys[a] == lk[a] && keys[b] == lk[b]);
        } else if b == m {
            assert(keys[a] == lk[a] && keys[b] == key);
        } else {
            assert(keys[b] == rk[b - m - 1]);
            if a < m {
                assert(keys[a] == lk[a]);
                lemma_lt_le(lk[a], key, rk[b - m - 1]);
            } else if a > m {
                assert(keys[a] == rk[a - m - 1]);
            }
        }
    }
    assert forall|j: int| 0 <= j < edges.len() implies within(
        (#[trigger] edges[j]).entries(),
        keys,
        j,
    ) by {
        let s = edges[j].entries();
        if j <= m {
            assert(edges[j] == le[j]);
            assert(within(le[j].entries(), lk, j));
            assert(all_lt(le[j].entries(), key));
        } else {
            assert(edges[j] == re[j - m - 1]);
            assert(within(re[j - m - 1].entries(), rk, j - m - 1));
            assert(all_ge(re[j - m - 1].entries(), key));
        }
        assert forall|c: int| 0 <= c < j && c < keys.len() implies all_ge(
            s,
            #[trigger] keys[c],
        ) by {
            if c < m {
                assert(keys[c] == lk[c]);
                if j > m {
                    assert(key_lt(lk[c], key));
                    assert forall|p: int| 0 <= p < s.len() implies key_le(
                        lk[c],
                        (#[trigger] s[p]).0,
                    ) by {
                        lemma_lt_le(lk[c], key, s[p].0);
                    }
                }
            } else if c > m {
                assert(keys[c] == rk[c - m - 1]);
            }
        }
        assert forall|c: int| j <= c < keys.len() implies all_lt(s, #[trigger] keys[c]) by {
            if c < m {
                assert(keys[c] == lk[c]);
            } else if c > m {
                assert(keys[c] == rk[c - m - 1]);
                if j <= m {
                    assert forall|p: int| 0 <= p < s.len() implies key_lt(
                        (#[trigger] s[p]).0,
                        rk[c - m - 1],
                    ) by {
                        lemma_lt_le(s[p].0, key, rk[c - m - 1]);
                    }
                }
            }
        }
    }
}

} // verus!
