//! Comparing maps: entry by entry, in the order of their keys.

use crate::map::BTreeMap;
use crate::node::{concat, Node};
use crate::order::{key_le, key_lt, lemma_lawful_total_order};
use core::cmp::Ordering;
use vstd::prelude::*;
use vstd::std_specs::cmp::{
    OrdSpec, PartialEqSpec, PartialEqSpecImpl, PartialOrdSpec, PartialOrdSpecImpl,
};

verus! {

/// The entries are equal one by one.
pub open spec fn same_entries<K: PartialEq, V: PartialEq>(
    a: Seq<(K, V)>,
    b: Seq<(K, V)>,
) -> bool {
    &&& a.len() == b.len()
    &&& forall|i: int|
        #![trigger a[i], b[i]]
        0 <= i < a.len() ==> a[i].0.eq_spec(&b[i].0) && a[i].1.eq_spec(&b[i].1)
}

/// Two entries compared by their keys, then by their values, where not all can be compared.
pub open spec fn entry_partial_order<K: PartialOrd, V: PartialOrd>(
    a: (K, V),
    b: (K, V),
) -> Option<Ordering> {
    match a.0.partial_cmp_spec(&b.0) {
        Some(Ordering::Equal) => a.1.partial_cmp_spec(&b.1),
        order => order,
    }
}

/// The entries compared one by one up to the first difference, where not all can be compared.
pub open spec fn partial_order<K: PartialOrd, V: PartialOrd>(
    a: Seq<(K, V)>,
    b: Seq<(K, V)>,
) -> Option<Ordering>
    decreases a.len(),
{
    if a.len() == 0 {
        if b.len() == 0 {
            Some(Ordering::Equal)
        } else {
            Some(Ordering::Less)
        }
    } else if b.len() == 0 {
        Some(Ordering::Greater)
    } else {
        match entry_partial_order(a[0], b[0]) {
            Some(Ordering::Equal) => partial_order(a.drop_first(), b.drop_first()),
            order => order,
        }
    }
}

/// Two entries compared by their keys, then by their values.
pub open spec fn entry_order<K: Ord, V: Ord>(a: (K, V), b: (K, V)) -> Ordering {
    match a.0.cmp_spec(&b.0) {
        Ordering::Equal => a.1.cmp_spec(&b.1),
        order => order,
    }
}

/// The entries compared one by one up to the first difference.
pub open spec fn order<K: Ord, V: Ord>(a: Seq<(K, V)>, b: Seq<(K, V)>) -> Ordering
    decreases a.len(),
{
    if a.len() == 0 {
        if b.len() == 0 {
            Ordering::Equal
        } else {
            Ordering::Less
        }
    } else if b.len() == 0 {
        Ordering::Greater
    } else {
        match entry_order(a[0], b[0]) {
            Ordering::Equal => order(a.drop_first(), b.drop_first()),
            order => order,
        }
    }
}

/// Where keys and values are ordered lawfully, all maps can be compared, and the two ways of
/// comparing agree. Maps that compare equal are those that are equal.
pub proof fn law_compare<K: Ord, V: Ord>(a: Seq<(K, V)>, b: Seq<(K, V)>)
    requires
        vstd::laws_cmp::obeys_cmp::<K>(),
        vstd::laws_cmp::obeys_cmp::<V>(),
    ensures
        partial_order(a, b) == Some(order(a, b)),
        order(a, b) == Ordering::Equal <==> same_entries(a, b),
    decreases a.len(),
{
    reveal(vstd::laws_cmp::obeys_cmp_ord);
    reveal(vstd::laws_cmp::obeys_cmp_partial_ord);
    reveal(vstd::laws_cmp::obeys_partial_cmp_spec_properties);
    if a.len() > 0 && b.len() > 0 {
        let (a1, b1) = (a.drop_first(), b.drop_first());
        law_compare(a1, b1);
        assert(a[0].0.partial_cmp_spec(&b[0].0) == Some(a[0].0.cmp_spec(&b[0].0)));
        assert(a[0].1.partial_cmp_spec(&b[0].1) == Some(a[0].1.cmp_spec(&b[0].1)));
        if same_entries(a, b) {
            assert forall|i: int|
                #![trigger a1[i], b1[i]]
                0 <= i < a1.len() implies a1[i].0.eq_spec(&b1[i].0) && a1[i].1.eq_spec(
                &b1[i].1,
            ) by {
                assert(a1[i] == a[i + 1] && b1[i] == b[i + 1]);
            }
        }
        if entry_order(a[0], b[0]) == Ordering::Equal && same_entries(a1, b1) {
            assert forall|i: int|
                #![trigger a[i], b[i]]
                0 <= i < a.len() implies a[i].0.eq_spec(&b[i].0) && a[i].1.eq_spec(&b[i].1) by {
                if i > 0 {
                    assert(a1[i - 1] == a[i] && b1[i - 1] == b[i]);
                }
            }
        }
    }
}

/// Comparing goes up to the first place at which the maps differ. There the keys decide, whatever
/// the values are, and only between equal keys do the values. If one map ends where they do not
/// differ yet, it comes first.
pub proof fn law_compare_first_difference<K: Ord, V: Ord>(
    a: Seq<(K, V)>,
    b: Seq<(K, V)>,
    n: int,
)
    requires
        0 <= n <= a.len(),
        n <= b.len(),
        forall|i: int|
            #![trigger a[i], b[i]]
            0 <= i < n ==> a[i].0.cmp_spec(&b[i].0) == Ordering::Equal && a[i].1.cmp_spec(&b[i].1)
                == Ordering::Equal,
    ensures
        n == a.len() && n == b.len() ==> order(a, b) == Ordering::Equal,
        n == a.len() && n < b.len() ==> order(a, b) == Ordering::Less,
        n < a.len() && n == b.len() ==> order(a, b) == Ordering::Greater,
        n < a.len() && n < b.len() ==> {
            let keys = a[n].0.cmp_spec(&b[n].0);
            let values = a[n].1.cmp_spec(&b[n].1);
            &&& keys == Ordering::Less ==> order(a, b) == Ordering::Less
            &&& keys == Ordering::Greater ==> order(a, b) == Ordering::Greater
            &&& keys == Ordering::Equal && values == Ordering::Less ==> order(a, b)
                == Ordering::Less
            &&& keys == Ordering::Equal && values == Ordering::Greater ==> order(a, b)
                == Ordering::Greater
        },
    decreases n,
{
    if n > 0 {
        let (a1, b1) = (a.drop_first(), b.drop_first());
        assert(a[0].0.cmp_spec(&b[0].0) == Ordering::Equal);
        assert forall|i: int|
            #![trigger a1[i], b1[i]]
            0 <= i < n - 1 implies a1[i].0.cmp_spec(&b1[i].0) == Ordering::Equal
            && a1[i].1.cmp_spec(&b1[i].1) == Ordering::Equal by {
            assert(a1[i] == a[i + 1] && b1[i] == b[i + 1]);
        }
        law_compare_first_difference(a1, b1, n - 1);
    }
}

/// The same where not all keys or values can be compared. If those that decide cannot be, neither
/// can the maps.
pub proof fn law_partial_compare_first_difference<K: PartialOrd, V: PartialOrd>(
    a: Seq<(K, V)>,
    b: Seq<(K, V)>,
    n: int,
)
    requires
        0 <= n <= a.len(),
        n <= b.len(),
        forall|i: int|
            #![trigger a[i], b[i]]
            0 <= i < n ==> a[i].0.partial_cmp_spec(&b[i].0) == Some(Ordering::Equal)
                && a[i].1.partial_cmp_spec(&b[i].1) == Some(Ordering::Equal),
    ensures
        n == a.len() && n == b.len() ==> partial_order(a, b) == Some(Ordering::Equal),
        n == a.len() && n < b.len() ==> partial_order(a, b) == Some(Ordering::Less),
        n < a.len() && n == b.len() ==> partial_order(a, b) == Some(Ordering::Greater),
        n < a.len() && n < b.len() ==> {
            let keys = a[n].0.partial_cmp_spec(&b[n].0);
            let values = a[n].1.partial_cmp_spec(&b[n].1);
            &&& keys != Some(Ordering::Equal) ==> partial_order(a, b) == keys
            &&& keys == Some(Ordering::Equal) && values != Some(Ordering::Equal)
                ==> partial_order(a, b) == values
        },
    decreases n,
{
    if n > 0 {
        let (a1, b1) = (a.drop_first(), b.drop_first());
        assert(a[0].0.partial_cmp_spec(&b[0].0) == Some(Ordering::Equal));
        assert forall|i: int|
            #![trigger a1[i], b1[i]]
            0 <= i < n - 1 implies a1[i].0.partial_cmp_spec(&b1[i].0) == Some(Ordering::Equal)
            && a1[i].1.partial_cmp_spec(&b1[i].1) == Some(Ordering::Equal) by {
            assert(a1[i] == a[i + 1] && b1[i] == b[i + 1]);
        }
        law_partial_compare_first_difference(a1, b1, n - 1);
    }
}

/// The first place at which two sequences of entries differ, or at which one of them ends.
proof fn lemma_first_difference<K: Ord, V: Ord>(a: Seq<(K, V)>, b: Seq<(K, V)>) -> (n: int)
    ensures
        0 <= n <= a.len(),
        n <= b.len(),
        forall|i: int|
            #![trigger a[i], b[i]]
            0 <= i < n ==> a[i].0.cmp_spec(&b[i].0) == Ordering::Equal && a[i].1.cmp_spec(&b[i].1)
                == Ordering::Equal,
        n < a.len() && n < b.len() ==> a[n].0.cmp_spec(&b[n].0) != Ordering::Equal
            || a[n].1.cmp_spec(&b[n].1) != Ordering::Equal,
    decreases a.len(),
{
    if a.len() == 0 || b.len() == 0 || a[0].0.cmp_spec(&b[0].0) != Ordering::Equal
        || a[0].1.cmp_spec(&b[0].1) != Ordering::Equal {
        0
    } else {
        let (a1, b1) = (a.drop_first(), b.drop_first());
        let n = lemma_first_difference(a1, b1);
        assert forall|i: int|
            #![trigger a[i], b[i]]
            0 <= i < n + 1 implies a[i].0.cmp_spec(&b[i].0) == Ordering::Equal
            && a[i].1.cmp_spec(&b[i].1) == Ordering::Equal by {
            if i > 0 {
                assert(a1[i - 1] == a[i] && b1[i - 1] == b[i]);
            }
        }
        n + 1
    }
}

/// Comparing the other way round turns the result round.
pub proof fn law_compare_swapped<K: Ord, V: Ord>(a: Seq<(K, V)>, b: Seq<(K, V)>)
    requires
        vstd::laws_cmp::obeys_cmp::<K>(),
        vstd::laws_cmp::obeys_cmp::<V>(),
    ensures
        order(a, b) == Ordering::Less <==> order(b, a) == Ordering::Greater,
        order(a, b) == Ordering::Equal <==> order(b, a) == Ordering::Equal,
{
    let n = lemma_first_difference(a, b);
    lemma_cmp_swapped::<K>();
    lemma_cmp_swapped::<V>();
    law_compare_first_difference(a, b, n);
    law_compare_first_difference(b, a, n);
}

proof fn lemma_cmp_swapped<T: Ord>()
    requires
        vstd::laws_cmp::obeys_cmp::<T>(),
    ensures
        forall|x: T, y: T|
            #![trigger x.cmp_spec(&y)]
            {
                &&& x.cmp_spec(&y) == Ordering::Less <==> y.cmp_spec(&x) == Ordering::Greater
                &&& x.cmp_spec(&y) == Ordering::Equal <==> y.cmp_spec(&x) == Ordering::Equal
            },
{
    lemma_lawful_total_order::<T>();
    assert forall|x: T, y: T| #![trigger x.cmp_spec(&y)] {
        &&& x.cmp_spec(&y) == Ordering::Less <==> y.cmp_spec(&x) == Ordering::Greater
        &&& x.cmp_spec(&y) == Ordering::Equal <==> y.cmp_spec(&x) == Ordering::Equal
    } by {
        assert(key_lt(x, y) <==> !key_le(y, x));
        assert(key_lt(y, x) <==> !key_le(x, y));
    }
}

/// Collects the entries under a node.
fn gather_node<'a, K, V>(node: &'a Node<K, V>, out: &mut Vec<&'a (K, V)>)
    ensures
        final(out)@.unref() == old(out)@.unref() + node.entries(),
    decreases node,
{
    match node {
        Node::Leaf { entries } => {
            gather_entries(entries, out);
        },
        Node::Internal { edges, .. } => {
            gather_edges(edges, out);
        },
    }
}

/// Collects the entries of a leaf.
fn gather_entries<'a, K, V>(entries: &'a Vec<(K, V)>, out: &mut Vec<&'a (K, V)>)
    ensures
        final(out)@.unref() == old(out)@.unref() + entries@,
{
    let ghost had = out@.unref();
    let mut i: usize = 0;
    assert(had + entries@.take(0) =~= had);
    while i < entries.len()
        invariant
            i <= entries@.len(),
            out@.unref() == had + entries@.take(i as int),
        decreases entries@.len() - i,
    {
        let ghost before = out@;
        out.push(&entries[i]);
        proof {
            assert(out@.unref() =~= before.unref().push(entries@[i as int]));
            assert(had + entries@.take(i + 1) =~= (had + entries@.take(i as int)).push(
                entries@[i as int],
            ));
        }
        i += 1;
    }
    assert(entries@.take(entries@.len() as int) =~= entries@);
}

/// Collects the entries under the edges of a node.
fn gather_edges<'a, K, V>(edges: &'a Vec<Box<Node<K, V>>>, out: &mut Vec<&'a (K, V)>)
    ensures
        final(out)@.unref() == old(out)@.unref() + concat(edges@),
    decreases edges@,
{
    let ghost had = out@.unref();
    let mut i: usize = 0;
    assert(had + concat(edges@.take(0)) =~= had);
    while i < edges.len()
        invariant
            i <= edges@.len(),
            out@.unref() == had + concat(edges@.take(i as int)),
        decreases edges@.len() - i,
    {
        gather_node(&edges[i], out);
        proof {
            assert(edges@.take(i + 1).drop_last() =~= edges@.take(i as int));
            assert(had + concat(edges@.take(i + 1)) =~= had + concat(edges@.take(i as int))
                + edges@[i as int].entries());
        }
        i += 1;
    }
    assert(edges@.take(edges@.len() as int) =~= edges@);
}

/// The entries under a node, which nothing is assumed of.
pub(crate) fn gather<'a, K, V>(root: Option<&'a Node<K, V>>) -> (entries: Vec<&'a (K, V)>)
    ensures
        entries@.unref() == match root {
            Some(root) => root.entries(),
            None => Seq::empty(),
        },
{
    let mut entries: Vec<&'a (K, V)> = Vec::new();
    if let Some(root) = root {
        gather_node(root, &mut entries);
    }
    assert(entries@.unref() =~= match root {
        Some(root) => root.entries(),
        None => Seq::empty(),
    });
    entries
}

impl<'store, K: PartialEq, V: PartialEq> PartialEq for BTreeMap<'store, K, V> {
    fn eq(&self, other: &Self) -> (r: bool) {
        let a = self.entries();
        let b = other.entries();
        if a.len() != b.len() {
            return false;
        }
        let ghost obeys = K::obeys_eq_spec() && V::obeys_eq_spec();
        let ghost (x, y) = (self@, other@);
        let mut i: usize = 0;
        while i < a.len()
            invariant
                i <= a@.len(),
                a@.len() == b@.len(),
                a@.unref() == x,
                b@.unref() == y,
                x == self@,
                y == other@,
                obeys == (K::obeys_eq_spec() && V::obeys_eq_spec()),
                obeys ==> forall|j: int|
                    #![trigger x[j], y[j]]
                    0 <= j < i ==> x[j].0.eq_spec(&y[j].0) && x[j].1.eq_spec(&y[j].1),
            decreases a@.len() - i,
        {
            proof {
                assert(x[i as int] == *a@[i as int] && y[i as int] == *b@[i as int]);
            }
            if !(a[i].0.eq(&b[i].0) && a[i].1.eq(&b[i].1)) {
                return false;
            }
            i += 1;
        }
        true
    }
}

impl<'store, K: PartialEq, V: PartialEq> PartialEqSpecImpl for BTreeMap<'store, K, V> {
    open spec fn obeys_eq_spec() -> bool {
        K::obeys_eq_spec() && V::obeys_eq_spec()
    }

    open spec fn eq_spec(&self, other: &Self) -> bool {
        same_entries(self@, other@)
    }
}

impl<'store, K: Eq, V: Eq> Eq for BTreeMap<'store, K, V> {

}

impl<'store, K: PartialOrd, V: PartialOrd> PartialOrd for BTreeMap<'store, K, V> {
    fn partial_cmp(&self, other: &Self) -> (r: Option<Ordering>) {
        let a = self.entries();
        let b = other.entries();
        let ghost obeys = K::obeys_partial_cmp_spec() && V::obeys_partial_cmp_spec();
        let ghost (x, y) = (self@, other@);
        let mut i: usize = 0;
        assert(x.skip(0) =~= x && y.skip(0) =~= y);
        while i < a.len() && i < b.len()
            invariant
                i <= a@.len(),
                i <= b@.len(),
                a@.unref() == x,
                b@.unref() == y,
                x == self@,
                y == other@,
                obeys == (K::obeys_partial_cmp_spec() && V::obeys_partial_cmp_spec()),
                obeys ==> partial_order(x, y) == partial_order(x.skip(i + 0), y.skip(i + 0)),
            decreases a@.len() - i,
        {
            proof {
                assert(x.skip(i + 0)[0] == *a@[i + 0] && y.skip(i + 0)[0] == *b@[i + 0]);
                assert(x.skip(i + 0).drop_first() =~= x.skip(i + 1));
                assert(y.skip(i + 0).drop_first() =~= y.skip(i + 1));
            }
            match a[i].0.partial_cmp(&b[i].0) {
                Some(Ordering::Equal) => {},
                order => {
                    return order;
                },
            }
            match a[i].1.partial_cmp(&b[i].1) {
                Some(Ordering::Equal) => {},
                order => {
                    return order;
                },
            }
            i += 1;
        }
        if i < a.len() {
            Some(Ordering::Greater)
        } else if i < b.len() {
            Some(Ordering::Less)
        } else {
            Some(Ordering::Equal)
        }
    }
}

impl<'store, K: PartialOrd, V: PartialOrd> PartialOrdSpecImpl for BTreeMap<'store, K, V> {
    open spec fn obeys_partial_cmp_spec() -> bool {
        K::obeys_partial_cmp_spec() && V::obeys_partial_cmp_spec()
    }

    open spec fn partial_cmp_spec(&self, other: &Self) -> Option<Ordering> {
        partial_order(self@, other@)
    }
}

impl<'store, K: Ord, V: Ord> BTreeMap<'store, K, V> {
    /// Compares the maps entry by entry.
    pub fn cmp(&self, other: &Self) -> (r: Ordering)
        ensures
            K::obeys_cmp_spec() && V::obeys_cmp_spec() ==> r == order(self@, other@),
    {
        let a = self.entries();
        let b = other.entries();
        let ghost obeys = K::obeys_cmp_spec() && V::obeys_cmp_spec();
        let ghost (x, y) = (self@, other@);
        let mut i: usize = 0;
        assert(x.skip(0) =~= x && y.skip(0) =~= y);
        while i < a.len() && i < b.len()
            invariant
                i <= a@.len(),
                i <= b@.len(),
                a@.unref() == x,
                b@.unref() == y,
                x == self@,
                y == other@,
                obeys == (K::obeys_cmp_spec() && V::obeys_cmp_spec()),
                obeys ==> order(x, y) == order(x.skip(i + 0), y.skip(i + 0)),
            decreases a@.len() - i,
        {
            proof {
                assert(x.skip(i + 0)[0] == *a@[i + 0] && y.skip(i + 0)[0] == *b@[i + 0]);
                assert(x.skip(i + 0).drop_first() =~= x.skip(i + 1));
                assert(y.skip(i + 0).drop_first() =~= y.skip(i + 1));
            }
            match a[i].0.cmp(&b[i].0) {
                Ordering::Equal => {},
                order => {
                    return order;
                },
            }
            match a[i].1.cmp(&b[i].1) {
                Ordering::Equal => {},
                order => {
                    return order;
                },
            }
            i += 1;
        }
        if i < a.len() {
            Ordering::Greater
        } else if i < b.len() {
            Ordering::Less
        } else {
            Ordering::Equal
        }
    }
}

/// What comparing two maps comes to: the first place at which they differ decides, there the keys
/// and only between equal keys the values. A map that ends before that comes first.
pub proof fn law_compare_maps<'store, K: Ord, V: Ord>(
    a: BTreeMap<'store, K, V>,
    b: BTreeMap<'store, K, V>,
    n: int,
    r: Ordering,
)
    requires
        K::obeys_cmp_spec(),
        V::obeys_cmp_spec(),
        call_ensures(BTreeMap::<'store, K, V>::cmp, (&a, &b), r),
        0 <= n <= a@.len(),
        n <= b@.len(),
        forall|i: int|
            #![trigger a@[i], b@[i]]
            0 <= i < n ==> a@[i].0.cmp_spec(&b@[i].0) == Ordering::Equal && a@[i].1.cmp_spec(
                &b@[i].1,
            ) == Ordering::Equal,
    ensures
        n == a@.len() && n == b@.len() ==> r == Ordering::Equal,
        n == a@.len() && n < b@.len() ==> r == Ordering::Less,
        n < a@.len() && n == b@.len() ==> r == Ordering::Greater,
        n < a@.len() && n < b@.len() ==> {
            let keys = a@[n].0.cmp_spec(&b@[n].0);
            let values = a@[n].1.cmp_spec(&b@[n].1);
            &&& keys == Ordering::Less ==> r == Ordering::Less
            &&& keys == Ordering::Greater ==> r == Ordering::Greater
            &&& keys == Ordering::Equal && values == Ordering::Less ==> r == Ordering::Less
            &&& keys == Ordering::Equal && values == Ordering::Greater ==> r == Ordering::Greater
        },
{
    law_compare_first_difference(a@, b@, n);
}

/// The same of maps of which not all keys or values can be compared: if those that decide cannot
/// be, neither can the maps.
pub proof fn law_partial_compare_maps<'store, K: PartialOrd, V: PartialOrd>(
    a: BTreeMap<'store, K, V>,
    b: BTreeMap<'store, K, V>,
    n: int,
)
    requires
        0 <= n <= a@.len(),
        n <= b@.len(),
        forall|i: int|
            #![trigger a@[i], b@[i]]
            0 <= i < n ==> a@[i].0.partial_cmp_spec(&b@[i].0) == Some(Ordering::Equal)
                && a@[i].1.partial_cmp_spec(&b@[i].1) == Some(Ordering::Equal),
    ensures
        n == a@.len() && n == b@.len() ==> PartialOrdSpec::partial_cmp_spec(&a, &b) == Some(
            Ordering::Equal,
        ),
        n == a@.len() && n < b@.len() ==> PartialOrdSpec::partial_cmp_spec(&a, &b) == Some(
            Ordering::Less,
        ),
        n < a@.len() && n == b@.len() ==> PartialOrdSpec::partial_cmp_spec(&a, &b) == Some(
            Ordering::Greater,
        ),
        n < a@.len() && n < b@.len() ==> {
            let keys = a@[n].0.partial_cmp_spec(&b@[n].0);
            let values = a@[n].1.partial_cmp_spec(&b@[n].1);
            &&& keys != Some(Ordering::Equal) ==> PartialOrdSpec::partial_cmp_spec(&a, &b) == keys
            &&& keys == Some(Ordering::Equal) && values != Some(Ordering::Equal)
                ==> PartialOrdSpec::partial_cmp_spec(&a, &b) == values
        },
{
    law_partial_compare_first_difference(a@, b@, n);
}

} // verus!
