//! The order on keys: what the map assumes of a key type, and three-way comparison.

use core::cmp::Ordering;
use vstd::prelude::*;
use vstd::std_specs::cmp::{OrdSpec, PartialEqSpec, PartialOrdSpec};

verus! {

/// `a` comes strictly before `b`.
pub open spec fn key_lt<K: Ord>(a: K, b: K) -> bool {
    a.cmp_spec(&b) == Ordering::Less
}

/// `a` comes before `b` or the two are equivalent.
pub open spec fn key_le<K: Ord>(a: K, b: K) -> bool {
    a.cmp_spec(&b) != Ordering::Greater
}

/// `a` and `b` are equivalent: neither comes before the other.
///
/// Equivalent keys need not be equal values; a map holds at most one key of each class.
pub open spec fn key_eq<K: Ord>(a: K, b: K) -> bool {
    a.cmp_spec(&b) == Ordering::Equal
}

/// The `Ord` implementation of `K` computes a fixed relation.
pub open spec fn fixed_order<K: Ord>() -> bool {
    K::obeys_cmp_spec()
}

/// The `Ord` implementation of `K` computes a fixed total order (up to equivalence).
pub open spec fn total_order<K: Ord>() -> bool {
    &&& fixed_order::<K>()
    &&& forall|x: K, y: K|
        #![trigger key_lt(x, y)]
        #![trigger key_le(y, x)]
        key_lt(x, y) <==> !key_le(y, x)
    &&& forall|x: K, y: K, z: K|
        #![trigger key_le(x, y), key_le(y, z)]
        key_le(x, y) && key_le(y, z) ==> key_le(x, z)
}

/// Cloning a key yields an equivalent key.
pub open spec fn clone_keeps_order<K: Ord + Clone>() -> bool {
    forall|a: K, b: K| #[trigger] call_ensures(K::clone, (&a,), b) ==> key_eq(a, b)
}

/// What a map needs of its key type to hold entries: a total order that cloning respects.
pub open spec fn key_model<K: Ord + Clone>() -> bool {
    total_order::<K>() && clone_keeps_order::<K>()
}

/// Every type that follows the comparison laws of the standard library has a total order.
pub proof fn lemma_lawful_total_order<K: Ord>()
    requires
        vstd::laws_cmp::obeys_cmp::<K>(),
    ensures
        total_order::<K>(),
{
    reveal(vstd::laws_cmp::obeys_cmp_ord);
    reveal(vstd::laws_cmp::obeys_cmp_partial_ord);
    reveal(vstd::laws_cmp::obeys_partial_cmp_spec_properties);
    reveal(vstd::laws_eq::obeys_eq_spec_properties);
    assert forall|x: K, y: K|
        #![trigger key_lt(x, y)]
        #![trigger key_le(y, x)]
        key_lt(x, y) <==> !key_le(y, x) by {
        assert(x.partial_cmp_spec(&y) == Some(x.cmp_spec(&y)));
        assert(y.partial_cmp_spec(&x) == Some(y.cmp_spec(&x)));
    }
    assert forall|x: K, y: K, z: K|
        #![trigger key_le(x, y), key_le(y, z)]
        key_le(x, y) && key_le(y, z) implies key_le(x, z) by {
        assert(x.partial_cmp_spec(&y) == Some(x.cmp_spec(&y)));
        assert(y.partial_cmp_spec(&x) == Some(y.cmp_spec(&x)));
        assert(y.partial_cmp_spec(&z) == Some(y.cmp_spec(&z)));
        assert(z.partial_cmp_spec(&y) == Some(z.cmp_spec(&y)));
        assert(x.partial_cmp_spec(&z) == Some(x.cmp_spec(&z)));
        assert(z.partial_cmp_spec(&x) == Some(z.cmp_spec(&x)));
    }
}

/// How a key relates to another one, or to what is looked for.
pub enum Relation {
    Before,
    Same,
    After,
}

/// What a key can be looked up by: a key of the same type, or something else that tells of every
/// key whether it comes before what is looked for, after it, or is it.
pub trait Probe<K> {
    /// The implementation computes `relation`.
    spec fn obeys_relation() -> bool;

    /// How `key` relates to what is looked for.
    spec fn relation(&self, key: K) -> Relation;

    /// Tells how `key` relates to what is looked for.
    fn relate_key(&self, key: &K) -> (r: Relation)
        ensures
            Self::obeys_relation() ==> r == self.relation(*key),
    ;
}

impl<K: Ord> Probe<K> for K {
    open spec fn obeys_relation() -> bool {
        fixed_order::<K>()
    }

    open spec fn relation(&self, key: K) -> Relation {
        if key_lt(key, *self) {
            Relation::Before
        } else if key_eq(key, *self) {
            Relation::Same
        } else {
            Relation::After
        }
    }

    fn relate_key(&self, key: &K) -> (r: Relation) {
        match key.cmp(self) {
            Ordering::Less => Relation::Before,
            Ordering::Equal => Relation::Same,
            Ordering::Greater => Relation::After,
        }
    }
}

/// `key` comes before what `probe` looks for.
pub open spec fn is_before<K, Q: Probe<K>>(key: K, probe: Q) -> bool {
    probe.relation(key) is Before
}

/// `key` is what `probe` looks for.
pub open spec fn is_sought<K, Q: Probe<K>>(key: K, probe: Q) -> bool {
    probe.relation(key) is Same
}

/// `key` comes after what `probe` looks for.
pub open spec fn is_after<K, Q: Probe<K>>(key: K, probe: Q) -> bool {
    probe.relation(key) is After
}

/// What `probe` says of keys agrees with their order, and what it looks for is at most one key
/// (up to equivalence).
pub open spec fn lawful_probe<K: Ord, Q: Probe<K>>(probe: Q) -> bool {
    &&& Q::obeys_relation()
    &&& forall|a: K, b: K|
        #![trigger is_before(a, probe), is_before(b, probe)]
        key_le(a, b) && is_before(b, probe) ==> is_before(a, probe)
    &&& forall|a: K, b: K|
        #![trigger is_after(a, probe), is_after(b, probe)]
        key_le(a, b) && is_after(a, probe) ==> is_after(b, probe)
    &&& forall|a: K, b: K|
        #![trigger is_sought(a, probe), is_sought(b, probe)]
        is_sought(a, probe) && is_sought(b, probe) ==> key_eq(a, b)
}

/// A key is a probe for itself and its equivalents.
pub proof fn lemma_key_probe<K: Ord>(key: K)
    requires
        total_order::<K>(),
    ensures
        lawful_probe::<K, K>(key),
        forall|k: K| #[trigger] is_before(k, key) <==> key_lt(k, key),
        forall|k: K| #[trigger] is_sought(k, key) <==> key_eq(k, key),
        forall|k: K| #[trigger] is_after(k, key) <==> key_lt(key, k),
{
    assert forall|a: K, b: K|
        #![trigger is_before(a, key), is_before(b, key)]
        key_le(a, b) && is_before(b, key) implies is_before(a, key) by {
        if !key_lt(a, key) {
            assert(key_le(key, a));
            assert(key_le(key, b));
        }
    }
    assert forall|a: K, b: K|
        #![trigger is_after(a, key), is_after(b, key)]
        key_le(a, b) && is_after(a, key) implies is_after(b, key) by {
        assert(!key_le(a, key));
        if key_le(b, key) {
            assert(key_le(a, key));
        }
    }
    assert forall|a: K, b: K|
        #![trigger is_sought(a, key), is_sought(b, key)]
        is_sought(a, key) && is_sought(b, key) implies key_eq(a, b) by {
        assert(key_lt(a, key) <==> !key_le(key, a));
        assert(key_lt(b, key) <==> !key_le(key, b));
        assert(key_le(a, key) && key_le(key, b));
        assert(key_le(b, key) && key_le(key, a));
        assert(key_lt(a, b) <==> !key_le(b, a));
    }
    assert forall|k: K| #[trigger] is_after(k, key) <==> key_lt(key, k) by {
        assert(key_lt(key, k) <==> !key_le(k, key));
    }
}

/// What comes before a key that is not beyond what is looked for comes before it too.
pub proof fn lemma_before<K: Ord, Q: Probe<K>>(a: K, b: K, probe: Q)
    requires
        total_order::<K>(),
        lawful_probe(probe),
        key_lt(a, b),
        !is_after(b, probe),
    ensures
        is_before(a, probe),
{
    assert(key_le(a, b)) by {
        assert(key_lt(a, b) <==> !key_le(b, a));
    }
    if is_after(a, probe) {
        assert(is_after(b, probe));
    }
    if is_sought(a, probe) {
        if is_before(b, probe) {
            assert(is_before(a, probe));
        } else {
            assert(is_sought(b, probe));
        }
    }
}

/// What comes after a key that is not short of what is looked for comes after it too.
pub proof fn lemma_after<K: Ord, Q: Probe<K>>(a: K, b: K, probe: Q)
    requires
        total_order::<K>(),
        lawful_probe(probe),
        key_lt(a, b),
        !is_before(a, probe),
    ensures
        is_after(b, probe),
{
    assert(key_le(a, b)) by {
        assert(key_lt(a, b) <==> !key_le(b, a));
    }
    if is_before(b, probe) {
        assert(is_before(a, probe));
    }
    if is_sought(b, probe) {
        if is_after(a, probe) {
            assert(is_after(b, probe));
        } else {
            assert(is_sought(a, probe));
        }
    }
}

/// Compares `a` with `b`.
pub fn relate<K: Ord>(a: &K, b: &K) -> (r: Relation)
    ensures
        fixed_order::<K>() ==> {
            &&& r is Before <==> key_lt(*a, *b)
            &&& r is Same <==> key_eq(*a, *b)
            &&& r is After <==> !key_le(*a, *b)
        },
{
    match a.cmp(b) {
        Ordering::Less => Relation::Before,
        Ordering::Equal => Relation::Same,
        Ordering::Greater => Relation::After,
    }
}

} // verus!
