//! Walking over the entries of a map.

use crate::collect::{collect_node, Slot};
use crate::cursor::Cursor;
use crate::drain::IntoIter;
use crate::iter::{Iter, Keys, Values};
use crate::iter_mut::{IterMut, RangeMut, RangeValuesMut, ValuesMut};
use crate::map::{lemma_layout_shape, lemma_wf_tree, BTreeMap};
use crate::map::lookup::Find;
use crate::order::{relate, total_order, Probe, Relation};
use crate::range::{
    in_range, lawful_bound, lemma_range_entries, lemma_range_positions, lemma_rank_after_lookup,
    range_entries, range_start, range_stop, Bound, Range, RangeKeys, RangeValues,
};
use vstd::prelude::*;

verus! {

broadcast use lemma_wf_tree;

impl<'store, K, V> BTreeMap<'store, K, V> {
    /// Iterates over the map's key-value pairs in order.
    pub fn iter(&self) -> (iter: Iter<'_, K, V>)
        requires
            self.well_shaped(),
        ensures
            iter.wf(),
            iter@ == self@,
    {
        Iter::new(self.root_node(), self.length, Ghost(self.height as nat))
    }

    /// Iterates over the map's keys in order.
    pub fn keys(&self) -> (keys: Keys<'_, K, V>)
        requires
            self.well_shaped(),
        ensures
            keys.wf(),
            keys@ == self@.map_values(|entry: (K, V)| entry.0),
    {
        Keys::new(self.iter())
    }

    /// Iterates over the map's values in order.
    pub fn values(&self) -> (values: Values<'_, K, V>)
        requires
            self.well_shaped(),
        ensures
            values.wf(),
            values@ == self@.map_values(|entry: (K, V)| entry.1),
    {
        Values::new(self.iter())
    }

    /// Iterates over the map's key-value pairs in order. Values are mutable.
    pub fn iter_mut(&mut self) -> (iter: IterMut<'_, K, V>)
        requires
            old(self).well_shaped(),
        ensures
            iter.wf(),
            iter@.len() == old(self)@.len(),
            forall|i: int|
                0 <= i < old(self)@.len() ==> *(#[trigger] iter@[i]).0 == old(self)@[i].0
                    && *iter@[i].1 == old(self)@[i].1,
            final(self).well_shaped(),
            final(self).marks() == old(self).marks(),
            old(self).same_shape(*final(self)),
            final(self)@.len() == old(self)@.len(),
            forall|i: int|
                0 <= i < old(self)@.len() ==> #[trigger] final(self)@[i] == (
                    old(self)@[i].0,
                    *final(iter@[i].1),
                ),
    {
        let ghost h = self.height as nat;
        let mut slots: Vec<Slot<'_, K, V>> = Vec::new();
        if let Some(root) = &mut self.root {
            proof {
                lemma_layout_shape(**root, h);
            }
            collect_node(&mut **root, None, None, 0, &mut slots);
        }
        IterMut::new(slots)
    }

    /// Iterates over the map's values in order. Values are mutable.
    pub fn values_mut(&mut self) -> (values: ValuesMut<'_, K, V>)
        requires
            old(self).well_shaped(),
        ensures
            values.wf(),
            values@.len() == old(self)@.len(),
            forall|i: int|
                0 <= i < old(self)@.len() ==> *(#[trigger] values@[i]) == old(self)@[i].1,
            final(self).well_shaped(),
            final(self).marks() == old(self).marks(),
            old(self).same_shape(*final(self)),
            final(self)@.len() == old(self)@.len(),
            forall|i: int|
                0 <= i < old(self)@.len() ==> #[trigger] final(self)@[i] == (
                    old(self)@[i].0,
                    *final(values@[i]),
                ),
    {
        ValuesMut::new(self.iter_mut())
    }

    /// Takes the map apart into its key-value pairs, in order.
    pub fn into_iter(self) -> (iter: IntoIter<'store, K, V>)
        requires
            self.well_shaped(),
        ensures
            iter.wf(),
            iter@ == self@,
    {
        IntoIter::new(self.store, self.root, self.length, Ghost(self.height as nat))
    }
}

impl<'store, K: Ord, V> BTreeMap<'store, K, V> {
    /// The first and the last entry of a range, if there are any in it.
    fn node_bounds<Q: Probe<K>>(
        &self,
        start: Bound<&Q>,
        end: Bound<&Q>,
    ) -> (r: Option<(Cursor, Cursor)>)
        requires
            total_order::<K>(),
            lawful_bound::<K, Q>(start),
            lawful_bound::<K, Q>(end),
            self.wf(),
        ensures
            match r {
                Some((cursor, back_cursor)) => {
                    &&& self.root is Some
                    &&& cursor.attached(*self.root->0)
                    &&& back_cursor.attached(*self.root->0)
                    &&& cursor.at(*self.root->0) == range_start(self@, start)
                    &&& back_cursor.at(*self.root->0) + 1 == range_stop(self@, end)
                    &&& 0 <= range_start(self@, start) < range_stop(self@, end) <= self@.len()
                },
                None => range_start(self@, start) >= range_stop(self@, end),
            },
    {
        proof {
            self.lemma_sorted();
            lemma_range_entries(self@, start, end);
            match start {
                Bound::Excluded(k) => lemma_rank_after_lookup(self@, *k),
                _ => {},
            }
            match end {
                Bound::Included(k) => lemma_rank_after_lookup(self@, *k),
                _ => {},
            }
        }
        let root = match self.root_node() {
            Some(root) => root,
            None => return None,
        };
        let ghost h = self.height as nat;
        let first = match start {
            Bound::Included(key) => match self.find(key) {
                Find::NoRoot => None,
                Find::Before { path, idx } => Cursor::normalize(root, path, idx, Ghost(h)),
                Find::At { path, idx } => Some(Cursor { path, idx }),
            },
            Bound::Excluded(key) => match self.find(key) {
                Find::NoRoot => None,
                Find::Before { path, idx } => Cursor::normalize(root, path, idx, Ghost(h)),
                Find::At { path, idx } => Cursor::normalize(root, path, idx + 1, Ghost(h)),
            },
            Bound::Unbounded => Some(Cursor::new(root, Ghost(h))),
        };
        let last = match end {
            Bound::Included(key) => match self.find(key) {
                Find::NoRoot => None,
                Find::Before { path, idx } => Cursor::before(root, path, idx, Ghost(h)),
                Find::At { path, idx } => Some(Cursor { path, idx }),
            },
            Bound::Excluded(key) => match self.find(key) {
                Find::NoRoot => None,
                Find::Before { path, idx } => Cursor::before(root, path, idx, Ghost(h)),
                Find::At { path, idx } => Cursor::before(root, path, idx, Ghost(h)),
            },
            Bound::Unbounded => Some(Cursor::new_at_end(root, Ghost(h))),
        };
        match (first, last) {
            (Some(first), Some(last)) => {
                // The range is empty where it would start after its end.
                let (first_key, _) = first.key_value(root);
                let (last_key, _) = last.key_value(root);
                match relate(first_key, last_key) {
                    Relation::After => None,
                    _ => Some((first, last)),
                }
            },
            _ => None,
        }
    }

    /// Iterates over the map's key-value pairs in order, within the given range.
    pub fn range<Q: Probe<K>>(
        &self,
        start: Bound<&Q>,
        end: Bound<&Q>,
    ) -> (range: Range<'_, K, V>)
        requires
            total_order::<K>(),
            lawful_bound::<K, Q>(start),
            lawful_bound::<K, Q>(end),
            self.wf(),
        ensures
            range.wf(),
            range@ == range_entries(self@, start, end),
            range@ == self@.filter(|entry: (K, V)| in_range(entry.0, start, end)),
    {
        proof {
            self.lemma_sorted();
            lemma_range_entries(self@, start, end);
        }
        let bounds = self.node_bounds(start, end);
        Range::new(self.root_node(), bounds, Ghost(self.height as nat))
    }

    /// Iterates over the map's keys in order, within the given range.
    pub fn range_keys<Q: Probe<K>>(
        &self,
        start: Bound<&Q>,
        end: Bound<&Q>,
    ) -> (keys: RangeKeys<'_, K, V>)
        requires
            total_order::<K>(),
            lawful_bound::<K, Q>(start),
            lawful_bound::<K, Q>(end),
            self.wf(),
        ensures
            keys.wf(),
            keys@ == range_entries(self@, start, end).map_values(|entry: (K, V)| entry.0),
    {
        RangeKeys::new(self.range(start, end))
    }

    /// Iterates over the map's values in order, within the given range.
    pub fn range_values<Q: Probe<K>>(
        &self,
        start: Bound<&Q>,
        end: Bound<&Q>,
    ) -> (values: RangeValues<'_, K, V>)
        requires
            total_order::<K>(),
            lawful_bound::<K, Q>(start),
            lawful_bound::<K, Q>(end),
            self.wf(),
        ensures
            values.wf(),
            values@ == range_entries(self@, start, end).map_values(|entry: (K, V)| entry.1),
    {
        RangeValues::new(self.range(start, end))
    }
}

impl<'store, K: Ord, V> BTreeMap<'store, K, V> {
    /// Iterates over the map's key-value pairs in order, within the given range. Values are
    /// mutable.
    pub fn range_mut<Q: Probe<K>>(
        &mut self,
        start: Bound<&Q>,
        end: Bound<&Q>,
    ) -> (range: RangeMut<'_, K, V>)
        requires
            total_order::<K>(),
            lawful_bound::<K, Q>(start),
            lawful_bound::<K, Q>(end),
            old(self).wf(),
        ensures
            range.wf(),
            range@.len() == range_entries(old(self)@, start, end).len(),
            forall|i: int|
                0 <= i < range@.len() ==> *(#[trigger] range@[i]).0 == range_entries(
                    old(self)@,
                    start,
                    end,
                )[i].0 && *range@[i].1 == range_entries(old(self)@, start, end)[i].1,
            final(self).wf(),
            old(self).same_shape(*final(self)),
            final(self)@.len() == old(self)@.len(),
            forall|p: int|
                #![trigger final(self)@[p]]
                0 <= p < old(self)@.len() ==> final(self)@[p] == (
                    old(self)@[p].0,
                    if in_range(old(self)@[p].0, start, end) {
                        *final(range@[p - range_start(old(self)@, start)].1)
                    } else {
                        old(self)@[p].1
                    },
                ),
    {
        let ghost h = self.height as nat;
        let ghost s = self@;
        proof {
            self.lemma_same_shape_refl();
            self.lemma_sorted();
            lemma_range_entries(s, start, end);
            lemma_range_positions(s, start, end);
        }
        let bounds = self.node_bounds(start, end);
        let mut slots: Vec<Slot<'_, K, V>> = Vec::new();
        if let Some((cursor, back_cursor)) = bounds {
            proof {
                lemma_layout_shape(*self.root->0, h);
                assert(cursor.path@.skip(0) =~= cursor.path@);
                assert(back_cursor.path@.skip(0) =~= back_cursor.path@);
            }
            if let Some(root) = &mut self.root {
                collect_node(&mut **root, Some(&cursor), Some(&back_cursor), 0, &mut slots);
            }
        }
        RangeMut::new(slots)
    }

    /// Iterates over the map's values in order, within the given range. Values are mutable.
    pub fn range_values_mut<Q: Probe<K>>(
        &mut self,
        start: Bound<&Q>,
        end: Bound<&Q>,
    ) -> (values: RangeValuesMut<'_, K, V>)
        requires
            total_order::<K>(),
            lawful_bound::<K, Q>(start),
            lawful_bound::<K, Q>(end),
            old(self).wf(),
        ensures
            values.wf(),
            values@.len() == range_entries(old(self)@, start, end).len(),
            forall|i: int|
                0 <= i < values@.len() ==> *(#[trigger] values@[i]) == range_entries(
                    old(self)@,
                    start,
                    end,
                )[i].1,
            final(self).wf(),
            old(self).same_shape(*final(self)),
            final(self)@.len() == old(self)@.len(),
            forall|p: int|
                #![trigger final(self)@[p]]
                0 <= p < old(self)@.len() ==> final(self)@[p] == (
                    old(self)@[p].0,
                    if in_range(old(self)@[p].0, start, end) {
                        *final(values@[p - range_start(old(self)@, start)])
                    } else {
                        old(self)@[p].1
                    },
                ),
    {
        proof {
            self.lemma_sorted();
            lemma_range_positions(self@, start, end);
        }
        let ghost s = self@;
        let range = self.range_mut(start, end);
        proof {
            assert forall|p: int| 0 <= p < s.len() && in_range((#[trigger] s[p]).0, start, end)
                implies 0 <= p - range_start(s, start) < range@.len() by {}
        }
        RangeValuesMut::new(range)
    }
}

} // verus!
