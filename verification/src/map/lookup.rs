//! Looking keys up.

use crate::map::{lemma_layout_shape, lemma_wf_tree, BTreeMap};
use crate::model::{lemma_lookup_found, lemma_rank, lookup, rank};
use crate::order::{is_after, is_before, lawful_probe, total_order, Probe};
use crate::path::{
    entry_at, first_leaf, last_leaf, leaf_entries, leaf_len, leaf_start, lemma_leaf_entries,
    lemma_path_len, valid_path,
};
use crate::search::{find_in, fits};
use crate::values::entry_at_mut;
use vstd::prelude::*;

verus! {

broadcast use lemma_wf_tree;

/// The result of looking up a key to retrieve or insert an entry.
pub(super) enum Find {
    /// The tree is empty.
    NoRoot,
    /// The entry would be before this place.
    Before { path: Vec<usize>, idx: usize },
    /// The entry is at this place.
    At { path: Vec<usize>, idx: usize },
}

impl<'store, K, V> BTreeMap<'store, K, V> {
    /// Returns the first key and value.
    pub fn first_key_value(&self) -> (r: Option<(&K, &V)>)
        requires
            self.well_shaped(),
        ensures
            r == if self@.len() > 0 {
                Some((&self@[0].0, &self@[0].1))
            } else {
                None
            },
    {
        match &self.root {
            Some(root) => {
                let ghost h = self.height as nat;
                let mut path: Vec<usize> = Vec::new();
                first_leaf(root, &mut path, Ghost(h));
                proof {
                    assert(path@.skip(0) =~= path@);
                    lemma_path_len(**root, path@, h);
                }
                let entry = entry_at(root, &path, 0, 0);
                Some((&entry.0, &entry.1))
            },
            None => None,
        }
    }

    /// Returns the first key and mutable value.
    pub fn first_key_value_mut(&mut self) -> (r: Option<(&K, &mut V)>)
        requires
            old(self).well_shaped(),
        ensures
            final(self).well_shaped(),
            final(self).marks() == old(self).marks(),
            old(self).same_shape(*final(self)),
            if old(self)@.len() > 0 {
                &&& r matches Some((k, v))
                &&& *k == old(self)@[0].0
                &&& *v == old(self)@[0].1
                &&& final(self)@ == old(self)@.update(0, (*k, *final(v)))
            } else {
                r is None && final(self)@ == old(self)@
            },
    {
        proof {
            self.lemma_same_shape_refl();
        }
        let ghost h = self.height as nat;
        match &mut self.root {
            Some(root) => {
                let mut path: Vec<usize> = Vec::new();
                first_leaf(root, &mut path, Ghost(h));
                proof {
                    assert(path@.skip(0) =~= path@);
                    lemma_path_len(**root, path@, h);
                    lemma_leaf_entries(**root, path@);
                    lemma_layout_shape(**root, h);
                }
                Some(entry_at_mut(&mut **root, &path, 0, 0))
            },
            None => None,
        }
    }

    /// Returns the last key and value.
    pub fn last_key_value(&self) -> (r: Option<(&K, &V)>)
        requires
            self.well_shaped(),
        ensures
            r == if self@.len() > 0 {
                Some((&self@.last().0, &self@.last().1))
            } else {
                None
            },
    {
        match &self.root {
            Some(root) => {
                let ghost h = self.height as nat;
                let mut path: Vec<usize> = Vec::new();
                last_leaf(root, &mut path, Ghost(h));
                proof {
                    assert(path@.skip(0) =~= path@);
                    lemma_path_len(**root, path@, h);
                }
                let n: usize = leaf_len(root, &path, 0);
                let entry = entry_at(root, &path, 0, n - 1);
                Some((&entry.0, &entry.1))
            },
            None => None,
        }
    }

    /// Returns the last key and mutable value.
    pub fn last_key_value_mut(&mut self) -> (r: Option<(&K, &mut V)>)
        requires
            old(self).well_shaped(),
        ensures
            final(self).well_shaped(),
            final(self).marks() == old(self).marks(),
            old(self).same_shape(*final(self)),
            if old(self)@.len() > 0 {
                &&& r matches Some((k, v))
                &&& *k == old(self)@.last().0
                &&& *v == old(self)@.last().1
                &&& final(self)@ == old(self)@.update(
                    old(self)@.len() - 1,
                    (*k, *final(v)),
                )
            } else {
                r is None && final(self)@ == old(self)@
            },
    {
        proof {
            self.lemma_same_shape_refl();
        }
        let ghost h = self.height as nat;
        match &mut self.root {
            Some(root) => {
                let mut path: Vec<usize> = Vec::new();
                last_leaf(root, &mut path, Ghost(h));
                proof {
                    assert(path@.skip(0) =~= path@);
                    lemma_path_len(**root, path@, h);
                    lemma_leaf_entries(**root, path@);
                    lemma_layout_shape(**root, h);
                }
                let n: usize = leaf_len(root, &path, 0);
                Some(entry_at_mut(&mut **root, &path, 0, n - 1))
            },
            None => None,
        }
    }
}

impl<'store, K: Ord, V> BTreeMap<'store, K, V> {
    /// Looks a key up.
    pub(super) fn find<Q: Probe<K>>(&self, key: &Q) -> (r: Find)
        requires
            total_order::<K>(),
            lawful_probe(*key),
            self.wf(),
        ensures
            match r {
                Find::NoRoot => {
                    &&& self.root is None
                    &&& lookup(self@, *key) is None
                    &&& rank(self@, *key) == 0
                },
                Find::Before { path, idx } => {
                    &&& self.root is Some
                    &&& valid_path(*self.root->0, path@)
                    &&& idx <= leaf_entries(*self.root->0, path@).len()
                    &&& fits(*self.root->0, path@, idx as int, *key)
                    &&& rank(self@, *key) == leaf_start(*self.root->0, path@) + idx
                    &&& lookup(self@, *key) is None
                },
                Find::At { path, idx } => {
                    &&& self.root is Some
                    &&& valid_path(*self.root->0, path@)
                    &&& idx < leaf_entries(*self.root->0, path@).len()
                    &&& lookup(self@, *key) == Some(leaf_start(*self.root->0, path@) + idx)
                },
            },
    {
        match &self.root {
            None => Find::NoRoot,
            Some(root) => {
                let mut path: Vec<usize> = Vec::new();
                let (found, idx) = find_in(root, key, &mut path, Ghost(self.height as nat));
                proof {
                    assert(path@.skip(0) =~= path@);
                    let s = root.entries();
                    let at = leaf_start(**root, path@) + idx;
                    self.lemma_sorted();
                    if found {
                        lemma_lookup_found(s, *key, at);
                    } else {
                        assert forall|i: int| at <= i < s.len() implies !is_before(
                            (#[trigger] s[i]).0,
                            *key,
                        ) by {
                            assert(is_after(s[i].0, *key));
                        }
                        lemma_rank(s, *key, at);
                        if at < s.len() {
                            assert(is_after(s[at].0, *key));
                        }
                    }
                }
                if found {
                    Find::At { path, idx }
                } else {
                    Find::Before { path, idx }
                }
            },
        }
    }

    /// Whether the map contains the key.
    pub fn contains_key<Q: Probe<K>>(&self, key: &Q) -> (r: bool)
        requires
            total_order::<K>(),
            lawful_probe(*key),
            self.wf(),
        ensures
            r <==> lookup(self@, *key) is Some,
    {
        matches!(self.find(key), Find::At { .. })
    }

    /// Returns a reference to the value corresponding to the key.
    pub fn get<Q: Probe<K>>(&self, key: &Q) -> (r: Option<&V>)
        requires
            total_order::<K>(),
            lawful_probe(*key),
            self.wf(),
        ensures
            r == match lookup(self@, *key) {
                Some(at) => Some(&self@[at].1),
                None => None,
            },
    {
        match self.get_key_value(key) {
            Some((_, val)) => Some(val),
            None => None,
        }
    }

    /// Returns a reference to the equivalent key.
    ///
    /// This is useful when keys that compare equal can be told apart in other ways.
    pub fn get_key<Q: Probe<K>>(&self, key: &Q) -> (r: Option<&K>)
        requires
            total_order::<K>(),
            lawful_probe(*key),
            self.wf(),
        ensures
            r == match lookup(self@, *key) {
                Some(at) => Some(&self@[at].0),
                None => None,
            },
    {
        match self.get_key_value(key) {
            Some((key, _)) => Some(key),
            None => None,
        }
    }

    /// Returns a reference to the equivalent key and associated value.
    pub fn get_key_value<Q: Probe<K>>(&self, key: &Q) -> (r: Option<(&K, &V)>)
        requires
            total_order::<K>(),
            lawful_probe(*key),
            self.wf(),
        ensures
            r == match lookup(self@, *key) {
                Some(at) => Some((&self@[at].0, &self@[at].1)),
                None => None,
            },
    {
        match self.find(key) {
            Find::At { path, idx } => {
                proof {
                    assert(path@.skip(0) =~= path@);
                }
                match &self.root {
                    Some(root) => {
                        let entry = entry_at(root, &path, 0, idx);
                        Some((&entry.0, &entry.1))
                    },
                    None => None,
                }
            },
            _ => None,
        }
    }

    /// Returns a mutable reference to the value corresponding to the key.
    pub fn get_mut<Q: Probe<K>>(&mut self, key: &Q) -> (r: Option<&mut V>)
        requires
            total_order::<K>(),
            lawful_probe(*key),
            old(self).wf(),
        ensures
            final(self).wf(),
            old(self).same_shape(*final(self)),
            match lookup(old(self)@, *key) {
                Some(at) => {
                    &&& r matches Some(v)
                    &&& *v == old(self)@[at].1
                    &&& final(self)@ == old(self)@.update(at, (old(self)@[at].0, *final(v)))
                },
                None => r is None && final(self)@ == old(self)@,
            },
    {
        match self.get_key_value_mut(key) {
            Some((_, val)) => Some(val),
            None => None,
        }
    }

    /// The entry at a place that a lookup has found, with the value mutable.
    pub(super) fn place_mut(&mut self, path: &Vec<usize>, idx: usize) -> (r: (&K, &mut V))
        requires
            total_order::<K>(),
            old(self).wf(),
            old(self).root is Some,
            valid_path(*old(self).root->0, path@),
            idx < leaf_entries(*old(self).root->0, path@).len(),
        ensures
            final(self).wf(),
            old(self).same_shape(*final(self)),
            ({
                let at = leaf_start(*old(self).root->0, path@) + idx;
                &&& 0 <= at < old(self)@.len()
                &&& *r.0 == old(self)@[at].0
                &&& *r.1 == old(self)@[at].1
                &&& final(self)@ == old(self)@.update(at, (old(self)@[at].0, *final(r.1)))
            }),
    {
        proof {
            self.lemma_same_shape_refl();
        }
        let ghost h = self.height as nat;
        proof {
            assert(path@.skip(0) =~= path@);
            lemma_leaf_entries(*self.root->0, path@);
            lemma_layout_shape(*self.root->0, h);
        }
        let root = self.root.as_mut().unwrap();
        entry_at_mut(&mut **root, path, 0, idx)
    }

    /// Returns a reference to the equivalent key and mutable associated value.
    pub fn get_key_value_mut<Q: Probe<K>>(&mut self, key: &Q) -> (r: Option<(&K, &mut V)>)
        requires
            total_order::<K>(),
            lawful_probe(*key),
            old(self).wf(),
        ensures
            final(self).wf(),
            old(self).same_shape(*final(self)),
            match lookup(old(self)@, *key) {
                Some(at) => {
                    &&& r matches Some((k, v))
                    &&& *k == old(self)@[at].0
                    &&& *v == old(self)@[at].1
                    &&& final(self)@ == old(self)@.update(at, (old(self)@[at].0, *final(v)))
                },
                None => r is None && final(self)@ == old(self)@,
            },
    {
        proof {
            self.lemma_same_shape_refl();
        }
        match self.find(key) {
            Find::At { path, idx } => Some(self.place_mut(&path, idx)),
            _ => None,
        }
    }
}

} // verus!
