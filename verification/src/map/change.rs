//! Putting entries into a map and taking them out.

use crate::drain::drop_node;
use crate::grow::{insert_at, path_full};
use crate::map::{lemma_layout_shape, lemma_wf_tree, BTreeMap};
use crate::map::lookup::Find;
use crate::marks::Mark;
use crate::model::{
    extended, inserted, lemma_extended_len, lemma_lookup_found, lemma_rank_len, lookup, rank,
    removed, update_outcome, updated, value_at,
};
use crate::node::{lemma_concat_add, lemma_concat_one, lemma_entries_len, within, M, Node};
use crate::order::{
    is_sought, key_eq, key_le, key_lt, key_model, lawful_probe, lemma_key_probe, Probe,
};
use crate::path::{
    first_leaf, last_leaf, leaf_entries, leaf_len, leaf_start, lemma_leaf_entries, lemma_path_len,
    lemma_place_unique, valid_path,
};
use crate::search::{fits, lemma_fits_equivalent, lemma_fits_unique, lemma_shaped_filled};
use crate::shrink::{loses_key, occupy, remove_at, vacate};
use crate::undo::{
    lemma_removal_parts, lemma_removal_quiet, lemma_spares_vacant, removal, restore_at, Step,
};
use vstd::prelude::*;

verus! {

broadcast use lemma_wf_tree;

impl<'store, K, V> BTreeMap<'store, K, V> {
    /// Clears the map, removing all key-value pairs.
    pub fn clear(&mut self)
        ensures
            final(self).well_shaped(),
            final(self).marks() == Seq::<Mark<K>>::empty(),
            final(self)@ == Seq::<(K, V)>::empty(),
    {
        let root = self.root.take();
        self.length = 0;
        self.height = 0;
        if let Some(root) = root {
            let mut nodes: Vec<Box<Node<K, V>>> = Vec::new();
            drop_node(root, &mut nodes);
            self.store.give_back_all(nodes);
        }
    }
}

impl<'store, K: Ord + Clone, V> BTreeMap<'store, K, V> {
    /// Makes a tree of one entry.
    fn insert_root(&mut self, key: K, val: V)
        requires
            old(self).wf(),
            old(self).root is None,
        ensures
            final(self).wf(),
            final(self)@ == seq![(key, val)],
    {
        let mut entries: Vec<(K, V)> = Vec::new();
        entries.push((key, val));
        self.root = Some(self.store.take_in(Node::Leaf { entries }));
        self.length = 1;
        assert(self@ =~= seq![(key, val)]);
    }

    /// Inserts an entry before a place that a lookup of its key has found.
    fn insert_before(&mut self, key: K, val: V, path: &Vec<usize>, idx: usize)
        requires
            key_model::<K>(),
            old(self).wf(),
            old(self)@.len() < usize::MAX,
            old(self).root is Some,
            valid_path(*old(self).root->0, path@),
            idx <= leaf_entries(*old(self).root->0, path@).len(),
            fits(*old(self).root->0, path@, idx as int, key),
        ensures
            final(self).wf(),
            final(self)@ == old(self)@.insert(
                leaf_start(*old(self).root->0, path@) + idx,
                (key, val),
            ),
            final(self).height == old(self).height + if path_full(*old(self).root->0, path@) {
                1int
            } else {
                0
            },
            leaf_entries(*old(self).root->0, path@).len() < M ==> old(self).differs_in_leaf(
                *final(self),
                path@,
                leaf_entries(*old(self).root->0, path@).insert(idx as int, (key, val)),
            ),
    {
        let ghost h = self.height as nat;
        let ghost root0 = *self.root->0;
        let store = self.store;
        proof {
            assert(path@.skip(0) =~= path@);
            lemma_path_len(root0, path@, h);
            lemma_leaf_entries(root0, path@);
            lemma_entries_len(root0, h);
        }
        let split = match &mut self.root {
            Some(root) => insert_at(&mut **root, path, 0, idx, key, val, store),
            None => None,
        };
        if let Some((sep, right)) = split {
            let ghost upper = *right;
            let left = self.root.take().unwrap();
            let ghost lower = *left;
            let mut keys: Vec<K> = Vec::new();
            keys.push(sep);
            let mut edges: Vec<Box<Node<K, V>>> = Vec::new();
            edges.push(left);
            edges.push(right);
            proof {
                assert(edges@ =~= seq![left] + seq![right]);
                lemma_concat_add(seq![left], seq![right]);
                lemma_concat_one(left);
                lemma_concat_one(right);
                assert(within(edges@[0].entries(), keys@, 0));
                assert(within(edges@[1].entries(), keys@, 1));
            }
            self.root = Some(store.take_in(Node::Internal { keys, edges }));
            self.height = self.height + 1;
        }
        self.length = self.length + 1;
    }

    /// Inserts a key-value pair into the map.
    ///
    /// Returns the value that the key had before. The key itself is not replaced.
    pub fn insert(&mut self, key: K, val: V) -> (r: Option<V>)
        requires
            key_model::<K>(),
            old(self).wf(),
            lookup(old(self)@, key) is None ==> old(self)@.len() < usize::MAX,
        ensures
            final(self).wf(),
            final(self)@ == inserted(old(self)@, key, val),
            final(self)@.len() == old(self)@.len() ==> old(self).same_shape(*final(self)),
            forall|path: Seq<usize>, i: int|
                lookup(old(self)@, key) is None && #[trigger] old(self).has_room(path, i, key)
                    ==> old(self).differs_in_leaf(
                    *final(self),
                    path,
                    old(self).leaf(path).insert(i, (key, val)),
                ),
            r == match lookup(old(self)@, key) {
                Some(at) => Some(old(self)@[at].1),
                None => None,
            },
    {
        proof {
            lemma_key_probe(key);
            lemma_rank_len(self@, key);
        }
        match self.find(&key) {
            Find::NoRoot => {
                self.insert_root(key, val);
                None
            },
            Find::Before { path, idx } => {
                proof {
                    self.lemma_room_unique(path@, idx as int, key);
                }
                self.insert_before(key, val, &path, idx);
                None
            },
            Find::At { path, idx } => {
                let mut val = val;
                let (_, slot) = self.place_mut(&path, idx);
                core::mem::swap(slot, &mut val);
                Some(val)
            },
        }
    }

    /// There is only one place that has room for a key.
    proof fn lemma_room_unique(&self, path: Seq<usize>, idx: int, key: K)
        requires
            self.wf(),
            self.root is Some,
            valid_path(*self.root->0, path),
            0 <= idx <= leaf_entries(*self.root->0, path).len(),
            fits(*self.root->0, path, idx, key),
        ensures
            forall|other: Seq<usize>, i: int| #[trigger]
                self.has_room(other, i, key) ==> other == path && i == idx,
    {
        let root = *self.root->0;
        lemma_shaped_filled(root, self.height as nat);
        assert forall|other: Seq<usize>, i: int| #[trigger]
            self.has_room(other, i, key) implies other == path && i == idx by {
            lemma_fits_unique(root, path, idx, other, i, key);
        }
    }

    /// Once an equivalent of `key` has been inserted, it is found, and giving it another value
    /// is as good as having inserted it with that value.
    proof fn lemma_inserted_entry(&self, s: Seq<(K, V)>, key: K, stored: K, val: V)
        requires
            key_model::<K>(),
            self.wf(),
            key_eq(key, stored),
            rank(s, key) <= s.len(),
            self@ == s.insert(rank(s, key) as int, (stored, val)),
        ensures
            lookup(self@, key) == Some(rank(s, key) as int),
            forall|v: V|
                #[trigger] self@.update(rank(s, key) as int, (stored, v)) == s.insert(
                    rank(s, key) as int,
                    (stored, v),
                ),
    {
        let at = rank(s, key) as int;
        self.lemma_sorted();
        assert(self@[at] == (stored, val));
        assert(key_le(key, stored) && !key_lt(key, stored));
        assert(key_le(stored, key));
        assert(!key_lt(stored, key));
        assert(key_eq(stored, key));
        lemma_key_probe(key);
        lemma_lookup_found(self@, key, at);
        assert forall|v: V|
            #[trigger] self@.update(at, (stored, v)) == s.insert(at, (stored, v)) by {
            assert(self@.update(at, (stored, v)) =~= s.insert(at, (stored, v)));
        }
    }

    /// Gets a reference to the value at the given key, or inserts a new value if the key is not
    /// present.
    pub fn get_or_insert(&mut self, key: K, val: V) -> (r: &mut V)
        requires
            key_model::<K>(),
            old(self).wf(),
            lookup(old(self)@, key) is None ==> old(self)@.len() < usize::MAX,
        ensures
            final(self).wf(),
            match lookup(old(self)@, key) {
                Some(at) => {
                    &&& old(self).same_shape(*final(self))
                    &&& *r == old(self)@[at].1
                    &&& final(self)@ == old(self)@.update(at, (old(self)@[at].0, *final(r)))
                },
                None => {
                    &&& *r == val
                    &&& exists|k: K|
                        cloned(key, k) && (old(self)@.len() == 0 ==> k == key) && final(self)@
                            == #[trigger] old(self)@.insert(
                            rank(old(self)@, key) as int,
                            (k, *final(r)),
                        )
                },
            },
    {
        let ghost s = self@;
        let ghost at = rank(s, key) as int;
        proof {
            lemma_key_probe(key);
        }
        match self.find(&key) {
            Find::NoRoot => {
                self.insert_root(key, val);
                proof {
                    lemma_layout_shape(*self.root->0, self.height as nat);
                }
                let entry = self.first_key_value_mut().unwrap();
                proof {
                    assert forall|v: V| #[trigger]
                        seq![(key, val)].update(0, (key, v)) == s.insert(at, (key, v)) by {
                        assert(seq![(key, val)].update(0, (key, v)) =~= s.insert(at, (key, v)));
                    }
                }
                entry.1
            },
            Find::Before { path, idx } => {
                let stored = key.clone();
                proof {
                    assert(key_eq(key, stored));
                    lemma_fits_equivalent(*self.root->0, path@, idx as int, key, stored);
                    lemma_rank_len(s, key);
                    lemma_entries_len(*self.root->0, self.height as nat);
                }
                self.insert_before(stored, val, &path, idx);
                proof {
                    self.lemma_inserted_entry(s, key, stored, val);
                }
                self.get_mut(&key).unwrap()
            },
            Find::At { path, idx } => self.place_mut(&path, idx).1,
        }
    }
}

/// What is left over of a removal, and all that it takes to take it back.
struct Leftover<K, V> {
    /// What happened on the way from the leaf up to the root.
    steps: Vec<Step<K, V>>,
    /// The node of the root, if it was given up.
    root: Option<Box<Node<K, V>>>,
    /// The root before that.
    emptied: Ghost<Node<K, V>>,
}

impl<'store, K, V> BTreeMap<'store, K, V> {
    /// The map is `before` without entry `idx` of the leaf that `path` leads to, and `left` says
    /// how it has come about.
    spec fn lacks(&self, left: Leftover<K, V>, before: Self, path: Seq<usize>, idx: int) -> bool {
        let steps = left.steps@;
        &&& before.root is Some
        &&& self.length + 1 == before.length
        &&& steps.len() == path.len()
        &&& match left.root {
            None => {
                &&& self.root is Some
                &&& self.height == before.height
                &&& removal(*self.root->0, steps, *before.root->0, path, idx)
            },
            Some(node) => {
                &&& node.vacant()
                &&& removal(left.emptied@, steps, *before.root->0, path, idx)
                &&& match (*node, left.emptied@) {
                    (Node::Leaf { .. }, Node::Leaf { entries }) => {
                        &&& entries@.len() == 0
                        &&& self.root is None
                        &&& self.height == before.height
                    },
                    (Node::Internal { .. }, Node::Internal { keys, edges }) => {
                        &&& keys@.len() == 0
                        &&& self.root is Some
                        &&& edges@ == seq![self.root->0]
                        &&& self.height + 1 == before.height
                    },
                    _ => false,
                }
            },
        }
    }

    /// Gives the nodes that a removal has emptied back to the store, from the leaves upwards.
    fn give_up(
        &self,
        left: Leftover<K, V>,
        Ghost(before): Ghost<Self>,
        Ghost(path): Ghost<Seq<usize>>,
        Ghost(idx): Ghost<int>,
    )
        requires
            before.root is Some,
            valid_path(*before.root->0, path),
            self.lacks(left, before, path, idx),
    {
        let Leftover { steps, root, emptied } = left;
        let ghost all = steps@;
        proof {
            let node = match root {
                None => *self.root->0,
                Some(_) => emptied@,
            };
            lemma_spares_vacant(node, all, *before.root->0, path, idx);
        }
        for step in it: steps
            invariant
                it.seq() == all,
                forall|j: int|
                    0 <= j < all.len() ==> (#[trigger] all[j]).spares()
                        ==> all[j].mend->0.spare->0.vacant(),
        {
            assert(step == all[it.index() as int]);
            if let Some(mend) = step.mend {
                if let Some(spare) = mend.spare {
                    self.store.give_back(spare);
                }
            }
        }
        if let Some(root) = root {
            self.store.give_back(root);
        }
    }
}

impl<'store, K: Ord + Clone, V> BTreeMap<'store, K, V> {
    /// Sets the root right after an entry has been removed under it: an empty root is given up,
    /// and so is one with a single edge. Its node is returned.
    fn post_removal(&mut self) -> (emptied: Option<Box<Node<K, V>>>)
        requires
            key_model::<K>(),
            old(self).root matches Some(root) && root.shaped(old(self).height as nat)
                && root.ordered() && old(self).length == root.entries().len() + 1,
        ensures
            final(self).wf(),
            final(self)@ == old(self)@,
            final(self).length + 1 == old(self).length,
            final(self).height == old(self).height - if old(self).root->0.count() == 0
                && old(self).height > 0 {
                1int
            } else {
                0
            },
            emptied is Some <==> old(self).root->0.count() == 0,
            match emptied {
                Some(node) => {
                    &&& node.vacant()
                    &&& match (*node, *old(self).root->0) {
                        (Node::Leaf { .. }, Node::Leaf { .. }) => final(self).root is None,
                        (Node::Internal { .. }, Node::Internal { edges, .. }) => {
                            final(self).root is Some && edges@ == seq![final(self).root->0]
                        },
                        _ => false,
                    }
                },
                None => final(self).root == old(self).root,
            },
    {
        let ghost h = self.height as nat;
        let ghost s = self@;
        self.length = self.length - 1;
        let root_len: usize = match &self.root {
            Some(root) => root.len(),
            None => 0,
        };
        if root_len == 0 {
            let mut root = self.root.take().unwrap();
            let only = vacate(&mut *root, Ghost(h));
            if only.is_some() {
                self.height = self.height - 1;
            }
            self.root = only;
            assert(self@ =~= s);
            Some(root)
        } else {
            None
        }
    }

    /// Takes out the entry at a place that a lookup has found.
    fn take_place(&mut self, path: &Vec<usize>, idx: usize) -> (r: ((K, V), Leftover<K, V>))
        requires
            key_model::<K>(),
            old(self).wf(),
            old(self).root is Some,
            valid_path(*old(self).root->0, path@),
            idx < leaf_entries(*old(self).root->0, path@).len(),
        ensures
            final(self).wf(),
            final(self).lacks(r.1, *old(self), path@, idx as int),
            ({
                let at = leaf_start(*old(self).root->0, path@) + idx;
                &&& at < old(self)@.len()
                &&& r.0 == old(self)@[at]
                &&& final(self)@ == old(self)@.remove(at)
            }),
            final(self).height == old(self).height - if old(self).height > 0
                && old(self).root->0.count() == 1 && loses_key(*old(self).root->0, path@) {
                1int
            } else {
                0
            },
    {
        let ghost h = self.height as nat;
        proof {
            assert(path@.skip(0) =~= path@);
            lemma_path_len(*self.root->0, path@, h);
        }
        let mut steps: Vec<Step<K, V>> = Vec::new();
        let mut root = self.root.take().unwrap();
        let entry = remove_at(&mut *root, path, 0, idx, &mut steps);
        let ghost emptied = *root;
        self.root = Some(root);
        let root = self.post_removal();
        (entry, Leftover { steps, root, emptied: Ghost(emptied) })
    }

    /// Puts an entry back to where it was taken out, with the same key.
    fn put_back(
        &mut self,
        path: &Vec<usize>,
        idx: usize,
        entry: (K, V),
        left: Leftover<K, V>,
        Ghost(before): Ghost<Self>,
    )
        requires
            key_model::<K>(),
            before.wf(),
            before.root is Some,
            valid_path(*before.root->0, path@),
            idx < leaf_entries(*before.root->0, path@).len(),
            entry.0 == leaf_entries(*before.root->0, path@)[idx as int].0,
            old(self).lacks(left, before, path@, idx as int),
        ensures
            final(self).wf(),
            final(self)@ == before@.update(
                leaf_start(*before.root->0, path@) + idx,
                entry,
            ),
            before.same_shape(*final(self)),
    {
        let Leftover { mut steps, root, emptied } = left;
        let ghost root0 = *before.root->0;
        let ghost mut node = *self.root->0;
        if let Some(mut root) = root {
            let only = self.root.take();
            if only.is_some() {
                self.height = self.height + 1;
            }
            occupy(&mut *root, only);
            proof {
                node = *root;
                if node is Internal {
                    assert(node->edges@ =~= emptied@->edges@);
                    assert(node->keys@ =~= emptied@->keys@);
                } else {
                    assert(node.entries() =~= emptied@.entries());
                }
                lemma_removal_parts(node, emptied@, steps@, root0, path@, idx as int);
            }
            self.root = Some(root);
        }
        assert(*self.root->0 == node);
        proof {
            assert(path@.skip(0) =~= path@);
            lemma_layout_shape(root0, before.height as nat);
            lemma_leaf_entries(root0, path@);
        }
        match &mut self.root {
            Some(root) => {
                restore_at(&mut **root, path, 0, idx, entry, &mut steps, Ghost(root0));
            },
            None => {},
        }
        self.length = self.length + 1;
    }

    /// Removes the entry at a place that a lookup has found.
    fn remove_place(&mut self, path: &Vec<usize>, idx: usize) -> (entry: (K, V))
        requires
            key_model::<K>(),
            old(self).wf(),
            old(self).root is Some,
            valid_path(*old(self).root->0, path@),
            idx < leaf_entries(*old(self).root->0, path@).len(),
        ensures
            final(self).wf(),
            ({
                let at = leaf_start(*old(self).root->0, path@) + idx;
                &&& at < old(self)@.len()
                &&& entry == old(self)@[at]
                &&& final(self)@ == old(self)@.remove(at)
            }),
            final(self).height == old(self).height - if old(self).height > 0
                && old(self).root->0.count() == 1 && loses_key(*old(self).root->0, path@) {
                1int
            } else {
                0
            },
            old(self).can_spare(path@, idx as int) ==> old(self).differs_in_leaf(
                *final(self),
                path@,
                old(self).leaf(path@).remove(idx as int),
            ),
    {
        let (entry, left) = self.take_place(path, idx);
        proof {
            if old(self).can_spare(path@, idx as int) {
                let node = match left.root {
                    None => *self.root->0,
                    Some(_) => left.emptied@,
                };
                lemma_removal_quiet(
                    node,
                    left.steps@,
                    *old(self).root->0,
                    path@,
                    idx as int,
                    old(self).height as nat,
                );
            }
        }
        self.give_up(left, Ghost(*old(self)), Ghost(path@), Ghost(idx as int));
        entry
    }

    /// An entry of a leaf that is looked for is the one that a lookup finds.
    proof fn lemma_sought_place<Q: Probe<K>>(&self, key: Q)
        requires
            key_model::<K>(),
            lawful_probe(key),
            self.wf(),
        ensures
            forall|path: Seq<usize>, i: int| #[trigger]
                self.can_spare(path, i) && is_sought(self.leaf(path)[i].0, key) ==> lookup(
                    self@,
                    key,
                ) == Some(leaf_start(*self.root->0, path) + i),
    {
        self.lemma_sorted();
        assert forall|path: Seq<usize>, i: int| #[trigger]
            self.can_spare(path, i) && is_sought(self.leaf(path)[i].0, key) implies lookup(
            self@,
            key,
        ) == Some(leaf_start(*self.root->0, path) + i) by {
            lemma_leaf_entries(*self.root->0, path);
            lemma_lookup_found(self@, key, leaf_start(*self.root->0, path) + i);
        }
    }

    /// A place is known by its position.
    proof fn lemma_place(&self, path: Seq<usize>, idx: int)
        requires
            self.root is Some,
            valid_path(*self.root->0, path),
            0 <= idx < leaf_entries(*self.root->0, path).len(),
        ensures
            forall|other: Seq<usize>, i: int| #[trigger]
                self.can_spare(other, i) && leaf_start(*self.root->0, other) + i == leaf_start(
                    *self.root->0,
                    path,
                ) + idx ==> other == path && i == idx,
    {
        assert forall|other: Seq<usize>, i: int| #[trigger]
            self.can_spare(other, i) && leaf_start(*self.root->0, other) + i == leaf_start(
                *self.root->0,
                path,
            ) + idx implies other == path && i == idx by {
            lemma_place_unique(*self.root->0, path, idx, other, i);
        }
    }

    /// Removes the equivalent key and returns the actual key and value, if present.
    pub fn remove_key_value<Q: Probe<K>>(&mut self, key: &Q) -> (r: Option<(K, V)>)
        requires
            key_model::<K>(),
            lawful_probe(*key),
            old(self).wf(),
        ensures
            final(self).wf(),
            final(self)@ == removed(old(self)@, *key),
            forall|path: Seq<usize>, i: int|
                #[trigger] old(self).can_spare(path, i) && is_sought(
                    old(self).leaf(path)[i].0,
                    *key,
                ) ==> old(self).differs_in_leaf(
                    *final(self),
                    path,
                    old(self).leaf(path).remove(i),
                ),
            r == match lookup(old(self)@, *key) {
                Some(at) => Some(old(self)@[at]),
                None => None,
            },
    {
        proof {
            self.lemma_sought_place(*key);
        }
        match self.find(key) {
            Find::NoRoot => None,
            Find::Before { .. } => None,
            Find::At { path, idx } => {
                proof {
                    self.lemma_place(path@, idx as int);
                }
                Some(self.remove_place(&path, idx))
            },
        }
    }

    /// Removes the equivalent key and returns the value if present.
    pub fn remove<Q: Probe<K>>(&mut self, key: &Q) -> (r: Option<V>)
        requires
            key_model::<K>(),
            lawful_probe(*key),
            old(self).wf(),
        ensures
            final(self).wf(),
            final(self)@ == removed(old(self)@, *key),
            forall|path: Seq<usize>, i: int|
                #[trigger] old(self).can_spare(path, i) && is_sought(
                    old(self).leaf(path)[i].0,
                    *key,
                ) ==> old(self).differs_in_leaf(
                    *final(self),
                    path,
                    old(self).leaf(path).remove(i),
                ),
            r == match lookup(old(self)@, *key) {
                Some(at) => Some(old(self)@[at].1),
                None => None,
            },
    {
        match self.remove_key_value(key) {
            Some((_, val)) => Some(val),
            None => None,
        }
    }

    /// Removes the first key and value as long as the map isn't empty.
    pub fn pop_first(&mut self) -> (r: Option<(K, V)>)
        requires
            key_model::<K>(),
            old(self).wf(),
        ensures
            final(self).wf(),
            old(self)@.len() == 0 ==> r is None && final(self)@ == old(self)@,
            old(self)@.len() > 0 ==> r == Some(old(self)@[0]) && final(self)@
                == old(self)@.drop_first(),
    {
        let mut path: Vec<usize> = Vec::new();
        match &self.root {
            Some(root) => {
                first_leaf(root, &mut path, Ghost(self.height as nat));
                proof {
                    assert(path@.skip(0) =~= path@);
                    lemma_path_len(**root, path@, self.height as nat);
                }
            },
            None => {
                return None;
            },
        }
        let entry = self.remove_place(&path, 0);
        assert(old(self)@.remove(0) =~= old(self)@.drop_first());
        Some(entry)
    }

    /// Removes the last key and value as long as the map isn't empty.
    pub fn pop_last(&mut self) -> (r: Option<(K, V)>)
        requires
            key_model::<K>(),
            old(self).wf(),
        ensures
            final(self).wf(),
            old(self)@.len() == 0 ==> r is None && final(self)@ == old(self)@,
            old(self)@.len() > 0 ==> r == Some(old(self)@.last()) && final(self)@
                == old(self)@.drop_last(),
    {
        let mut path: Vec<usize> = Vec::new();
        let idx: usize = match &self.root {
            Some(root) => {
                last_leaf(root, &mut path, Ghost(self.height as nat));
                proof {
                    assert(path@.skip(0) =~= path@);
                    lemma_path_len(**root, path@, self.height as nat);
                }
                leaf_len(root, &path, 0) - 1
            },
            None => {
                return None;
            },
        };
        let entry = self.remove_place(&path, idx);
        assert(old(self)@.remove(old(self)@.len() - 1) =~= old(self)@.drop_last());
        Some(entry)
    }

    /// Transforms the value at the given key, inserting if we go from `None` to `Some` and removing
    /// if we go from `Some` to `None`. Also returns a value.
    ///
    /// The entry is out of the map while the function runs, so the key is gone if it panics. If it
    /// comes back, then to where it was: the tree keeps its shape.
    pub fn update_and_return<R>(
        &mut self,
        key: K,
        update: impl FnOnce(Option<V>) -> (Option<V>, R),
    ) -> (r: R)
        requires
            key_model::<K>(),
            old(self).wf(),
            update.requires((value_at(old(self)@, key),)),
            lookup(old(self)@, key) is None ==> old(self)@.len() < usize::MAX || forall|
                out: Option<V>,
                r: R,
            | #[trigger] update.ensures((None,), (out, r)) ==> out is None,
        ensures
            final(self).wf(),
            exists|out: Option<V>|
                #[trigger] update.ensures((value_at(old(self)@, key),), (out, r))
                    && final(self)@ == updated(old(self)@, key, out),
            final(self)@.len() == old(self)@.len() ==> old(self).same_shape(*final(self)),
    {
        let ghost s = self@;
        proof {
            lemma_key_probe(key);
            self.lemma_same_shape_refl();
        }
        match self.find(&key) {
            Find::NoRoot => {
                let (out, r) = update(None);
                if let Some(val) = out {
                    self.insert_root(key, val);
                }
                r
            },
            Find::Before { path, idx } => {
                proof {
                    lemma_rank_len(s, key);
                }
                let (out, r) = update(None);
                if let Some(val) = out {
                    self.insert_before(key, val, &path, idx);
                }
                r
            },
            Find::At { path, idx } => {
                let ghost before = *self;
                proof {
                    lemma_leaf_entries(*self.root->0, path@);
                }
                let ((actual, val), left) = self.take_place(&path, idx);
                let (out, r) = update(Some(val));
                match out {
                    Some(val) => {
                        self.put_back(&path, idx, (actual, val), left, Ghost(before));
                    },
                    None => {
                        self.give_up(left, Ghost(before), Ghost(path@), Ghost(idx as int));
                    },
                }
                r
            },
        }
    }

    /// Transforms the value at the given key, inserting if we go from `None` to `Some` and removing
    /// if we go from `Some` to `None`.
    ///
    /// The entry is out of the map while the function runs, so the key is gone if it panics. If it
    /// comes back, then to where it was: the tree keeps its shape.
    pub fn update(&mut self, key: K, update: impl FnOnce(Option<V>) -> Option<V>)
        requires
            key_model::<K>(),
            old(self).wf(),
            update.requires((value_at(old(self)@, key),)),
            lookup(old(self)@, key) is None ==> old(self)@.len() < usize::MAX || forall|
                out: Option<V>,
            | #[trigger] update.ensures((None,), out) ==> out is None,
        ensures
            final(self).wf(),
            update_outcome(old(self)@, key, update, final(self)@),
            final(self)@.len() == old(self)@.len() ==> old(self).same_shape(*final(self)),
    {
        let with_unit = |val: Option<V>| -> (pair: (Option<V>, ()))
            requires
                update.requires((val,)),
            ensures
                update.ensures((val,), pair.0),
        {
            (update(val), ())
        };
        self.update_and_return(key, with_unit)
    }
}

impl<'store, K: Ord + Clone, V> BTreeMap<'store, K, V> {
    /// Inserts key-value pairs into the map, one after the other.
    pub fn extend(&mut self, entries: Vec<(K, V)>)
        requires
            key_model::<K>(),
            old(self).wf(),
            ({
                ||| old(self)@.len() + entries@.len() <= usize::MAX
                ||| extended(old(self)@, entries@).len() <= usize::MAX
            }),
        ensures
            final(self).wf(),
            final(self)@ == extended(old(self)@, entries@),
    {
        let ghost all = entries@;
        proof {
            lemma_extended_len(self@, all, 0);
        }
        for (key, val) in it: entries
            invariant
                key_model::<K>(),
                self.wf(),
                it.seq() == all,
                self@ == extended(old(self)@, all.take(it.index() as int)),
                extended(old(self)@, all).len() <= usize::MAX,
        {
            proof {
                let more = all.take(it.index() + 1);
                assert(more.drop_last() =~= all.take(it.index() as int));
                lemma_extended_len(old(self)@, all, it.index() + 1);
                lemma_rank_len(self@, key);
            }
            self.insert(key, val);
        }
        assert(all.take(all.len() as int) =~= all);
    }
}

} // verus!
