//! Cursors: places of entries in a tree, and the steps from one to the next.

use crate::node::Node;
use crate::path::{
    entry_at, first_leaf, last_leaf, leaf_entries, leaf_len, leaf_start, lemma_leaf_entries,
    lemma_path_len, lemma_place_unique, next_leaf, prev_leaf, valid_path,
};
use vstd::prelude::*;

verus! {

/// The place of an entry: the path to its leaf and its index there.
pub struct Cursor {
    pub path: Vec<usize>,
    pub idx: usize,
}

impl Cursor {
    /// The cursor is at an entry of the tree.
    pub open spec fn attached<K, V>(&self, root: Node<K, V>) -> bool {
        &&& valid_path(root, self.path@)
        &&& self.idx < leaf_entries(root, self.path@).len()
    }

    /// The number of entries before the one that the cursor is at.
    pub open spec fn at<K, V>(&self, root: Node<K, V>) -> int {
        leaf_start(root, self.path@) + self.idx
    }

    /// A cursor at the first entry.
    pub fn new<K, V>(root: &Node<K, V>, Ghost(h): Ghost<nat>) -> (cursor: Self)
        requires
            root.shaped(h),
            root.count() >= 1,
        ensures
            cursor.attached(*root),
            cursor.at(*root) == 0,
    {
        let mut path: Vec<usize> = Vec::new();
        first_leaf(root, &mut path, Ghost(h));
        proof {
            assert(path@.skip(0) =~= path@);
            lemma_path_len(*root, path@, h);
        }
        Cursor { path, idx: 0 }
    }

    /// A cursor at the last entry.
    pub fn new_at_end<K, V>(root: &Node<K, V>, Ghost(h): Ghost<nat>) -> (cursor: Self)
        requires
            root.shaped(h),
            root.count() >= 1,
        ensures
            cursor.attached(*root),
            cursor.at(*root) == root.entries().len() - 1,
    {
        let mut path: Vec<usize> = Vec::new();
        last_leaf(root, &mut path, Ghost(h));
        proof {
            assert(path@.skip(0) =~= path@);
            lemma_path_len(*root, path@, h);
        }
        let idx: usize = leaf_len(root, &path, 0) - 1;
        Cursor { path, idx }
    }

    /// The entry that the cursor is at.
    pub fn key_value<'a, K, V>(&self, root: &'a Node<K, V>) -> (entry: (&'a K, &'a V))
        requires
            self.attached(*root),
        ensures
            0 <= self.at(*root) < root.entries().len(),
            *entry.0 == root.entries()[self.at(*root)].0,
            *entry.1 == root.entries()[self.at(*root)].1,
    {
        assert(self.path@.skip(0) =~= self.path@);
        let entry = entry_at(root, &self.path, 0, self.idx);
        (&entry.0, &entry.1)
    }

    /// The place `idx` of the leaf at the end of `path`, which may be one past its last entry:
    /// a cursor at the entry that comes next.
    pub fn normalize<K, V>(
        root: &Node<K, V>,
        path: Vec<usize>,
        idx: usize,
        Ghost(h): Ghost<nat>,
    ) -> (r: Option<Self>)
        requires
            root.shaped(h),
            root.count() >= 1,
            valid_path(*root, path@),
            idx <= leaf_entries(*root, path@).len(),
        ensures
            match r {
                Some(cursor) => {
                    &&& cursor.attached(*root)
                    &&& cursor.at(*root) == leaf_start(*root, path@) + idx
                },
                None => leaf_start(*root, path@) + idx == root.entries().len(),
            },
    {
        let mut path = path;
        let ghost path0 = path@;
        proof {
            assert(path0.skip(0) =~= path0);
            lemma_leaf_entries(*root, path0);
        }
        if idx < leaf_len(root, &path, 0) {
            Some(Cursor { path, idx })
        } else if next_leaf(root, &mut path, 0, Ghost(h)) {
            proof {
                assert(path@.skip(0) =~= path@);
                lemma_path_len(*root, path@, h);
            }
            Some(Cursor { path, idx: 0 })
        } else {
            None
        }
    }

    /// A cursor at the entry before the place `idx` of the leaf at the end of `path`.
    pub fn before<K, V>(
        root: &Node<K, V>,
        path: Vec<usize>,
        idx: usize,
        Ghost(h): Ghost<nat>,
    ) -> (r: Option<Self>)
        requires
            root.shaped(h),
            root.count() >= 1,
            valid_path(*root, path@),
            idx <= leaf_entries(*root, path@).len(),
        ensures
            match r {
                Some(cursor) => {
                    &&& cursor.attached(*root)
                    &&& cursor.at(*root) == leaf_start(*root, path@) + idx - 1
                },
                None => leaf_start(*root, path@) + idx == 0,
            },
    {
        let mut path = path;
        assert(path@.skip(0) =~= path@);
        if idx > 0 {
            Some(Cursor { path, idx: idx - 1 })
        } else if prev_leaf(root, &mut path, 0, Ghost(h)) {
            proof {
                assert(path@.skip(0) =~= path@);
                lemma_path_len(*root, path@, h);
            }
            let last: usize = leaf_len(root, &path, 0) - 1;
            Some(Cursor { path, idx: last })
        } else {
            None
        }
    }

    /// Moves to the next entry.
    pub fn advance<K, V>(&mut self, root: &Node<K, V>, Ghost(h): Ghost<nat>)
        requires
            root.shaped(h),
            root.count() >= 1,
            old(self).attached(*root),
            old(self).at(*root) + 1 < root.entries().len(),
        ensures
            final(self).attached(*root),
            final(self).at(*root) == old(self).at(*root) + 1,
    {
        let ghost path0 = self.path@;
        assert(path0.skip(0) =~= path0);
        let n: usize = leaf_len(root, &self.path, 0);
        if self.idx + 1 < n {
            self.idx = self.idx + 1;
        } else {
            next_leaf(root, &mut self.path, 0, Ghost(h));
            self.idx = 0;
            proof {
                assert(self.path@.skip(0) =~= self.path@);
                lemma_path_len(*root, self.path@, h);
            }
        }
    }

    /// Moves to the entry before.
    pub fn advance_back<K, V>(&mut self, root: &Node<K, V>, Ghost(h): Ghost<nat>)
        requires
            root.shaped(h),
            root.count() >= 1,
            old(self).attached(*root),
            old(self).at(*root) > 0,
        ensures
            final(self).attached(*root),
            final(self).at(*root) == old(self).at(*root) - 1,
    {
        let ghost path0 = self.path@;
        assert(path0.skip(0) =~= path0);
        if self.idx > 0 {
            self.idx = self.idx - 1;
        } else {
            prev_leaf(root, &mut self.path, 0, Ghost(h));
            proof {
                assert(self.path@.skip(0) =~= self.path@);
                lemma_path_len(*root, self.path@, h);
            }
            self.idx = leaf_len(root, &self.path, 0) - 1;
        }
    }

    /// Whether two cursors are at the same entry.
    pub fn same_place<K, V>(&self, other: &Cursor, Ghost(root): Ghost<Node<K, V>>) -> (r: bool)
        requires
            self.attached(root),
            other.attached(root),
        ensures
            r <==> self.at(root) == other.at(root),
    {
        proof {
            if self.at(root) == other.at(root) {
                lemma_place_unique(
                    root,
                    self.path@,
                    self.idx as int,
                    other.path@,
                    other.idx as int,
                );
            }
        }
        if self.idx != other.idx || self.path.len() != other.path.len() {
            return false;
        }
        let mut i: usize = 0;
        while i < self.path.len()
            invariant
                i <= self.path@.len(),
                self.path@.len() == other.path@.len(),
                forall|j: int| 0 <= j < i ==> self.path@[j] == other.path@[j],
                self.at(root) == other.at(root) ==> self.path@ == other.path@,
            decreases self.path@.len() - i,
        {
            if self.path[i] != other.path[i] {
                return false;
            }
            i = i + 1;
        }
        assert(self.path@ =~= other.path@);
        true
    }
}

} // verus!
