//! The b-tree map.

mod change;
mod inspect;
mod lookup;
mod traverse;

use crate::marks::{
    in_order, lemma_marks_ordered, lemma_ordered_marks, lemma_same_layout_marks, Mark,
};
use crate::node::{lemma_entries_len, lemma_ordered_sorted, sorted, M, Node};
use crate::order::total_order;
use crate::path::{leaf_entries, replaced, valid_path};
use crate::search::fits;
use crate::store::BTreeStore;
use crate::values::{
    lemma_same_layout_entries, lemma_same_layout_refl, lemma_same_layout_shaped, same_layout,
};
use vstd::prelude::*;

verus! {

/// A b-tree map.
///
/// See [std::collections::BTreeMap] for more info.
pub struct BTreeMap<'store, K, V> {
    store: &'store BTreeStore<K, V>,
    root: Option<Box<Node<K, V>>>,
    length: usize,
    height: usize,
}

impl<'store, K, V> View for BTreeMap<'store, K, V> {
    type V = Seq<(K, V)>;

    /// The entries of the map, in the order of their keys.
    closed spec fn view(&self) -> Seq<(K, V)> {
        match self.root {
            Some(root) => root.entries(),
            None => Seq::empty(),
        }
    }
}

impl<'store, K, V> BTreeMap<'store, K, V> {
    /// The nodes form a b-tree: all leaves are at the same depth, no node holds too many or
    /// too few entries, and the number of entries is recorded.
    pub closed spec fn well_shaped(&self) -> bool {
        match self.root {
            Some(root) => {
                &&& root.shaped(self.height as nat)
                &&& root.count() >= 1
                &&& self.length == root.entries().len()
            },
            None => self.length == 0 && self.height == 0,
        }
    }

    /// All keys in the tree, from left to right: those of the entries, and those in the internal
    /// nodes that guide a lookup. Changing values leaves them as they are.
    pub closed spec fn marks(&self) -> Seq<Mark<K>> {
        match self.root {
            Some(root) => root.marks(),
            None => Seq::empty(),
        }
    }

    /// The maps have the same nodes with the same keys, and differ in values at most.
    pub closed spec fn same_shape(&self, other: Self) -> bool {
        &&& self.height == other.height
        &&& match (self.root, other.root) {
            (Some(a), Some(b)) => same_layout(*a, *b),
            (None, None) => true,
            _ => false,
        }
    }

    /// The tree that holds the entries.
    pub closed spec fn tree(&self) -> Option<Box<Node<K, V>>> {
        self.root
    }

    /// The number of entries that is recorded.
    pub closed spec fn recorded_len(&self) -> usize {
        self.length
    }

    /// The number of levels below the root that is recorded.
    pub closed spec fn recorded_height(&self) -> usize {
        self.height
    }

    /// The entries of the leaf that `path` leads to.
    pub open spec fn leaf(&self, path: Seq<usize>) -> Seq<(K, V)> {
        match self.tree() {
            Some(root) => leaf_entries(*root, path),
            None => Seq::empty(),
        }
    }

    /// `path` leads to a leaf.
    pub open spec fn leads_to_leaf(&self, path: Seq<usize>) -> bool {
        self.tree() matches Some(root) && valid_path(*root, path)
    }

    /// The leaf that `path` leads to can do without one of its entries.
    pub open spec fn can_spare(&self, path: Seq<usize>, i: int) -> bool {
        &&& self.leads_to_leaf(path)
        &&& 0 <= i < self.leaf(path).len()
        &&& self.leaf(path).len() > if path.len() == 0 {
            1
        } else {
            (M / 2) as nat
        }
    }

    /// `other` is the same tree, except that the leaf that `path` leads to holds `entries`.
    pub open spec fn differs_in_leaf(
        &self,
        other: Self,
        path: Seq<usize>,
        entries: Seq<(K, V)>,
    ) -> bool {
        &&& self.tree() matches Some(a)
        &&& other.tree() matches Some(b)
        &&& replaced(*a, *b, path, entries)
    }

    /// What the map is, in terms of its tree.
    pub proof fn lemma_tree(&self)
        ensures
            self@ == match self.tree() {
                Some(root) => root.entries(),
                None => Seq::empty(),
            },
            self.marks() == match self.tree() {
                Some(root) => root.marks(),
                None => Seq::empty(),
            },
            self.well_shaped() <==> match self.tree() {
                Some(root) => {
                    &&& root.shaped(self.recorded_height() as nat)
                    &&& root.count() >= 1
                    &&& self.recorded_len() == root.entries().len()
                },
                None => self.recorded_len() == 0 && self.recorded_height() == 0,
            },
    {
    }

    /// Creates an empty `BTreeMap`.
    pub fn new_in(store: &'store BTreeStore<K, V>) -> (map: Self)
        ensures
            map.well_shaped(),
            map.marks() == Seq::<Mark<K>>::empty(),
            map@ == Seq::<(K, V)>::empty(),
    {
        BTreeMap { store, root: None, length: 0, height: 0 }
    }

    /// Returns the number of elements in the map.
    pub fn len(&self) -> (n: usize)
        requires
            self.well_shaped(),
        ensures
            n == self@.len(),
    {
        self.length
    }

    /// Returns `true` if the map contains no elements.
    pub fn is_empty(&self) -> (r: bool)
        requires
            self.well_shaped(),
        ensures
            r <==> self@.len() == 0,
    {
        proof {
            if self.root is Some {
                lemma_entries_len(*self.root->0, self.height as nat);
            }
        }
        self.root.is_none()
    }

    proof fn lemma_same_shape_refl(&self)
        ensures
            self.same_shape(*self),
    {
        if let Some(root) = self.root {
            lemma_same_layout_refl(*root);
        }
    }

    fn root_node(&self) -> (node: Option<&Node<K, V>>)
        ensures
            match node {
                Some(node) => self.root is Some && *node == *self.root->0,
                None => self.root is None,
            },
    {
        match &self.root {
            Some(root) => Some(&**root),
            None => None,
        }
    }
}

impl<'store, K: Ord, V> BTreeMap<'store, K, V> {
    /// The map is a b-tree and its keys are in order, in the leaves and above them.
    pub open spec fn wf(&self) -> bool {
        self.well_shaped() && in_order(self.marks())
    }

    /// `key` belongs at place `i` of the leaf that `path` leads to, and there is room for it.
    pub open spec fn has_room(&self, path: Seq<usize>, i: int, key: K) -> bool {
        &&& self.leads_to_leaf(path)
        &&& 0 <= i <= self.leaf(path).len() < M
        &&& self.tree() matches Some(root)
        &&& fits(*root, path, i, key)
    }

    /// The same, said of the tree level by level.
    spec fn ordered_tree(&self) -> bool {
        &&& self.well_shaped()
        &&& self.root matches Some(root) ==> root.ordered()
    }

    /// The entries of a map are in the order of their keys, and no two keys are equivalent.
    pub proof fn lemma_sorted(&self)
        requires
            total_order::<K>(),
            self.wf(),
        ensures
            sorted(self@),
    {
        lemma_wf_tree(*self);
        if let Some(root) = self.root {
            lemma_ordered_sorted(*root, self.height as nat);
        }
    }
}

/// The keys of a b-tree are in order from left to right exactly if they are so level by level.
broadcast proof fn lemma_wf_tree<'store, K: Ord, V>(map: BTreeMap<'store, K, V>)
    requires
        total_order::<K>(),
    ensures
        #![trigger map.wf()]
        #![trigger map.ordered_tree()]
        map.wf() <==> map.ordered_tree(),
{
    if map.well_shaped() && map.root is Some {
        if map.ordered_tree() {
            lemma_ordered_marks(*map.root->0, map.height as nat);
        }
        if map.wf() {
            lemma_marks_ordered(*map.root->0, map.height as nat);
        }
    }
}

/// A tree keeps its shape under changes that keep its layout.
proof fn lemma_layout_shape<K, V>(root: Node<K, V>, h: nat)
    requires
        root.shaped(h),
    ensures
        forall|node: Node<K, V>|
            #[trigger] same_layout(root, node) ==> {
                &&& node.shaped(h)
                &&& node.marks() == root.marks()
                &&& node.count() == root.count()
                &&& node.entries().len() == root.entries().len()
            },
{
    assert forall|node: Node<K, V>| #[trigger] same_layout(root, node) implies {
        &&& node.shaped(h)
        &&& node.marks() == root.marks()
        &&& node.count() == root.count()
        &&& node.entries().len() == root.entries().len()
    } by {
        lemma_same_layout_marks(root, node);
        lemma_same_layout_shaped(root, node, h);
        lemma_same_layout_entries(root, node);
    }
}

} // verus!
