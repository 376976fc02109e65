//! Looking at a map as a tree.

use crate::compare::gather;
use crate::drawing::{
    drawn_marks, lemma_drawn_order, lemma_print_keys, lemma_print_leaves, lemma_print_levels,
    lemma_print_nodes, lemma_print_places, shows_nodes, well_linked, well_nested, well_placed,
};
use crate::faults::{
    has_fault, in_walk_order, lemma_found, lemma_tree_contains, lemma_tree_walk,
    lemma_walk_distinct,
};
use crate::map::BTreeMap;
use crate::marks::lemma_same_layout_marks;
use crate::node::{lemma_entries_len, lemma_entries_min, M};
use crate::order::{fixed_order, key_le, key_lt, total_order};
use crate::print::{
    drawing, entry_lines, lemma_leaf_lines, lemma_printed, lemma_tree_same_lines, print_tree,
    printed, same_lines, shown, tree_lines, Line,
};
use crate::validate::{
    finds, lemma_tree_defects, lemma_tree_shape, tree_defects, validate_tree, views, Defect, Fault,
};
use crate::values::{lemma_same_layout_entries, same_keys};
use vstd::prelude::*;

verus! {

impl<'store, K: Ord, V> BTreeMap<'store, K, V> {
    /// What is wrong with the tree, in the order in which a walk from left to right comes upon
    /// it.
    pub closed spec fn defects(&self) -> Seq<(Seq<usize>, Fault)> {
        tree_defects(self.root, self.length, self.height)
    }

    /// The map is well-formed exactly if nothing is wrong with it.
    pub proof fn lemma_defects(&self)
        requires
            total_order::<K>(),
        ensures
            self.wf() <==> self.defects().len() == 0,
    {
        lemma_tree_defects(self.root, self.length, self.height);
    }

    /// Validates the map, and returns what is wrong with it if it is invalid. Specifically, we
    /// check that the number of entries in each node is within the b-tree invariant bounds, and
    /// that the keys are in order.
    ///
    /// Ideally, this should always find nothing.
    pub fn validate(&self) -> (r: Result<(), Vec<Defect>>)
        ensures
            finds::<K>(
                match r {
                    Ok(_) => Seq::empty(),
                    Err(defects) => views(defects@),
                },
                self.defects(),
            ),
            r matches Err(defects) ==> defects@.len() > 0,
            r is Ok ==> self.well_shaped(),
            total_order::<K>() ==> (r is Ok <==> self.wf()),
    {
        let defects = validate_tree(&self.root, self.length, self.height);
        proof {
            lemma_tree_shape(self.root, self.length, self.height);
            if total_order::<K>() {
                self.lemma_defects();
            }
            if defects@.len() == 0 {
                assert(views(defects@) =~= Seq::empty());
                reveal(Seq::filter);
            }
        }
        if defects.len() == 0 {
            Ok(())
        } else {
            Err(defects)
        }
    }
}

impl<'store, K: Ord, V> BTreeMap<'store, K, V> {
    /// What validation finds of a map: of every node exactly the faults that it has, each of them
    /// once, in the order in which a walk from left to right comes upon them, and nothing if there
    /// are none. Where keys do not keep to a fixed order, this is so of all faults but those of
    /// order.
    pub proof fn law_validate(
        &self,
        r: Result<(), Vec<Defect>>,
        path: Seq<usize>,
        fault: Fault,
    )
        requires
            call_ensures(BTreeMap::<'store, K, V>::validate, (self,), r),
        ensures
            ({
                let found = match r {
                    Ok(_) => Seq::empty(),
                    Err(defects) => Seq::new(
                        defects@.len(),
                        |i: int| (defects@[i].path@, defects@[i].fault),
                    ),
                };
                &&& r is Err ==> found.len() > 0
                &&& fixed_order::<K>() || !(fault is KeyOutOfOrder) ==> (found.contains(
                    (path, fault),
                ) <==> has_fault(
                    self.tree(),
                    self.recorded_len(),
                    self.recorded_height(),
                    path,
                    fault,
                ))
                &&& fixed_order::<K>() ==> in_walk_order(found, 0) && found.no_duplicates()
            }),
    {
        let found = match r {
            Ok(_) => Seq::empty(),
            Err(defects) => views(defects@),
        };
        if let Err(defects) = r {
            assert(found =~= Seq::new(
                defects@.len(),
                |i: int| (defects@[i].path@, defects@[i].fault),
            ));
        }
        lemma_found(found, self.defects(), path, fault);
        lemma_tree_contains(self.root, self.length, self.height, path, fault);
        lemma_tree_walk(self.root, self.length, self.height);
        if fixed_order::<K>() {
            lemma_walk_distinct(found);
        }
    }

    /// In what is printed of a well-formed map, the keys of the entries increase from top to
    /// bottom, and so do those between the edges. Such a key comes after every entry above it, and
    /// after none below it.
    pub proof fn law_print_order<'a>(&self, lines: Vec<Line<&'a K, &'a V>>)
        requires
            self.wf(),
            call_ensures(BTreeMap::<'store, K, V>::print, (self,), lines),
        ensures
            forall|i: int, j: int|
                #![trigger lines@[i], lines@[j]]
                0 <= i < j < lines@.len() ==> match (lines@[i], lines@[j]) {
                    (Line::Entry { key: x, .. }, Line::Entry { key: y, .. }) => key_lt(*x, *y),
                    (Line::Entry { key: x, .. }, Line::Separator { key: y, .. }) => key_lt(*x, *y),
                    (Line::Separator { key: x, .. }, Line::Entry { key: y, .. }) => key_le(*x, *y),
                    (Line::Separator { key: x, .. }, Line::Separator { key: y, .. }) => key_lt(
                        *x,
                        *y,
                    ),
                    _ => true,
                },
    {
        self.law_print(lines);
        let drawn = drawing(lines@);
        assert(drawn.len() == lines@.len());
        lemma_drawn_order(drawn);
        assert forall|i: int, j: int|
            #![trigger lines@[i], lines@[j]]
            0 <= i < j < lines@.len() implies match (lines@[i], lines@[j]) {
            (Line::Entry { key: x, .. }, Line::Entry { key: y, .. }) => key_lt(*x, *y),
            (Line::Entry { key: x, .. }, Line::Separator { key: y, .. }) => key_lt(*x, *y),
            (Line::Separator { key: x, .. }, Line::Entry { key: y, .. }) => key_le(*x, *y),
            (Line::Separator { key: x, .. }, Line::Separator { key: y, .. }) => key_lt(*x, *y),
            _ => true,
        } by {
            assert(drawn[i] == shown(lines@[i]));
            assert(drawn[j] == shown(lines@[j]));
        }
    }
}

impl<'store, K, V> BTreeMap<'store, K, V> {
    /// The entries of the map, whether it is well-formed or not.
    pub(crate) fn entries(&self) -> (entries: Vec<&(K, V)>)
        ensures
            entries@.unref() == self@,
    {
        gather(self.root_node())
    }

    /// The drawing of the b-tree, line by line.
    pub closed spec fn lines(&self) -> Seq<Line<K, V>> {
        tree_lines(self.root)
    }

    /// The drawing of a map of fewer than `M` entries: they are all in one leaf.
    pub proof fn lemma_small_lines(&self)
        requires
            self.well_shaped(),
            self@.len() < M,
        ensures
            self.lines() == if self@.len() == 0 {
                seq![Line::<K, V>::Empty]
            } else {
                seq![Line::Leaf { depth: 0, parent: None, prev: None, next: None }]
                    + entry_lines(self@, 0)
            },
    {
        if let Some(root) = self.root {
            lemma_entries_len(*root, self.height as nat);
            lemma_entries_min(*root, self.height as nat);
            lemma_leaf_lines(*root);
        }
    }

    /// Maps of the same shape have the same keys and, apart from the values, the same drawing.
    pub proof fn lemma_same_shape(&self, other: Self)
        requires
            self.same_shape(other),
        ensures
            same_lines(self.lines(), other.lines()),
            self.marks() == other.marks(),
            same_keys(self@, other@),
    {
        if let (Some(a), Some(b)) = (self.root, other.root) {
            lemma_tree_same_lines(*a, *b);
            lemma_same_layout_marks(*a, *b);
            lemma_same_layout_entries(*a, *b);
        }
    }

    /// What is printed of a map. Every node but the root names its parent, one level further out,
    /// and the edge that leads from there to it, counted from 0. Every leaf names the leaves next
    /// to it. The lines show the nodes of the tree, all keys from left to right, and all entries in
    /// order, and every line is followed by one that may follow it.
    pub proof fn law_print<'a>(&self, lines: Vec<Line<&'a K, &'a V>>)
        requires
            call_ensures(BTreeMap::<'store, K, V>::print, (self,), lines),
        ensures
            well_placed(lines@),
            well_linked(lines@),
            drawn_marks(drawing(lines@)) == self.marks(),
            printed(drawing(lines@)) == self@,
            self.tree() matches Some(root) ==> shows_nodes(lines@, *root),
            self.well_shaped() ==> if self@.len() == 0 {
                lines@ == seq![Line::<&'a K, &'a V>::Empty]
            } else {
                well_nested(lines@)
            },
    {
        assert(lines@.len() == lines.len());
        lemma_print_places(self.root, lines@);
        lemma_print_leaves(self.root, lines@);
        lemma_print_keys(self.root, lines@);
        lemma_printed(self.root);
        if let Some(root) = self.root {
            lemma_print_nodes(root, lines@);
        }
        if self.well_shaped() {
            match self.root {
                Some(root) => {
                    lemma_entries_len(*root, self.height as nat);
                    lemma_print_levels(root, lines@, self.height);
                },
                None => {
                    assert(drawing(lines@).len() == lines@.len());
                    assert(shown(lines@[0]) == drawing(lines@)[0]);
                    assert(lines@ =~= seq![Line::<&'a K, &'a V>::Empty]);
                },
            }
        }
    }

    /// Prints the b-tree in ascii: a line for each node, followed by lines for its entries or for
    /// its keys and the nodes below it.
    pub fn print(&self) -> (lines: Vec<Line<&K, &V>>)
        ensures
            drawing(lines@) == self.lines(),
            printed(drawing(lines@)) == self@,
            self.well_shaped() && self@.len() == 0 ==> drawing(lines@) == seq![
                Line::<K, V>::Empty,
            ],
    {
        proof {
            lemma_printed(self.root);
            if self.root is Some && self.well_shaped() {
                lemma_entries_len(*self.root->0, self.height as nat);
            }
        }
        print_tree(&self.root)
    }
}

} // verus!
