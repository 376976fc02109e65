//! A b-tree map whose nodes come from a store that any number of maps share.
//!
//! A map is, in its contracts, the sequence of its entries in the order of their keys (`map@`).
//! What the operations do to that sequence is said by the functions of the model (`lookup`,
//! `inserted`, `removed`, `range_entries` and others), and what follows from it for the map as a
//! whole stands in [laws]. What the calls themselves do, entry by entry, stands in [effects].

mod collect;
mod compare;
mod cursor;
mod drain;
mod drawing;
pub mod effects;
mod faults;
mod grow;
mod iter;
mod iter_mut;
pub mod laws;
mod map;
mod marks;
mod model;
mod node;
mod order;
mod path;
mod print;
mod range;
mod search;
mod shrink;
mod store;
mod undo;
mod validate;
mod values;

pub use compare::{
    entry_order, entry_partial_order, law_compare, law_compare_first_difference,
    law_compare_maps, law_compare_swapped, law_partial_compare_first_difference,
    law_partial_compare_maps, order, partial_order, same_entries,
};
pub use drain::IntoIter;
pub use drawing::{
    begins, child_of, children_before, depth_of, drawn_marks, ends, follows, law_print_tree,
    one_deeper, parent_of, path_of, shows_nodes, well_linked, well_nested, well_placed,
};
pub use faults::{
    broken, comes_before, fault_rank, has_fault, has_key, in_walk_order, law_validate_tree,
    marks_before, own_marks_before,
};
pub use iter::{Iter, Keys, Values};
pub use iter_mut::{group_released, IterMut, RangeMut, RangeValuesMut, ValuesMut};
pub use map::BTreeMap;
pub use marks::{in_order, precedes, Mark};
pub use model::{
    extended, inserted, lookup, rank, rank_after, removed, update_outcome, updated, value_at,
};
pub use node::{sorted, Node, M};
pub use order::{
    clone_keeps_order, fixed_order, is_after, is_before, is_sought, key_eq, key_le, key_lt,
    key_model, lawful_probe, lemma_key_probe, lemma_lawful_total_order, total_order, Probe,
    Relation,
};
pub use path::{leaf_entries, node_at, on_the_way, replaced, valid_path};
pub use print::{
    drawing, entry_lines, print_tree, printed, same_line, same_lines, shown, tree_lines, Line,
};
pub use range::{
    in_range, lawful_bound, range_entries, range_start, range_stop, Bound, Range, RangeKeys,
    RangeValues,
};
pub use search::fits;
pub use store::BTreeStore;
pub use validate::{apart_from_order, finds, tree_defects, validate_tree, views, Defect, Fault};
pub use values::same_keys;
