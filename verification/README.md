# A verified b-tree map

`BTreeMap` is an ordered map that keeps its entries in a b-tree. Its nodes come from a
`BTreeStore`, which any number of maps can share: nodes that one map gives up are kept there for
the next one that needs some.

Every function of the library is verified with [Verus](https://github.com/verus-lang/verus). What
a store keeps changes through shared references, so the use of nodes a second time lies outside
the contracts: they say which nodes an operation empties, that what goes back to a store holds
nothing, and that what comes from it holds what was asked for.

## Layout

- `src/` is the library. `map.rs` and the files under `map/` hold the map and its methods,
  `model.rs` and `range.rs` say what these do in terms of the sequence of entries, and `laws.rs`
  holds what follows for the map as a whole.
- `src/node.rs`, `path.rs`, `marks.rs` and `values.rs` describe the tree: its shape, the order of
  its keys, and the places in it.
- `src/search.rs`, `grow.rs`, `shrink.rs`, `undo.rs`, `drain.rs` and `collect.rs` work on it:
  looking up, inserting, removing, taking a removal back, taking apart, and handing out the values
  for change.
- `src/iter.rs`, `iter_mut.rs` and `drain.rs` hold the iterators; `validate.rs`, `print.rs` and
  `compare.rs` look at whole trees.
- `app/` wraps the map with the traits of the standard library, such as `Iterator`, `Debug` and
  `Hash`, and lets keys be looked up by what they can be borrowed as.
- `tests/` runs it all on concrete values.

## What is asked of keys

The methods that look keys up ask for a total order (`total_order`), and those that insert or
remove also ask that cloning a key yields an equivalent one (`key_model`). Both hold of the
integers without further ado.
