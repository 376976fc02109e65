//! The store that the nodes of a family of maps come from and go back to.

use crate::node::Node;
use vstd::cell::invcell::InvCell;
use vstd::predicate::Predicate;
use vstd::prelude::*;

verus! {

/// What the store keeps: nodes that hold neither keys, values nor edges.
pub struct VacantNodes;

impl<K, V> Predicate<Vec<Box<Node<K, V>>>> for VacantNodes {
    closed spec fn predicate(&self, pool: Vec<Box<Node<K, V>>>) -> bool {
        forall|i: int| 0 <= i < pool@.len() ==> (#[trigger] pool@[i]).vacant()
    }
}

/// A store of b-tree nodes, shared by any number of maps.
///
/// Nodes that a map gives up are kept here, and the next node that any map of the store
/// needs is taken from them before a new one is allocated.
pub struct BTreeStore<K, V> {
    pool: InvCell<Vec<Box<Node<K, V>>>, VacantNodes>,
}

impl<K, V> BTreeStore<K, V> {
    /// Creates a store without nodes.
    ///
    /// What a store keeps changes through shared references, so no contract speaks of it: that
    /// its nodes are vacant holds of every store by its type, and no map depends on how many
    /// there are.
    pub fn new() -> Self {
        BTreeStore { pool: InvCell::new(Vec::new(), Ghost(VacantNodes)) }
    }

    /// Puts `node` on the heap, in a node that was given back where there is one.
    pub(crate) fn take_in(&self, node: Node<K, V>) -> (boxed: Box<Node<K, V>>)
        ensures
            *boxed == node,
    {
        let mut pool = self.pool.replace(Vec::new());
        let taken = pool.pop();
        self.pool.replace(pool);
        match taken {
            Some(mut boxed) => {
                *boxed = node;
                boxed
            },
            None => Box::new(node),
        }
    }

    /// Takes back a node that is no longer part of a tree.
    pub(crate) fn give_back(&self, node: Box<Node<K, V>>)
        requires
            node.vacant(),
    {
        let mut pool = self.pool.replace(Vec::new());
        pool.push(node);
        self.pool.replace(pool);
    }

    /// Takes back nodes that are no longer part of a tree, one after the other.
    pub(crate) fn give_back_all(&self, nodes: Vec<Box<Node<K, V>>>)
        requires
            forall|i: int| 0 <= i < nodes@.len() ==> (#[trigger] nodes@[i]).vacant(),
    {
        let ghost all = nodes@;
        for node in it: nodes
            invariant
                it.seq() == all,
                forall|i: int| 0 <= i < all.len() ==> (#[trigger] all[i]).vacant(),
        {
            assert(node == all[it.index() as int]);
            self.give_back(node);
        }
    }
}

} // verus!
