//! A list of nodes together with the source they were taken from.

use vstd::prelude::*;

verus! {

/// A collection of nodes of one source text.
pub struct Collection<T> {
    nodes: Vec<T>,
    source: String,
}

impl<T> Collection<T> {
    /// The nodes that the collection holds, in order.
    pub closed spec fn nodes(&self) -> Seq<T> {
        self.nodes@
    }

    /// The source text that the nodes were taken from.
    pub closed spec fn source(&self) -> Seq<char> {
        self.source@
    }

    /// A collection of `nodes` taken from `source`.
    pub fn new(nodes: Vec<T>, source: String) -> (collection: Self)
        ensures
            collection.nodes() == nodes@,
            collection.source() == source@,
    {
        Self { nodes, source }
    }

    /// How many nodes the collection holds.
    pub fn len(&self) -> (n: usize)
        ensures
            n == self.nodes().len(),
    {
        self.nodes.len()
    }

    /// Whether the collection holds no node.
    pub fn is_empty(&self) -> (empty: bool)
        ensures
            empty == (self.nodes().len() == 0),
    {
        self.nodes.is_empty()
    }
}

} // verus!
