use vstd::prelude::*;

verus! {

/// Errors reported by the graph storage engine.
#[derive(Debug, Clone, Copy, PartialEq, Eq, Structural)]
pub enum GraphError {
    /// An algorithm was invoked on a graph that has not been frozen.
    GraphNotFrozen,
    /// A mutation was attempted on a frozen graph.
    GraphIsFrozen,
    /// The given node index does not refer to a node of the graph.
    NodeNotFound(usize),
    /// The edge between the two nodes is already present.
    EdgeAlreadyExists(usize, usize),
    /// There is no edge between the two nodes.
    EdgeNotFound(usize, usize),
    /// The graph already holds a root node.
    RootNodeAlreadyExists,
    /// The graph holds no node.
    GraphIsEmpty,
    /// The edge counter cannot grow any further.
    EdgeCountOverflow,
}

} // verus!
