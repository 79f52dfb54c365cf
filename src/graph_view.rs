//! Read-only queries that answer the same in either graph representation.
use vstd::prelude::*;
use crate::graph_spec::{count_nodes, has_edge, node_exists, present_nodes, refs_match, total_edges};

verus! {

/// Structural queries on a graph of nodes `N` and edge weights `W`, stated over
/// the graph's model: its node slots, the edge list of each slot, its root and
/// whether it is frozen.
pub trait GraphView<N, W> {
    /// The structural invariant.
    spec fn graph_inv(&self) -> bool;

    /// The node slots; an empty slot is a removed node.
    spec fn node_slots(&self) -> Seq<Option<N>>;

    /// The outgoing (target, weight) edges of each slot, in insertion order.
    spec fn edge_lists(&self) -> Seq<Seq<(usize, W)>>;

    /// The root node's index, if any.
    spec fn root_slot(&self) -> Option<usize>;

    /// True when the graph is in its frozen representation.
    spec fn frozen(&self) -> bool;

    fn is_frozen(&self) -> (r: bool)
        ensures
            r == self.frozen(),
    ;

    fn is_empty(&self) -> (r: bool)
        requires
            self.graph_inv(),
        ensures
            r == (count_nodes(self.node_slots()) == 0),
    ;

    fn contains_node(&self, index: usize) -> (r: bool)
        requires
            self.graph_inv(),
        ensures
            r == node_exists(self.node_slots(), index as int),
    ;

    fn get_node(&self, index: usize) -> (r: Option<&N>)
        requires
            self.graph_inv(),
        ensures
            r is Some == node_exists(self.node_slots(), index as int),
            r matches Some(n) ==> self.node_slots()[index as int] == Some(*n),
    ;

    fn number_nodes(&self) -> (r: usize)
        requires
            self.graph_inv(),
        ensures
            r as int == count_nodes(self.node_slots()),
    ;

    fn contains_edge(&self, a: usize, b: usize) -> (r: bool)
        requires
            self.graph_inv(),
        ensures
            r == has_edge(self.edge_lists(), a as int, b as int),
    ;

    fn number_edges(&self) -> (r: usize)
        requires
            self.graph_inv(),
        ensures
            r as int == total_edges(self.edge_lists()),
    ;

    /// References to all nodes, in index order.
    fn get_all_nodes(&self) -> (r: Vec<&N>)
        requires
            self.graph_inv(),
        ensures
            refs_match(r@, present_nodes(self.node_slots())),
    ;

    /// The outgoing edges of `source`, or `None` when it is not a node.
    fn get_edges(&self, source: usize) -> (r: Option<Vec<(usize, W)>>)
        requires
            self.graph_inv(),
        ensures
            r is Some <==> node_exists(self.node_slots(), source as int),
            r matches Some(l) ==> l@ == self.edge_lists()[source as int],
    ;

    /// The highest index that holds a node, if any.
    fn get_last_index(&self) -> (r: Option<usize>)
        requires
            self.graph_inv(),
        ensures
            r is None <==> forall|i: int| !node_exists(self.node_slots(), i),
            r matches Some(i) ==> node_exists(self.node_slots(), i as int)
                && forall|j: int| i < j ==> !node_exists(self.node_slots(), j),
    ;

    fn contains_root_node(&self) -> (r: bool)
        requires
            self.graph_inv(),
        ensures
            r == self.root_slot() is Some,
    ;

    fn get_root_node(&self) -> (r: Option<&N>)
        requires
            self.graph_inv(),
        ensures
            r is Some == self.root_slot() is Some,
            r matches Some(n) ==> self.node_slots()[self.root_slot().unwrap() as int] == Some(*n),
    ;

    fn get_root_index(&self) -> (r: Option<usize>)
        requires
            self.graph_inv(),
        ensures
            r == self.root_slot(),
    ;
}

} // verus!
