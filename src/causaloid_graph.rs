//! A graph of causal nodes with a root, activation aggregates, and reasoning
//! over the whole graph, a single node, a reachable subgraph or a shortest path.
use vstd::prelude::*;
use std::collections::HashMap;
use crate::causaloid::Causable;
use crate::collection::{evaluated_as, Outcome};
use crate::effect::{effect_is_active, CausalityError, IdentificationValue, NumericalValue, PropagatingEffect, UNIT};
use crate::text::{decimal, push_decimal, push_str, string_from_chars};
use crate::errors::GraphError;
use crate::graph_spec::{
    count_nodes, has_edge, has_weighted_edge, is_canonical_shortest_path, lemma_selected, lemma_shortest_path_distinct, node_evaluated,
    node_exists, reachable, selected, total_edges,
};
use crate::graph_view::GraphView;
use crate::ultra_graph::UltraGraphContainer;

verus! {

/// Number of occupied slots whose node is active.
pub open spec fn active_count<T: Causable>(nodes: Seq<Option<T>>) -> int
    decreases nodes.len(),
{
    if nodes.len() == 0 {
        0
    } else {
        active_count(nodes.drop_last()) + match nodes.last() {
            Some(n) => if n.active() { 1int } else { 0int },
            None => 0int,
        }
    }
}

/// Every node of the slots satisfies its own invariant.
pub open spec fn nodes_inv<T: Causable>(nodes: Seq<Option<T>>) -> bool {
    forall|i: int| 0 <= i < nodes.len() && #[trigger] nodes[i] is Some ==> nodes[i].unwrap().causable_inv()
}

/// Where the observation for node `i` sits in the data: at `i` itself, or
/// where the index map sends `i`.
pub open spec fn data_position(i: int, map: Option<Map<usize, usize>>) -> Option<int> {
    match map {
        None => Some(i),
        Some(m) => if m.contains_key(i as usize) { Some(m[i as usize] as int) } else { None },
    }
}

/// The data hold an observation for node `i`.
pub open spec fn has_data(i: int, data: Seq<NumericalValue>, map: Option<Map<usize, usize>>) -> bool {
    data_position(i, map) matches Some(p) && 0 <= p < data.len()
}

/// The effect node `i` is evaluated on: its observation.
pub open spec fn input_for(i: int, data: Seq<NumericalValue>, map: Option<Map<usize, usize>>) -> PropagatingEffect {
    PropagatingEffect::Numerical(data[data_position(i, map).unwrap()])
}

/// The view of an optional index map.
pub open spec fn map_view(data_index: Option<&HashMap<usize, usize>>) -> Option<Map<usize, usize>> {
    match data_index {
        Some(m) => Some(m@),
        None => None,
    }
}

/// The observation of each node of `order`, as the effect it is evaluated on.
pub open spec fn reason_inputs(order: Seq<usize>, data: Seq<NumericalValue>, map: Option<Map<usize, usize>>) -> Seq<PropagatingEffect> {
    Seq::new(order.len(), |k: int| input_for(order[k] as int, data, map))
}

/// The nodes `order[..outs.len()]` were evaluated, node `order[k]` on
/// `inputs[k]`, with outcomes `outs`; every other slot is untouched.
pub open spec fn slots_chain<T: Causable>(
    olds: Seq<Option<T>>,
    news: Seq<Option<T>>,
    order: Seq<usize>,
    inputs: Seq<PropagatingEffect>,
    outs: Seq<Outcome>,
) -> bool {
    &&& news.len() == olds.len()
    &&& outs.len() <= order.len()
    &&& forall|k: int| 0 <= k < outs.len() ==> news[#[trigger] order[k] as int] is Some && evaluated_as(
        olds[order[k] as int].unwrap(),
        news[order[k] as int].unwrap(),
        inputs[k],
        outs[k],
    )
    &&& forall|j: int| 0 <= j < olds.len() && !order.take(outs.len() as int).contains(j as usize) ==> #[trigger] news[j] == olds[j]
}

/// Reasoning goes on past a node only when it evaluated to an active effect.
pub open spec fn reason_continues(o: Outcome) -> bool {
    o matches Ok(e) && effect_is_active(Some(e))
}

/// Reasoning over `order` evaluated exactly the nodes up to the first that
/// did not come out active, and `r` is read off the last outcome.
pub open spec fn reason_result(outs: Seq<Outcome>, n: int, r: Result<bool, CausalityError>) -> bool {
    &&& forall|k: int| 0 <= k < outs.len() - 1 ==> reason_continues(#[trigger] outs[k])
    &&& outs.len() < n ==> outs.len() >= 1 && !reason_continues(outs.last())
    &&& if outs.len() == 0 || reason_continues(outs.last()) {
        r == Ok::<bool, CausalityError>(true)
    } else {
        match outs.last() {
            Ok(_) => r == Ok::<bool, CausalityError>(false),
            Err(e) => r == Err::<bool, CausalityError>(e),
        }
    }
}

/// What reasoning over the nodes of `order` did: when one of them has no
/// observation it failed and evaluated nothing; otherwise it evaluated them in
/// order up to the first that did not come out active.
pub open spec fn reasoned_over<T: Causable>(
    olds: Seq<Option<T>>,
    news: Seq<Option<T>>,
    order: Seq<usize>,
    data: Seq<NumericalValue>,
    map: Option<Map<usize, usize>>,
    r: Result<bool, CausalityError>,
) -> bool {
    &&& (exists|k: int| 0 <= k < order.len() && !has_data(#[trigger] order[k] as int, data, map)) ==> r is Err && news == olds
    &&& (forall|k: int| 0 <= k < order.len() ==> has_data(#[trigger] order[k] as int, data, map))
        ==> exists|outs: Seq<Outcome>| slots_chain(olds, news, order, reason_inputs(order, data, map), outs)
            && #[trigger] reason_result(outs, order.len() as int, r)
}

/// Single-node reasoning reports whether the node came out active, or its failure.
pub open spec fn single_result(o: Outcome, r: Result<bool, CausalityError>) -> bool {
    match o {
        Ok(e) => r == Ok::<bool, CausalityError>(effect_is_active(Some(e))),
        Err(e) => r == Err::<bool, CausalityError>(e),
    }
}

/// The message for an index that holds no node.
pub open spec fn not_found_message(index: usize) -> Seq<char> {
    "Causaloid with index "@ + decimal(index as nat) + " not found in graph"@
}

/// Which slots hold a node.
pub open spec fn present_flags<T>(nodes: Seq<Option<T>>) -> Seq<bool> {
    Seq::new(nodes.len(), |i: int| nodes[i] is Some)
}

/// Which slots a walk from `start` reaches.
pub open spec fn reach_flags<T>(nodes: Seq<Option<T>>, adj: Seq<Seq<(usize, u64)>>, start: int) -> Seq<bool> {
    Seq::new(nodes.len(), |v: int| reachable(nodes, adj, start, v))
}

/// The messages of the errors that reasoning raises itself.
pub open spec fn empty_graph_message() -> Seq<char> {
    "graph is empty"@
}

pub open spec fn not_frozen_message() -> Seq<char> {
    "graph is not frozen"@
}

pub open spec fn no_path_message() -> Seq<char> {
    "no path between the causaloids"@
}

pub open spec fn empty_data_message() -> Seq<char> {
    "data are empty"@
}

/// The explanation of a graph: one line per node, in index order.
pub open spec fn graph_explanation<T: Causable>(nodes: Seq<Option<T>>) -> Seq<char>
    decreases nodes.len(),
{
    if nodes.len() == 0 {
        Seq::empty()
    } else {
        graph_explanation(nodes.drop_last()) + match nodes.last() {
            Some(n) => if n.active() { "\n * "@ + n.explanation() + "\n"@ } else { Seq::empty() },
            None => Seq::empty(),
        }
    }
}

/// The failure message of the first node, from slot `i` on, that cannot be explained.
pub open spec fn first_slot_failure<T: Causable>(nodes: Seq<Option<T>>, i: int) -> Seq<char>
    decreases nodes.len() - i,
{
    if i < 0 || i >= nodes.len() {
        Seq::empty()
    } else if nodes[i] is Some && !nodes[i].unwrap().explainable() {
        nodes[i].unwrap().explain_failure()
    } else {
        first_slot_failure(nodes, i + 1)
    }
}

/// A graph of causal nodes `T` whose edges carry a `u64` weight.
#[derive(Clone)]
pub struct CausaloidGraph<T> {
    id: IdentificationValue,
    graph: UltraGraphContainer<T, u64>,
    effect: Option<PropagatingEffect>,
}

impl<T: Causable> CausaloidGraph<T> {
    /// The node slots.
    pub closed spec fn node_seq(&self) -> Seq<Option<T>> {
        self.graph.node_seq()
    }

    /// The outgoing (target, weight) edges of each slot.
    pub closed spec fn adj_seq(&self) -> Seq<Seq<(usize, u64)>> {
        self.graph.adj_seq()
    }

    /// The root node's index, if any.
    pub closed spec fn root_spec(&self) -> Option<usize> {
        self.graph.root_spec()
    }

    /// True when the graph is frozen.
    pub closed spec fn is_frozen_spec(&self) -> bool {
        self.graph.is_frozen_spec()
    }

    /// The graph's identifier.
    pub closed spec fn id_spec(&self) -> IdentificationValue {
        self.id
    }

    /// The effect of the last evaluation of the whole graph as one node.
    pub closed spec fn effect_spec(&self) -> Option<PropagatingEffect> {
        self.effect
    }

    pub closed spec fn wf(&self) -> bool {
        &&& self.graph.wf()
        &&& nodes_inv(self.graph.node_seq())
    }

    /// An empty, mutable graph.
    pub fn new(id: IdentificationValue) -> (r: Self)
        ensures
            r.wf(),
            r.id_spec() == id,
            !r.is_frozen_spec(),
            r.node_seq() == Seq::<Option<T>>::empty(),
            r.adj_seq() == Seq::<Seq<(usize, u64)>>::empty(),
            r.root_spec() is None,
    {
        CausaloidGraph { id, graph: UltraGraphContainer::new(), effect: None }
    }

    /// An empty, mutable graph with room for `capacity` nodes.
    pub fn new_with_capacity(id: IdentificationValue, capacity: usize) -> (r: Self)
        ensures
            r.wf(),
            r.id_spec() == id,
            !r.is_frozen_spec(),
            r.node_seq() == Seq::<Option<T>>::empty(),
            r.adj_seq() == Seq::<Seq<(usize, u64)>>::empty(),
            r.root_spec() is None,
    {
        CausaloidGraph { id, graph: UltraGraphContainer::with_capacity(capacity), effect: None }
    }

    /// The underlying graph.
    pub fn get_graph(&self) -> (r: &UltraGraphContainer<T, u64>)
        requires
            self.wf(),
        ensures
            r.wf(),
            r.node_seq() == self.node_seq(),
            r.adj_seq() == self.adj_seq(),
            r.root_spec() == self.root_spec(),
            r.is_frozen_spec() == self.is_frozen_spec(),
    {
        &self.graph
    }

    /// Freezes the graph; nodes, edges and root stay as they were.
    pub fn freeze(&mut self)
        requires
            old(self).wf(),
        ensures
            final(self).wf(),
            final(self).is_frozen_spec(),
            final(self).id_spec() == old(self).id_spec(),
            final(self).node_seq() == old(self).node_seq(),
            final(self).adj_seq() == old(self).adj_seq(),
            final(self).root_spec() == old(self).root_spec(),
    {
        self.graph.freeze();
    }

    /// Unfreezes the graph; nodes, edges and root stay as they were.
    pub fn unfreeze(&mut self)
        requires
            old(self).wf(),
        ensures
            final(self).wf(),
            !final(self).is_frozen_spec(),
            final(self).id_spec() == old(self).id_spec(),
            final(self).node_seq() == old(self).node_seq(),
            final(self).adj_seq() == old(self).adj_seq(),
            final(self).root_spec() == old(self).root_spec(),
    {
        self.graph.unfreeze();
    }

    /// True when the graph is frozen.
    pub fn is_frozen(&self) -> (r: bool)
        ensures
            r == self.is_frozen_spec(),
    {
        self.graph.is_frozen()
    }

    /// Adds a node and makes it the root.
    pub fn add_root_causaloid(&mut self, value: T) -> (r: Result<usize, GraphError>)
        requires
            old(self).wf(),
            value.causable_inv(),
        ensures
            final(self).wf(),
            final(self).id_spec() == old(self).id_spec(),
            final(self).is_frozen_spec() == old(self).is_frozen_spec(),
            old(self).is_frozen_spec() ==> r == Err::<usize, GraphError>(GraphError::GraphIsFrozen),
            !old(self).is_frozen_spec() && old(self).root_spec() is Some
                ==> r == Err::<usize, GraphError>(GraphError::RootNodeAlreadyExists),
            r is Err ==> final(self).node_seq() == old(self).node_seq() && final(self).adj_seq() == old(self).adj_seq()
                && final(self).root_spec() == old(self).root_spec(),
            !old(self).is_frozen_spec() && old(self).root_spec() is None
                ==> r == Ok::<usize, GraphError>(old(self).node_seq().len() as usize)
                    && final(self).node_seq() == old(self).node_seq().push(Some(value))
                    && final(self).adj_seq() == old(self).adj_seq().push(Seq::empty())
                    && final(self).root_spec() == Some(old(self).node_seq().len() as usize),
    {
        let r = self.graph.add_root_node(value);
        proof {
            self.lemma_nodes_inv_push(old(self).graph.node_seq(), value);
        }
        r
    }

    /// Adds a node.
    pub fn add_causaloid(&mut self, value: T) -> (r: Result<usize, GraphError>)
        requires
            old(self).wf(),
            value.causable_inv(),
        ensures
            final(self).wf(),
            final(self).id_spec() == old(self).id_spec(),
            final(self).is_frozen_spec() == old(self).is_frozen_spec(),
            old(self).is_frozen_spec() ==> r == Err::<usize, GraphError>(GraphError::GraphIsFrozen)
                && final(self).node_seq() == old(self).node_seq() && final(self).adj_seq() == old(self).adj_seq()
                && final(self).root_spec() == old(self).root_spec(),
            !old(self).is_frozen_spec() ==> r == Ok::<usize, GraphError>(old(self).node_seq().len() as usize)
                && final(self).node_seq() == old(self).node_seq().push(Some(value))
                && final(self).adj_seq() == old(self).adj_seq().push(Seq::empty())
                && final(self).root_spec() == old(self).root_spec(),
    {
        let r = self.graph.add_node(value);
        proof {
            self.lemma_nodes_inv_push(old(self).graph.node_seq(), value);
        }
        r
    }

    proof fn lemma_nodes_inv_push(&self, olds: Seq<Option<T>>, value: T)
        requires
            nodes_inv(olds),
            value.causable_inv(),
            self.graph.node_seq() == olds || self.graph.node_seq() == olds.push(Some(value)),
        ensures
            nodes_inv(self.graph.node_seq()),
    {
        let s = self.graph.node_seq();
        assert forall|i: int| 0 <= i < s.len() && #[trigger] s[i] is Some implies s[i].unwrap().causable_inv() by {
            if i < olds.len() {
                assert(s[i] == olds[i]);
            }
        }
    }

    /// True when slot `index` holds a node.
    pub fn contains_causaloid(&self, index: usize) -> (r: bool)
        requires
            self.wf(),
        ensures
            r == node_exists(self.node_seq(), index as int),
    {
        self.graph.contains_node(index)
    }

    /// The node in slot `index`, if any.
    pub fn get_causaloid(&self, index: usize) -> (r: Option<&T>)
        requires
            self.wf(),
        ensures
            r is Some == node_exists(self.node_seq(), index as int),
            r matches Some(n) ==> self.node_seq()[index as int] == Some(*n),
    {
        self.graph.get_node(index)
    }

    /// Removes a node with all its edges.
    pub fn remove_causaloid(&mut self, index: usize) -> (r: Result<(), GraphError>)
        requires
            old(self).wf(),
        ensures
            final(self).wf(),
            final(self).id_spec() == old(self).id_spec(),
            final(self).is_frozen_spec() == old(self).is_frozen_spec(),
            old(self).is_frozen_spec() ==> r == Err::<(), GraphError>(GraphError::GraphIsFrozen),
            !old(self).is_frozen_spec() ==> (r is Ok <==> node_exists(old(self).node_seq(), index as int)),
            r is Err ==> final(self).node_seq() == old(self).node_seq() && final(self).adj_seq() == old(self).adj_seq()
                && final(self).root_spec() == old(self).root_spec(),
            r is Ok ==> final(self).node_seq() == old(self).node_seq().update(index as int, None),
            r is Ok ==> forall|x: int, y: usize, w: u64|
                #[trigger] has_weighted_edge(final(self).adj_seq(), x, y, w)
                    <==> has_weighted_edge(old(self).adj_seq(), x, y, w) && x != index && y != index,
    {
        let r = self.graph.remove_node(index);
        proof {
            let olds = old(self).graph.node_seq();
            let s = self.graph.node_seq();
            assert forall|i: int| 0 <= i < s.len() && #[trigger] s[i] is Some implies s[i].unwrap().causable_inv() by {
                assert(s[i] == olds[i]);
            }
        }
        r
    }

    /// Adds the edge `a -> b` with unit weight.
    pub fn add_edge(&mut self, a: usize, b: usize) -> (r: Result<(), GraphError>)
        requires
            old(self).wf(),
        ensures
            final(self).wf(),
            final(self).id_spec() == old(self).id_spec(),
            final(self).is_frozen_spec() == old(self).is_frozen_spec(),
            final(self).node_seq() == old(self).node_seq(),
            final(self).root_spec() == old(self).root_spec(),
            old(self).is_frozen_spec() ==> r == Err::<(), GraphError>(GraphError::GraphIsFrozen),
            !old(self).is_frozen_spec() && !node_exists(old(self).node_seq(), a as int)
                ==> r == Err::<(), GraphError>(GraphError::NodeNotFound(a)),
            !old(self).is_frozen_spec() && node_exists(old(self).node_seq(), a as int)
                && !node_exists(old(self).node_seq(), b as int) ==> r == Err::<(), GraphError>(GraphError::NodeNotFound(b)),
            !old(self).is_frozen_spec() && node_exists(old(self).node_seq(), a as int)
                && node_exists(old(self).node_seq(), b as int) && has_edge(old(self).adj_seq(), a as int, b as int)
                ==> r == Err::<(), GraphError>(GraphError::EdgeAlreadyExists(a, b)),
            !old(self).is_frozen_spec() && node_exists(old(self).node_seq(), a as int)
                && node_exists(old(self).node_seq(), b as int) && !has_edge(old(self).adj_seq(), a as int, b as int)
                && total_edges(old(self).adj_seq()) == usize::MAX
                ==> r == Err::<(), GraphError>(GraphError::EdgeCountOverflow),
            r is Ok <==> (!old(self).is_frozen_spec() && node_exists(old(self).node_seq(), a as int)
                && node_exists(old(self).node_seq(), b as int) && !has_edge(old(self).adj_seq(), a as int, b as int)
                && total_edges(old(self).adj_seq()) < usize::MAX),
            r is Ok ==> final(self).adj_seq() == old(self).adj_seq().update(a as int, old(self).adj_seq()[a as int].push((b, 1u64))),
            r is Err ==> final(self).adj_seq() == old(self).adj_seq(),
    {
        self.graph.add_edge(a, b, 1)
    }

    /// Adds the edge `a -> b` with the given weight.
    pub fn add_edg_with_weight(&mut self, a: usize, b: usize, weight: u64) -> (r: Result<(), GraphError>)
        requires
            old(self).wf(),
        ensures
            final(self).wf(),
            final(self).id_spec() == old(self).id_spec(),
            final(self).is_frozen_spec() == old(self).is_frozen_spec(),
            final(self).node_seq() == old(self).node_seq(),
            final(self).root_spec() == old(self).root_spec(),
            old(self).is_frozen_spec() ==> r == Err::<(), GraphError>(GraphError::GraphIsFrozen),
            !old(self).is_frozen_spec() && !node_exists(old(self).node_seq(), a as int)
                ==> r == Err::<(), GraphError>(GraphError::NodeNotFound(a)),
            !old(self).is_frozen_spec() && node_exists(old(self).node_seq(), a as int)
                && !node_exists(old(self).node_seq(), b as int) ==> r == Err::<(), GraphError>(GraphError::NodeNotFound(b)),
            !old(self).is_frozen_spec() && node_exists(old(self).node_seq(), a as int)
                && node_exists(old(self).node_seq(), b as int) && has_edge(old(self).adj_seq(), a as int, b as int)
                ==> r == Err::<(), GraphError>(GraphError::EdgeAlreadyExists(a, b)),
            !old(self).is_frozen_spec() && node_exists(old(self).node_seq(), a as int)
                && node_exists(old(self).node_seq(), b as int) && !has_edge(old(self).adj_seq(), a as int, b as int)
                && total_edges(old(self).adj_seq()) == usize::MAX
                ==> r == Err::<(), GraphError>(GraphError::EdgeCountOverflow),
            r is Ok <==> (!old(self).is_frozen_spec() && node_exists(old(self).node_seq(), a as int)
                && node_exists(old(self).node_seq(), b as int) && !has_edge(old(self).adj_seq(), a as int, b as int)
                && total_edges(old(self).adj_seq()) < usize::MAX),
            r is Ok ==> final(self).adj_seq() == old(self).adj_seq().update(a as int, old(self).adj_seq()[a as int].push((b, weight))),
            r is Err ==> final(self).adj_seq() == old(self).adj_seq(),
    {
        self.graph.add_edge(a, b, weight)
    }

    /// True when the edge `a -> b` is present.
    pub fn contains_edge(&self, a: usize, b: usize) -> (r: bool)
        requires
            self.wf(),
        ensures
            r == has_edge(self.adj_seq(), a as int, b as int),
    {
        self.graph.contains_edge(a, b)
    }

    /// Removes the edge `a -> b`.
    pub fn remove_edge(&mut self, a: usize, b: usize) -> (r: Result<(), GraphError>)
        requires
            old(self).wf(),
        ensures
            final(self).wf(),
            final(self).id_spec() == old(self).id_spec(),
            final(self).is_frozen_spec() == old(self).is_frozen_spec(),
            final(self).node_seq() == old(self).node_seq(),
            final(self).root_spec() == old(self).root_spec(),
            r is Ok <==> !old(self).is_frozen_spec() && has_edge(old(self).adj_seq(), a as int, b as int),
            r is Err ==> final(self).adj_seq() == old(self).adj_seq(),
            r is Ok ==> forall|x: int, y: usize, w: u64|
                #[trigger] has_weighted_edge(final(self).adj_seq(), x, y, w)
                    <==> has_weighted_edge(old(self).adj_seq(), x, y, w) && !(x == a && y == b),
    {
        self.graph.remove_edge(a, b)
    }

    /// True when the graph has a root node.
    pub fn contains_root_causaloid(&self) -> (r: bool)
        requires
            self.wf(),
        ensures
            r == self.root_spec() is Some,
    {
        self.graph.contains_root_node()
    }

    /// The root node, if any.
    pub fn get_root_causaloid(&self) -> (r: Option<&T>)
        requires
            self.wf(),
        ensures
            r is Some == self.root_spec() is Some,
            r matches Some(n) ==> self.node_seq()[self.root_spec().unwrap() as int] == Some(*n),
    {
        self.graph.get_root_node()
    }

    /// The root node's index, if any.
    pub fn get_root_index(&self) -> (r: Option<usize>)
        requires
            self.wf(),
        ensures
            r == self.root_spec(),
    {
        self.graph.get_root_index()
    }

    /// The highest index that holds a node; fails on an empty graph.
    pub fn get_last_index(&self) -> (r: Result<usize, GraphError>)
        requires
            self.wf(),
        ensures
            r is Err <==> forall|i: int| !node_exists(self.node_seq(), i),
            r matches Ok(i) ==> node_exists(self.node_seq(), i as int)
                && forall|j: int| i < j ==> !node_exists(self.node_seq(), j),
    {
        let r = self.graph.get_last_index();
        assert(self.graph.node_slots() == self.node_seq());
        match r {
            Some(i) => Ok(i),
            None => Err(GraphError::GraphIsEmpty),
        }
    }

    /// Number of nodes.
    pub fn size(&self) -> (r: usize)
        requires
            self.wf(),
        ensures
            r as int == count_nodes(self.node_seq()),
    {
        self.graph.number_nodes()
    }

    /// Number of nodes.
    pub fn number_nodes(&self) -> (r: usize)
        requires
            self.wf(),
        ensures
            r as int == count_nodes(self.node_seq()),
    {
        self.graph.number_nodes()
    }

    /// Number of nodes.
    pub fn count_nodes(&self) -> (r: usize)
        requires
            self.wf(),
        ensures
            r as int == count_nodes(self.node_seq()),
    {
        self.graph.number_nodes()
    }

    /// Number of edges.
    pub fn number_edges(&self) -> (r: usize)
        requires
            self.wf(),
        ensures
            r as int == total_edges(self.adj_seq()),
    {
        self.graph.number_edges()
    }

    /// True when the graph holds no node.
    pub fn is_empty(&self) -> (r: bool)
        requires
            self.wf(),
        ensures
            r == (count_nodes(self.node_seq()) == 0),
    {
        self.graph.is_empty()
    }

    /// Removes every node, edge and the root; fails on a frozen graph.
    pub fn clear(&mut self) -> (r: Result<(), GraphError>)
        requires
            old(self).wf(),
        ensures
            final(self).wf(),
            final(self).id_spec() == old(self).id_spec(),
            final(self).is_frozen_spec() == old(self).is_frozen_spec(),
            old(self).is_frozen_spec() ==> r is Err && final(self).node_seq() == old(self).node_seq(),
            !old(self).is_frozen_spec() ==> r is Ok && final(self).node_seq() == Seq::<Option<T>>::empty()
                && final(self).adj_seq() == Seq::<Seq<(usize, u64)>>::empty() && final(self).root_spec() is None,
    {
        self.graph.clear()
    }

    /// Number of active nodes.
    pub fn number_active(&self) -> (r: usize)
        requires
            self.wf(),
        ensures
            r as int == active_count(self.node_seq()),
    {
        let n = self.graph.slot_count();
        let ghost s = self.node_seq();
        let mut count: usize = 0;
        let mut i: usize = 0;
        while i < n
            invariant
                self.graph.wf(),
                n == s.len(),
                s == self.graph.node_seq(),
                nodes_inv(s),
                i <= n,
                count as int == active_count(s.take(i as int)),
                count <= i,
            decreases n - i,
        {
            assert(s.take(i + 1).drop_last() =~= s.take(i as int));
            match self.graph.get_node(i) {
                Some(node) => {
                    proof {
                        assert(s[i as int] is Some);
                    }
                    if node.is_active() {
                        count = count + 1;
                    }
                },
                None => {},
            }
            i = i + 1;
        }
        assert(s.take(i as int) =~= s);
        count
    }

    /// True when every node is active (so true for an empty graph).
    pub fn all_active(&self) -> (r: bool)
        requires
            self.wf(),
        ensures
            r == (active_count(self.node_seq()) == count_nodes(self.node_seq())),
    {
        let total = self.size();
        self.number_active() == total
    }

    /// Share of active nodes in percent, in fixed point (`100 * UNIT` when all
    /// are active), rounded down; zero for an empty graph.
    pub fn percent_active(&self) -> (r: NumericalValue)
        requires
            self.wf(),
        ensures
            count_nodes(self.node_seq()) == 0 ==> r == 0,
            count_nodes(self.node_seq()) > 0 ==> r as int == active_count(self.node_seq()) * 100 * (UNIT as int)
                / count_nodes(self.node_seq()),
    {
        let total = self.size();
        if total == 0 {
            return 0;
        }
        let active = self.number_active();
        proof {
            lemma_active_le_count(self.node_seq());
        }
        let scaled: u128 = (active as u128) * 100 * (UNIT as u128);
        let share: u128 = scaled / (total as u128);
        proof {
            let a = active as int;
            let t = total as int;
            assert(a * 100 * 1000000 / t <= 100 * 1000000) by (nonlinear_arith)
                requires 0 <= a <= t, t > 0;
        }
        share as i64
    }

    /// Where the observation for node `i` sits in the data, if anywhere.
    fn data_position_of(i: usize, data_index: Option<&HashMap<usize, usize>>) -> (r: Option<usize>)
        ensures
            match r {
                Some(p) => data_position(i as int, map_view(data_index)) == Some(p as int),
                None => data_position(i as int, map_view(data_index)) is None,
            },
    {
        broadcast use vstd::std_specs::hash::group_hash_axioms;
        match data_index {
            None => Some(i),
            Some(m) => match m.get(&i) {
                Some(p) => Some(*p),
                None => None,
            },
        }
    }

    /// The data position of every node of `order`, or `None` when one of them
    /// has no observation.
    fn data_positions(order: &Vec<usize>, data: &[NumericalValue], data_index: Option<&HashMap<usize, usize>>) -> (r: Option<Vec<usize>>)
        ensures
            r is None <==> exists|k: int| 0 <= k < order@.len() && !has_data(#[trigger] order@[k] as int, data@, map_view(data_index)),
            r matches Some(ps) ==> ps@.len() == order@.len() && forall|j: int| 0 <= j < order@.len()
                ==> has_data(#[trigger] order@[j] as int, data@, map_view(data_index))
                    && data_position(order@[j] as int, map_view(data_index)) == Some(ps@[j] as int),
    {
        let ghost map = map_view(data_index);
        let n = order.len();
        let mut positions: Vec<usize> = Vec::new();
        let mut k: usize = 0;
        while k < n
            invariant
                n == order@.len(),
                map == map_view(data_index),
                k <= n,
                positions@.len() == k,
                forall|j: int| 0 <= j < k ==> has_data(#[trigger] order@[j] as int, data@, map)
                    && data_position(order@[j] as int, map) == Some(positions@[j] as int),
            decreases n - k,
        {
            let i = order[k];
            match Self::data_position_of(i, data_index) {
                Some(p) => {
                    if p >= data.len() {
                        proof {
                            assert(!has_data(order@[k as int] as int, data@, map));
                        }
                        return None;
                    }
                    positions.push(p);
                },
                None => {
                    proof {
                        assert(!has_data(order@[k as int] as int, data@, map));
                    }
                    return None;
                },
            }
            k = k + 1;
        }
        Some(positions)
    }

    /// Evaluates the nodes of `order` one after the other, each on its
    /// observation, until one does not come out active. Fails without
    /// evaluating anything when some node of `order` has no observation.
    fn reason_over(
        &mut self,
        order: &Vec<usize>,
        data: &[NumericalValue],
        data_index: Option<&HashMap<usize, usize>>,
    ) -> (r: Result<bool, CausalityError>)
        requires
            old(self).wf(),
            order@.no_duplicates(),
            forall|k: int| 0 <= k < order@.len() ==> node_exists(old(self).node_seq(), #[trigger] order@[k] as int),
        ensures
            final(self).wf(),
            final(self).id_spec() == old(self).id_spec(),
            final(self).effect_spec() == old(self).effect_spec(),
            final(self).is_frozen_spec() == old(self).is_frozen_spec(),
            final(self).adj_seq() == old(self).adj_seq(),
            final(self).root_spec() == old(self).root_spec(),
            reasoned_over(old(self).node_seq(), final(self).node_seq(), order@, data@, map_view(data_index), r),
    {
        let ghost map = map_view(data_index);
        let n = order.len();
        let positions = match Self::data_positions(order, data, data_index) {
            Some(p) => p,
            None => {
                return Err(CausalityError("no data for some causaloid".to_owned()));
            },
        };
        let mut inputs: Vec<PropagatingEffect> = Vec::new();
        let mut k: usize = 0;
        while k < n
            invariant
                n == order@.len(),
                positions@.len() == n,
                map == map_view(data_index),
                forall|j: int| 0 <= j < n ==> has_data(#[trigger] order@[j] as int, data@, map)
                    && data_position(order@[j] as int, map) == Some(positions@[j] as int),
                k <= n,
                inputs@.len() == k,
                forall|j: int| 0 <= j < k ==> #[trigger] inputs@[j] == input_for(order@[j] as int, data@, map),
            decreases n - k,
        {
            proof {
                assert(has_data(order@[k as int] as int, data@, map));
            }
            inputs.push(PropagatingEffect::Numerical(data[positions[k]]));
            k = k + 1;
        }
        proof {
            assert(inputs@ =~= reason_inputs(order@, data@, map));
        }
        let r = self.evaluate_chain(order, &inputs);
        proof {
            assert(!exists|kk: int| 0 <= kk < order@.len() && !has_data(#[trigger] order@[kk] as int, data@, map));
        }
        r
    }

    /// Evaluates the nodes of `order` one after the other, node `order[k]` on
    /// `inputs[k]`, until one does not come out active.
    fn evaluate_chain(&mut self, order: &Vec<usize>, inputs: &Vec<PropagatingEffect>) -> (r: Result<bool, CausalityError>)
        requires
            old(self).wf(),
            order@.no_duplicates(),
            inputs@.len() == order@.len(),
            forall|k: int| 0 <= k < order@.len() ==> node_exists(old(self).node_seq(), #[trigger] order@[k] as int),
        ensures
            final(self).wf(),
            final(self).id_spec() == old(self).id_spec(),
            final(self).effect_spec() == old(self).effect_spec(),
            final(self).is_frozen_spec() == old(self).is_frozen_spec(),
            final(self).adj_seq() == old(self).adj_seq(),
            final(self).root_spec() == old(self).root_spec(),
            exists|outs: Seq<Outcome>| slots_chain(old(self).node_seq(), final(self).node_seq(), order@, inputs@, outs)
                && #[trigger] reason_result(outs, order@.len() as int, r),
    {
        let n = order.len();
        let ghost olds = self.node_seq();
        let ghost mut outs: Seq<Outcome> = Seq::empty();
        let mut k: usize = 0;
        proof {
            assert(order@.take(0) =~= Seq::<usize>::empty());
        }
        while k < n
            invariant
                self.wf(),
                self.id_spec() == old(self).id_spec(),
                self.effect_spec() == old(self).effect_spec(),
                self.is_frozen_spec() == old(self).is_frozen_spec(),
                self.adj_seq() == old(self).adj_seq(),
                self.root_spec() == old(self).root_spec(),
                olds == old(self).node_seq(),
                n == order@.len(),
                inputs@.len() == n,
                order@.no_duplicates(),
                forall|j: int| 0 <= j < n ==> node_exists(olds, #[trigger] order@[j] as int),
                k <= n,
                outs.len() == k,
                slots_chain(olds, self.node_seq(), order@, inputs@, outs),
                forall|j: int| 0 <= j < k ==> reason_continues(#[trigger] outs[j]),
            decreases n - k,
        {
            let i = order[k];
            let input = inputs[k];
            let ghost before = self.node_seq();
            proof {
                assert(!order@.take(k as int).contains(i)) by {
                    if order@.take(k as int).contains(i) {
                        let j = choose|j: int| 0 <= j < k && order@.take(k as int)[j] == i;
                        assert(order@[j] == order@[k as int]);
                    }
                }
                assert(before[i as int] == olds[i as int]);
                assert(self.graph.node_seq()[i as int].unwrap().causable_inv());
            }
            let o = self.graph.evaluate_node(i, &input);
            proof {
                let o0 = outs;
                outs = outs.push(o);
                let news = self.node_seq();
                assert(order@.take(k + 1) =~= order@.take(k as int).push(i));
                assert forall|x: int| 0 <= x < news.len() && #[trigger] news[x] is Some implies news[x].unwrap().causable_inv() by {
                    if x != i as int {
                        assert(news[x] == before[x]);
                    }
                }
                assert forall|kk: int| 0 <= kk < outs.len() implies news[#[trigger] order@[kk] as int] is Some && evaluated_as(
                    olds[order@[kk] as int].unwrap(),
                    news[order@[kk] as int].unwrap(),
                    inputs@[kk],
                    outs[kk],
                ) by {
                    if kk < k {
                        assert(order@[kk] != i);
                        assert(news[order@[kk] as int] == before[order@[kk] as int]);
                        assert(outs[kk] == o0[kk]);
                    }
                }
                assert forall|j: int| 0 <= j < olds.len() && !order@.take(outs.len() as int).contains(j as usize)
                    implies #[trigger] news[j] == olds[j] by {
                    assert(order@.take(outs.len() as int)[k as int] == i);
                    if j == i as int {
                        assert(order@.take(outs.len() as int).contains(i));
                    } else {
                        if order@.take(k as int).contains(j as usize) {
                            let jj = choose|jj: int| 0 <= jj < k && order@.take(k as int)[jj] == j as usize;
                            assert(order@.take(outs.len() as int)[jj] == j as usize);
                        }
                    }
                }
            }
            proof {
                assert(slots_chain(olds, self.node_seq(), order@, inputs@, outs));
            }
            match o {
                Err(e) => {
                    let r = Err(e);
                    proof {
                        assert(reason_result(outs, n as int, r));
                    }
                    return r;
                },
                Ok(e) => {
                    if !e.is_active() {
                        let r = Ok(false);
                        proof {
                            assert(reason_result(outs, n as int, r));
                        }
                        return r;
                    }
                },
            }
            k = k + 1;
        }
        let r = Ok(true);
        proof {
            assert(reason_result(outs, n as int, r));
        }
        r
    }

    /// One line per active node, in index order; fails at the first node not yet evaluated.
    pub fn explain_all_causes(&self) -> (r: Result<String, CausalityError>)
        requires
            self.wf(),
        ensures
            r is Ok <==> forall|i: int| 0 <= i < self.node_seq().len() && #[trigger] self.node_seq()[i] is Some
                ==> self.node_seq()[i].unwrap().explainable(),
            r matches Ok(s) ==> s@ == graph_explanation(self.node_seq()),
            r matches Err(e) ==> e.0@ == first_slot_failure(self.node_seq(), 0),
    {
        let n = self.graph.slot_count();
        let ghost nodes = self.node_seq();
        let mut out: Vec<char> = Vec::new();
        let mut i: usize = 0;
        while i < n
            invariant
                self.graph.wf(),
                nodes_inv(nodes),
                nodes == self.graph.node_seq(),
                n == nodes.len(),
                i <= n,
                forall|j: int| 0 <= j < i && #[trigger] nodes[j] is Some ==> nodes[j].unwrap().explainable(),
                out@ == graph_explanation(nodes.take(i as int)),
                first_slot_failure(nodes, 0) == first_slot_failure(nodes, i as int),
            decreases n - i,
        {
            assert(nodes.take(i + 1).drop_last() =~= nodes.take(i as int));
            assert(nodes[i as int] is Some && !nodes[i as int].unwrap().explainable()
                || first_slot_failure(nodes, i as int) == first_slot_failure(nodes, i + 1));
            match self.graph.get_node(i) {
                None => {
                    assert(out@ =~= graph_explanation(nodes.take(i + 1)));
                },
                Some(node) => match node.explain() {
                    Err(e) => {
                        return Err(e);
                    },
                    Ok(line) => {
                        if node.is_active() {
                            push_str(&mut out, "\n * ");
                            push_str(&mut out, line.as_str());
                            push_str(&mut out, "\n");
                        }
                        assert(out@ =~= graph_explanation(nodes.take(i + 1)));
                    },
                },
            }
            i = i + 1;
        }
        assert(nodes.take(i as int) =~= nodes);
        Ok(string_from_chars(&out))
    }

    /// The indices of all nodes, in increasing order.
    fn present_order(&self) -> (order: Vec<usize>)
        requires
            self.wf(),
        ensures
            order@ == selected(present_flags(self.node_seq()), self.node_seq().len() as int),
            order@.no_duplicates(),
            forall|k: int| 0 <= k < order@.len() ==> node_exists(self.node_seq(), #[trigger] order@[k] as int),
    {
        let n = self.graph.slot_count();
        let ghost flags = present_flags(self.node_seq());
        let mut order: Vec<usize> = Vec::new();
        let mut i: usize = 0;
        while i < n
            invariant
                self.graph.wf(),
                n == self.node_seq().len(),
                flags == present_flags(self.node_seq()),
                i <= n,
                order@ == selected(flags, i as int),
            decreases n - i,
        {
            if self.graph.contains_node(i) {
                order.push(i);
            }
            i = i + 1;
        }
        proof {
            lemma_selected(flags, n as int);
        }
        order
    }

    fn not_found_error(index: usize) -> (r: CausalityError)
        ensures
            r.0@ == not_found_message(index),
    {
        let mut msg: Vec<char> = Vec::new();
        push_str(&mut msg, "Causaloid with index ");
        push_decimal(&mut msg, index as u64);
        push_str(&mut msg, " not found in graph");
        CausalityError(string_from_chars(&msg))
    }

    /// Evaluates the node at `index` on `effect`, updating its activation, and
    /// returns what it produced; fails when there is no node at `index`.
    pub fn evaluate_single_cause(&mut self, index: usize, effect: &PropagatingEffect) -> (r: Outcome)
        requires
            old(self).wf(),
        ensures
            final(self).wf(),
            final(self).id_spec() == old(self).id_spec(),
            final(self).is_frozen_spec() == old(self).is_frozen_spec(),
            final(self).adj_seq() == old(self).adj_seq(),
            final(self).root_spec() == old(self).root_spec(),
            !node_exists(old(self).node_seq(), index as int) ==> (r matches Err(e) && e.0@ == not_found_message(index))
                && final(self).node_seq() == old(self).node_seq(),
            node_exists(old(self).node_seq(), index as int) ==> node_evaluated(old(self).node_seq(), final(self).node_seq(), index as int, *effect, r),
    {
        if !self.graph.contains_node(index) {
            return Err(Self::not_found_error(index));
        }
        let ghost before = self.node_seq();
        let r = self.graph.evaluate_node(index, effect);
        proof {
            let s = self.graph.node_seq();
            assert forall|i: int| 0 <= i < s.len() && #[trigger] s[i] is Some implies s[i].unwrap().causable_inv() by {
                if i != index as int {
                    assert(s[i] == before[i]);
                }
            }
        }
        r
    }

    /// Evaluates the node at `index` on the first observation of `data` and
    /// returns whether it came out active; fails when there is no node at
    /// `index` or no observation.
    pub fn reason_single_cause(&mut self, index: usize, data: &[NumericalValue]) -> (r: Result<bool, CausalityError>)
        requires
            old(self).wf(),
        ensures
            final(self).wf(),
            final(self).id_spec() == old(self).id_spec(),
            final(self).is_frozen_spec() == old(self).is_frozen_spec(),
            final(self).adj_seq() == old(self).adj_seq(),
            final(self).root_spec() == old(self).root_spec(),
            !node_exists(old(self).node_seq(), index as int) ==> (r matches Err(e) && e.0@ == not_found_message(index))
                && final(self).node_seq() == old(self).node_seq(),
            node_exists(old(self).node_seq(), index as int) && data@.len() == 0 ==> (r matches Err(e) && e.0@
                == empty_data_message()) && final(self).node_seq() == old(self).node_seq(),
            node_exists(old(self).node_seq(), index as int) && data@.len() > 0 ==> exists|o: Outcome|
                node_evaluated(old(self).node_seq(), final(self).node_seq(), index as int, PropagatingEffect::Numerical(data@[0]), o)
                    && #[trigger] single_result(o, r),
    {
        if !self.graph.contains_node(index) {
            return Err(Self::not_found_error(index));
        }
        if data.len() == 0 {
            return Err(CausalityError("data are empty".to_owned()));
        }
        let input = PropagatingEffect::Numerical(data[0]);
        let o = self.evaluate_single_cause(index, &input);
        let r = match o {
            Ok(e) => Ok(e.is_active()),
            Err(e) => Err(e),
        };
        proof {
            assert(single_result(o, r));
        }
        r
    }

    /// Reasons over every node in index order, each evaluated on its
    /// observation, and returns whether all came out active; stops at the
    /// first that did not. Fails on an empty graph and, evaluating nothing,
    /// when a node has no observation.
    pub fn reason_all_causes(
        &mut self,
        data: &[NumericalValue],
        data_index: Option<&HashMap<usize, usize>>,
    ) -> (r: Result<bool, CausalityError>)
        requires
            old(self).wf(),
        ensures
            final(self).wf(),
            final(self).id_spec() == old(self).id_spec(),
            final(self).is_frozen_spec() == old(self).is_frozen_spec(),
            final(self).adj_seq() == old(self).adj_seq(),
            final(self).root_spec() == old(self).root_spec(),
            count_nodes(old(self).node_seq()) == 0 ==> (r matches Err(e) && e.0@ == empty_graph_message())
                && final(self).node_seq() == old(self).node_seq(),
            count_nodes(old(self).node_seq()) > 0 ==> reasoned_over(
                old(self).node_seq(),
                final(self).node_seq(),
                selected(present_flags(old(self).node_seq()), old(self).node_seq().len() as int),
                data@,
                map_view(data_index),
                r,
            ),
    {
        if self.graph.is_empty() {
            return Err(CausalityError("graph is empty".to_owned()));
        }
        let order = self.present_order();
        self.reason_over(&order, data, data_index)
    }

    /// Reasons like `reason_all_causes`, but only over the nodes reachable from
    /// `start` (itself included), in index order; nodes outside keep their
    /// state. Fails unless frozen, or when there is no node at `start`.
    pub fn reason_subgraph_from_cause(
        &mut self,
        start: usize,
        data: &[NumericalValue],
        data_index: Option<&HashMap<usize, usize>>,
    ) -> (r: Result<bool, CausalityError>)
        requires
            old(self).wf(),
        ensures
            final(self).wf(),
            final(self).id_spec() == old(self).id_spec(),
            final(self).is_frozen_spec() == old(self).is_frozen_spec(),
            final(self).adj_seq() == old(self).adj_seq(),
            final(self).root_spec() == old(self).root_spec(),
            !node_exists(old(self).node_seq(), start as int) ==> (r matches Err(e) && e.0@ == not_found_message(start))
                && final(self).node_seq() == old(self).node_seq(),
            node_exists(old(self).node_seq(), start as int) && !old(self).is_frozen_spec() ==> (r matches Err(e) && e.0@
                == not_frozen_message()) && final(self).node_seq() == old(self).node_seq(),
            node_exists(old(self).node_seq(), start as int) && old(self).is_frozen_spec() ==> reasoned_over(
                old(self).node_seq(),
                final(self).node_seq(),
                selected(reach_flags(old(self).node_seq(), old(self).adj_seq(), start as int), old(self).node_seq().len() as int),
                data@,
                map_view(data_index),
                r,
            ),
    {
        if !self.graph.contains_node(start) {
            return Err(Self::not_found_error(start));
        }
        let visited = match self.graph.reachable_from(start) {
            Ok(v) => v,
            Err(_) => {
                return Err(CausalityError("graph is not frozen".to_owned()));
            },
        };
        let n = visited.len();
        let ghost flags = reach_flags(self.node_seq(), self.adj_seq(), start as int);
        proof {
            assert(visited@ =~= flags);
        }
        let mut order: Vec<usize> = Vec::new();
        let mut i: usize = 0;
        while i < n
            invariant
                n == visited@.len(),
                visited@ == flags,
                i <= n,
                order@ == selected(flags, i as int),
            decreases n - i,
        {
            if visited[i] {
                order.push(i);
            }
            i = i + 1;
        }
        proof {
            lemma_selected(flags, n as int);
            assert forall|k: int| 0 <= k < order@.len() implies node_exists(self.node_seq(), #[trigger] order@[k] as int) by {
                let v = order@[k] as int;
                assert(flags[v]);
                let p = choose|p: Seq<usize>| crate::graph_spec::is_path(self.node_seq(), self.adj_seq(), p)
                    && p[0] as int == start as int && p.last() as int == v;
                assert(node_exists(self.node_seq(), p[p.len() - 1] as int));
            }
        }
        self.reason_over(&order, data, data_index)
    }

    /// Reasons like `reason_all_causes`, but only over the nodes of the
    /// canonical shortest walk from `start` to `stop` (the one `shortest_path`
    /// returns; there is only one, see `lemma_canonical_shortest_path_unique`),
    /// in walk order. Fails unless frozen, or when
    /// no walk leads from `start` to `stop`.
    pub fn reason_shortest_path_between_causes(
        &mut self,
        start: usize,
        stop: usize,
        data: &[NumericalValue],
        data_index: Option<&HashMap<usize, usize>>,
    ) -> (r: Result<bool, CausalityError>)
        requires
            old(self).wf(),
        ensures
            final(self).wf(),
            final(self).id_spec() == old(self).id_spec(),
            final(self).is_frozen_spec() == old(self).is_frozen_spec(),
            final(self).adj_seq() == old(self).adj_seq(),
            final(self).root_spec() == old(self).root_spec(),
            !old(self).is_frozen_spec() ==> (r matches Err(e) && e.0@ == not_frozen_message())
                && final(self).node_seq() == old(self).node_seq(),
            old(self).is_frozen_spec() && !reachable(old(self).node_seq(), old(self).adj_seq(), start as int, stop as int)
                ==> (r matches Err(e) && e.0@ == no_path_message()) && final(self).node_seq() == old(self).node_seq(),
            old(self).is_frozen_spec() && reachable(old(self).node_seq(), old(self).adj_seq(), start as int, stop as int)
                ==> exists|p: Seq<usize>| is_canonical_shortest_path(old(self).node_seq(), old(self).adj_seq(), start as int, stop as int, p)
                    && #[trigger] reasoned_over(old(self).node_seq(), final(self).node_seq(), p, data@, map_view(data_index), r),
    {
        let path = match self.graph.shortest_path(start, stop) {
            Err(_) => {
                return Err(CausalityError("graph is not frozen".to_owned()));
            },
            Ok(None) => {
                return Err(CausalityError("no path between the causaloids".to_owned()));
            },
            Ok(Some(p)) => p,
        };
        proof {
            lemma_shortest_path_distinct(self.node_seq(), self.adj_seq(), start as int, stop as int, path@);
        }
        let r = self.reason_over(&path, data, data_index);
        proof {
            assert(reasoned_over(old(self).node_seq(), self.node_seq(), path@, data@, map_view(data_index), r));
        }
        r
    }
}

/// The indices of the occupied slots, in increasing order.
pub open spec fn present_order_of<T>(nodes: Seq<Option<T>>) -> Seq<usize> {
    selected(present_flags(nodes), nodes.len() as int)
}

/// `n` copies of the same effect.
pub open spec fn repeated(e: PropagatingEffect, n: nat) -> Seq<PropagatingEffect> {
    Seq::new(n, |k: int| e)
}

/// The outcome of evaluating a graph as one node, read off the outcomes of its
/// nodes: `true` when all came out active, `false` at the first that did not,
/// or the first failure.
pub open spec fn graph_outcome(outs: Seq<Outcome>, n: int, out: Outcome) -> bool {
    &&& forall|k: int| 0 <= k < outs.len() - 1 ==> reason_continues(#[trigger] outs[k])
    &&& outs.len() < n ==> outs.len() >= 1 && !reason_continues(outs.last())
    &&& if outs.len() == 0 || reason_continues(outs.last()) {
        out == Ok::<PropagatingEffect, CausalityError>(PropagatingEffect::Deterministic(true))
    } else {
        match outs.last() {
            Ok(_) => out == Ok::<PropagatingEffect, CausalityError>(PropagatingEffect::Deterministic(false)),
            Err(e) => out == Err::<PropagatingEffect, CausalityError>(e),
        }
    }
}

impl<T: Causable> Causable for CausaloidGraph<T> {
    open spec fn causable_inv(&self) -> bool {
        self.wf()
    }

    open spec fn ident(&self) -> IdentificationValue {
        self.id_spec()
    }

    open spec fn last_effect(&self) -> Option<PropagatingEffect> {
        self.effect_spec()
    }

    open spec fn evaluates_to(&self, input: PropagatingEffect, out: Outcome) -> bool {
        exists|news: Seq<Option<T>>, outs: Seq<Outcome>|
            #[trigger] slots_chain(self.node_seq(), news, present_order_of(self.node_seq()), repeated(input, present_order_of(self.node_seq()).len()), outs)
                && graph_outcome(outs, present_order_of(self.node_seq()).len() as int, out)
    }

    open spec fn explanation(&self) -> Seq<char> {
        graph_explanation(self.node_seq())
    }

    open spec fn explainable(&self) -> bool {
        forall|i: int| 0 <= i < self.node_seq().len() && #[trigger] self.node_seq()[i] is Some
            ==> self.node_seq()[i].unwrap().explainable()
    }

    open spec fn active(&self) -> bool {
        active_count(self.node_seq()) > 0
    }

    open spec fn explain_failure(&self) -> Seq<char> {
        first_slot_failure(self.node_seq(), 0)
    }

    open spec fn evaluated_into(&self, input: PropagatingEffect, out: Outcome, new: Self) -> bool {
        &&& new.ident() == self.ident()
        &&& new.adj_seq() == self.adj_seq()
        &&& new.root_spec() == self.root_spec()
        &&& new.is_frozen_spec() == self.is_frozen_spec()
        &&& new.effect_spec() == match out {
            Ok(e) => Some(e),
            Err(_) => self.effect_spec(),
        }
        &&& exists|outs: Seq<Outcome>|
            #[trigger] slots_chain(self.node_seq(), new.node_seq(), present_order_of(self.node_seq()), repeated(input, present_order_of(self.node_seq()).len()), outs)
                && graph_outcome(outs, present_order_of(self.node_seq()).len() as int, out)
    }

    open spec fn singleton(&self) -> bool {
        false
    }

    open spec fn same_node(&self, other: Self) -> bool {
        &&& self.ident() == other.ident()
        &&& self.adj_seq() == other.adj_seq()
        &&& self.root_spec() == other.root_spec()
        &&& self.node_seq().len() == other.node_seq().len()
        &&& forall|i: int| 0 <= i < self.node_seq().len() ==> (#[trigger] self.node_seq()[i] is Some <==> other.node_seq()[i] is Some)
            && (self.node_seq()[i] == other.node_seq()[i] || self.node_seq()[i].unwrap().same_node(other.node_seq()[i].unwrap()))
    }

    /// Evaluates every node on `effect`, in index order, as a chain that holds
    /// while the nodes come out active, and records the outcome.
    fn evaluate(&mut self, effect: &PropagatingEffect) -> (r: Outcome) {
        let slots = self.graph.slot_count();
        let order = self.present_order();
        let n = order.len();
        let mut inputs: Vec<PropagatingEffect> = Vec::new();
        let mut k: usize = 0;
        while k < n
            invariant
                n == order@.len(),
                k <= n,
                inputs@.len() == k,
                forall|j: int| 0 <= j < k ==> #[trigger] inputs@[j] == *effect,
            decreases n - k,
        {
            inputs.push(*effect);
            k = k + 1;
        }
        let ghost olds = self.node_seq();
        proof {
            assert(inputs@ =~= repeated(*effect, order@.len()));
        }
        let rb = self.evaluate_chain(&order, &inputs);
        let r = match rb {
            Ok(true) => Ok(PropagatingEffect::Deterministic(true)),
            Ok(false) => Ok(PropagatingEffect::Deterministic(false)),
            Err(e) => Err(e),
        };
        proof {
            let outs = choose|outs: Seq<Outcome>| slots_chain(olds, self.node_seq(), order@, inputs@, outs)
                && #[trigger] reason_result(outs, order@.len() as int, rb);
            assert(graph_outcome(outs, order@.len() as int, r));
            assert(order@ == present_order_of(olds));
            assert(slots_chain(olds, self.node_seq(), present_order_of(olds), repeated(*effect, present_order_of(olds).len()), outs)
                && graph_outcome(outs, present_order_of(olds).len() as int, r));
            let news = self.node_seq();
            assert(news.len() == slots);
            assert forall|i: int| 0 <= i < news.len() implies (#[trigger] news[i] is Some <==> olds[i] is Some)
                && (news[i] == olds[i] || news[i].unwrap().same_node(olds[i].unwrap())) by {
                if order@.take(outs.len() as int).contains(i as usize) {
                    let k = choose|k: int| 0 <= k < outs.len() && order@.take(outs.len() as int)[k] == i as usize;
                    assert(order@[k] == i as usize);
                    assert(news[order@[k] as int] is Some);
                    assert(node_exists(olds, order@[k] as int));
                } else {
                    assert(news[i] == olds[i]);
                }
            }
        }
        let ghost outs = choose|outs: Seq<Outcome>| slots_chain(olds, self.node_seq(), present_order_of(olds), repeated(*effect, present_order_of(olds).len()), outs)
            && graph_outcome(outs, present_order_of(olds).len() as int, r);
        match &r {
            Ok(e) => {
                self.effect = Some(*e);
            },
            Err(_) => {},
        }
        proof {
            assert(slots_chain(olds, self.node_seq(), present_order_of(olds), repeated(*effect, present_order_of(olds).len()), outs)
                && graph_outcome(outs, present_order_of(olds).len() as int, r));
        }
        r
    }

    fn is_singleton(&self) -> (r: bool) {
        false
    }

    /// True when some node of the graph is active.
    fn is_active(&self) -> (r: bool) {
        self.number_active() > 0
    }

    fn explain(&self) -> (r: Result<String, CausalityError>) {
        self.explain_all_causes()
    }

    fn id(&self) -> (r: IdentificationValue) {
        self.id
    }
}

/// At most every node is active.
pub proof fn lemma_active_le_count<T: Causable>(nodes: Seq<Option<T>>)
    ensures
        0 <= active_count(nodes) <= count_nodes(nodes),
    decreases nodes.len(),
{
    if nodes.len() > 0 {
        lemma_active_le_count(nodes.drop_last());
    }
}

} // verus!
