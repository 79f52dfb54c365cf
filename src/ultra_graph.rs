//! The graph container: one of the two representations at any time, with the
//! transition between them.
use vstd::prelude::*;
use crate::causaloid::Causable;
use crate::collection::Outcome;
use crate::effect::PropagatingEffect;
use crate::dynamic_graph::DynamicGraph;
use crate::errors::GraphError;
use crate::graph_spec::{
    graph_wf, has_cycle_spec, has_edge, has_weighted_edge, is_canonical_shortest_path, is_cycle, is_topological_order,
    node_evaluated, node_exists, reachable, total_edges,
};
use crate::graph_view::GraphView;
use crate::static_graph::CsmGraph;

verus! {

/// The representation a container holds.
#[derive(Clone)]
pub enum GraphState<N, W> {
    /// Mutable adjacency lists: structure may change, algorithms may not run.
    Dynamic(DynamicGraph<N, W>),
    /// Frozen compressed form: algorithms may run, structure may not change.
    Static(CsmGraph<N, W>),
}

/// A graph that is built in its mutable form and frozen before analysis.
#[derive(Clone)]
pub struct UltraGraphContainer<N, W> {
    state: GraphState<N, W>,
}

/// A container whose edges carry no weight.
pub type UltraGraph<N> = UltraGraphContainer<N, ()>;

impl<N, W: Copy> UltraGraphContainer<N, W> {
    pub closed spec fn wf(&self) -> bool {
        match self.state {
            GraphState::Dynamic(g) => g.wf(),
            GraphState::Static(g) => g.wf(),
        }
    }

    /// The node slots.
    pub closed spec fn node_seq(&self) -> Seq<Option<N>> {
        match self.state {
            GraphState::Dynamic(g) => g.node_seq(),
            GraphState::Static(g) => g.node_seq(),
        }
    }

    /// The outgoing edges of each slot.
    pub closed spec fn adj_seq(&self) -> Seq<Seq<(usize, W)>> {
        match self.state {
            GraphState::Dynamic(g) => g.adj_seq(),
            GraphState::Static(g) => g.adj_seq(),
        }
    }

    /// The root node's index, if any.
    pub closed spec fn root_spec(&self) -> Option<usize> {
        match self.state {
            GraphState::Dynamic(g) => g.root_spec(),
            GraphState::Static(g) => g.root_spec(),
        }
    }

    /// True when the container holds the frozen form.
    pub closed spec fn is_frozen_spec(&self) -> bool {
        self.state is Static
    }

    /// The model's structural invariant holds for every well-formed container.
    pub proof fn lemma_graph_wf(&self)
        requires
            self.wf(),
        ensures
            graph_wf(self.node_seq(), self.adj_seq(), self.root_spec()),
    {
        match self.state {
            GraphState::Dynamic(g) => g.lemma_graph_wf(),
            GraphState::Static(g) => g.lemma_graph_wf(),
        }
    }

    /// An empty, mutable graph.
    pub fn new() -> (r: Self)
        ensures
            r.wf(),
            !r.is_frozen_spec(),
            r.node_seq() == Seq::<Option<N>>::empty(),
            r.adj_seq() == Seq::<Seq<(usize, W)>>::empty(),
            r.root_spec() is None,
    {
        UltraGraphContainer { state: GraphState::Dynamic(DynamicGraph::new()) }
    }

    /// An empty, mutable graph with room for `capacity` nodes.
    pub fn with_capacity(capacity: usize) -> (r: Self)
        ensures
            r.wf(),
            !r.is_frozen_spec(),
            r.node_seq() == Seq::<Option<N>>::empty(),
            r.adj_seq() == Seq::<Seq<(usize, W)>>::empty(),
            r.root_spec() is None,
    {
        UltraGraphContainer { state: GraphState::Dynamic(DynamicGraph::with_capacity(capacity)) }
    }

    /// Number of slots, occupied or not; the next node added gets this index.
    pub fn slot_count(&self) -> (r: usize)
        ensures
            r == self.node_seq().len(),
    {
        match &self.state {
            GraphState::Dynamic(g) => g.slot_count(),
            GraphState::Static(g) => g.slot_count(),
        }
    }

    /// Switches to the frozen form. Every index, edge, weight and the root stay
    /// as they were; freezing a frozen graph changes nothing.
    pub fn freeze(&mut self)
        requires
            old(self).wf(),
        ensures
            final(self).wf(),
            final(self).is_frozen_spec(),
            final(self).node_seq() == old(self).node_seq(),
            final(self).adj_seq() == old(self).adj_seq(),
            final(self).root_spec() == old(self).root_spec(),
    {
        let mut st: GraphState<N, W> = GraphState::Dynamic(DynamicGraph::new());
        std::mem::swap(&mut self.state, &mut st);
        match st {
            GraphState::Dynamic(g) => {
                self.state = GraphState::Static(CsmGraph::from_dynamic(g));
            },
            GraphState::Static(g) => {
                self.state = GraphState::Static(g);
            },
        }
    }

    /// Switches back to the mutable form. Every index, edge, weight and the
    /// root stay as they were; unfreezing a mutable graph changes nothing.
    pub fn unfreeze(&mut self)
        requires
            old(self).wf(),
        ensures
            final(self).wf(),
            !final(self).is_frozen_spec(),
            final(self).node_seq() == old(self).node_seq(),
            final(self).adj_seq() == old(self).adj_seq(),
            final(self).root_spec() == old(self).root_spec(),
    {
        let mut st: GraphState<N, W> = GraphState::Dynamic(DynamicGraph::new());
        std::mem::swap(&mut self.state, &mut st);
        match st {
            GraphState::Dynamic(g) => {
                self.state = GraphState::Dynamic(g);
            },
            GraphState::Static(g) => {
                self.state = GraphState::Dynamic(g.to_dynamic());
            },
        }
    }

    /// Adds a node; fails on a frozen graph.
    pub fn add_node(&mut self, value: N) -> (r: Result<usize, GraphError>)
        requires
            old(self).wf(),
        ensures
            final(self).wf(),
            final(self).is_frozen_spec() == old(self).is_frozen_spec(),
            old(self).is_frozen_spec() ==> r == Err::<usize, GraphError>(GraphError::GraphIsFrozen) && *final(self) == *old(self),
            !old(self).is_frozen_spec() ==> r == Ok::<usize, GraphError>(old(self).node_seq().len() as usize)
                && final(self).node_seq() == old(self).node_seq().push(Some(value))
                && final(self).adj_seq() == old(self).adj_seq().push(Seq::empty())
                && final(self).root_spec() == old(self).root_spec(),
    {
        match &mut self.state {
            GraphState::Dynamic(g) => Ok(g.add_node(value)),
            GraphState::Static(_) => Err(GraphError::GraphIsFrozen),
        }
    }

    /// Adds a node and makes it the root; fails on a frozen graph or when a root exists.
    pub fn add_root_node(&mut self, value: N) -> (r: Result<usize, GraphError>)
        requires
            old(self).wf(),
        ensures
            final(self).wf(),
            final(self).is_frozen_spec() == old(self).is_frozen_spec(),
            old(self).is_frozen_spec() ==> r == Err::<usize, GraphError>(GraphError::GraphIsFrozen) && *final(self) == *old(self),
            !old(self).is_frozen_spec() && old(self).root_spec() is Some
                ==> r == Err::<usize, GraphError>(GraphError::RootNodeAlreadyExists) && final(self).node_seq() == old(self).node_seq()
                    && final(self).adj_seq() == old(self).adj_seq() && final(self).root_spec() == old(self).root_spec(),
            !old(self).is_frozen_spec() && old(self).root_spec() is None
                ==> r == Ok::<usize, GraphError>(old(self).node_seq().len() as usize)
                    && final(self).node_seq() == old(self).node_seq().push(Some(value))
                    && final(self).adj_seq() == old(self).adj_seq().push(Seq::empty())
                    && final(self).root_spec() == Some(old(self).node_seq().len() as usize),
    {
        match &mut self.state {
            GraphState::Dynamic(g) => g.add_root_node(value),
            GraphState::Static(_) => Err(GraphError::GraphIsFrozen),
        }
    }

    /// Removes a node with all its edges; fails on a frozen graph or a missing node.
    pub fn remove_node(&mut self, index: usize) -> (r: Result<(), GraphError>)
        requires
            old(self).wf(),
        ensures
            final(self).wf(),
            final(self).is_frozen_spec() == old(self).is_frozen_spec(),
            old(self).is_frozen_spec() ==> r == Err::<(), GraphError>(GraphError::GraphIsFrozen) && *final(self) == *old(self),
            !old(self).is_frozen_spec() ==> (r is Ok <==> node_exists(old(self).node_seq(), index as int)),
            !old(self).is_frozen_spec() && r is Err ==> r == Err::<(), GraphError>(GraphError::NodeNotFound(index))
                && final(self).node_seq() == old(self).node_seq() && final(self).adj_seq() == old(self).adj_seq()
                && final(self).root_spec() == old(self).root_spec(),
            r is Ok ==> final(self).node_seq() == old(self).node_seq().update(index as int, None),
            r is Ok ==> final(self).root_spec() == (if old(self).root_spec() == Some(index) {
                None
            } else {
                old(self).root_spec()
            }),
            r is Ok ==> forall|x: int, y: usize, w: W|
                #[trigger] has_weighted_edge(final(self).adj_seq(), x, y, w)
                    <==> has_weighted_edge(old(self).adj_seq(), x, y, w) && x != index && y != index,
    {
        match &mut self.state {
            GraphState::Dynamic(g) => g.remove_node(index),
            GraphState::Static(_) => Err(GraphError::GraphIsFrozen),
        }
    }

    /// Adds the edge `a -> b` of weight `weight`; fails on a frozen graph, a
    /// missing node, or an edge that is already there.
    pub fn add_edge(&mut self, a: usize, b: usize, weight: W) -> (r: Result<(), GraphError>)
        requires
            old(self).wf(),
        ensures
            final(self).wf(),
            final(self).is_frozen_spec() == old(self).is_frozen_spec(),
            final(self).node_seq() == old(self).node_seq(),
            final(self).root_spec() == old(self).root_spec(),
            old(self).is_frozen_spec() ==> r == Err::<(), GraphError>(GraphError::GraphIsFrozen),
            !old(self).is_frozen_spec() && !node_exists(old(self).node_seq(), a as int)
                ==> r == Err::<(), GraphError>(GraphError::NodeNotFound(a)),
            !old(self).is_frozen_spec() && node_exists(old(self).node_seq(), a as int)
                && !node_exists(old(self).node_seq(), b as int) ==> r == Err::<(), GraphError>(GraphError::NodeNotFound(b)),
            !old(self).is_frozen_spec() && node_exists(old(self).node_seq(), a as int)
                && node_exists(old(self).node_seq(), b as int) && has_edge(old(self).adj_seq(), a as int, b as int)
                ==> r == Err::<(), GraphError>(GraphError::EdgeAlreadyExists(a, b)),
            !old(self).is_frozen_spec() && node_exists(old(self).node_seq(), a as int)
                && node_exists(old(self).node_seq(), b as int) && !has_edge(old(self).adj_seq(), a as int, b as int)
                && total_edges(old(self).adj_seq()) == usize::MAX
                ==> r == Err::<(), GraphError>(GraphError::EdgeCountOverflow),
            r is Ok <==> (!old(self).is_frozen_spec() && node_exists(old(self).node_seq(), a as int)
                && node_exists(old(self).node_seq(), b as int) && !has_edge(old(self).adj_seq(), a as int, b as int)
                && total_edges(old(self).adj_seq()) < usize::MAX),
            r is Ok ==> final(self).adj_seq() == old(self).adj_seq().update(
                a as int,
                old(self).adj_seq()[a as int].push((b, weight)),
            ),
            r is Err ==> final(self).adj_seq() == old(self).adj_seq(),
    {
        match &mut self.state {
            GraphState::Dynamic(g) => g.add_edge(a, b, weight),
            GraphState::Static(_) => Err(GraphError::GraphIsFrozen),
        }
    }

    /// Removes the edge `a -> b`; fails on a frozen graph, a missing node or a missing edge.
    pub fn remove_edge(&mut self, a: usize, b: usize) -> (r: Result<(), GraphError>)
        requires
            old(self).wf(),
        ensures
            final(self).wf(),
            final(self).is_frozen_spec() == old(self).is_frozen_spec(),
            final(self).node_seq() == old(self).node_seq(),
            final(self).root_spec() == old(self).root_spec(),
            old(self).is_frozen_spec() ==> r == Err::<(), GraphError>(GraphError::GraphIsFrozen),
            !old(self).is_frozen_spec() && !node_exists(old(self).node_seq(), a as int)
                ==> r == Err::<(), GraphError>(GraphError::NodeNotFound(a)),
            !old(self).is_frozen_spec() && node_exists(old(self).node_seq(), a as int)
                && !node_exists(old(self).node_seq(), b as int) ==> r == Err::<(), GraphError>(GraphError::NodeNotFound(b)),
            !old(self).is_frozen_spec() && node_exists(old(self).node_seq(), a as int)
                && node_exists(old(self).node_seq(), b as int) && !has_edge(old(self).adj_seq(), a as int, b as int)
                ==> r == Err::<(), GraphError>(GraphError::EdgeNotFound(a, b)),
            r is Ok <==> !old(self).is_frozen_spec() && has_edge(old(self).adj_seq(), a as int, b as int),
            r is Err ==> final(self).adj_seq() == old(self).adj_seq(),
            r is Ok ==> forall|x: int, y: usize, w: W|
                #[trigger] has_weighted_edge(final(self).adj_seq(), x, y, w)
                    <==> has_weighted_edge(old(self).adj_seq(), x, y, w) && !(x == a && y == b),
    {
        match &mut self.state {
            GraphState::Dynamic(g) => g.remove_edge(a, b),
            GraphState::Static(_) => Err(GraphError::GraphIsFrozen),
        }
    }

    /// Removes every node, edge and the root; fails on a frozen graph.
    pub fn clear(&mut self) -> (r: Result<(), GraphError>)
        requires
            old(self).wf(),
        ensures
            final(self).wf(),
            final(self).is_frozen_spec() == old(self).is_frozen_spec(),
            old(self).is_frozen_spec() ==> r == Err::<(), GraphError>(GraphError::GraphIsFrozen) && *final(self) == *old(self),
            !old(self).is_frozen_spec() ==> r is Ok && final(self).node_seq() == Seq::<Option<N>>::empty()
                && final(self).adj_seq() == Seq::<Seq<(usize, W)>>::empty() && final(self).root_spec() is None,
    {
        match &mut self.state {
            GraphState::Dynamic(g) => {
                g.clear();
                Ok(())
            },
            GraphState::Static(_) => Err(GraphError::GraphIsFrozen),
        }
    }

    /// A cycle of the graph, if it has one; fails unless frozen.
    pub fn find_cycle(&self) -> (r: Result<Option<Vec<usize>>, GraphError>)
        requires
            self.wf(),
        ensures
            !self.is_frozen_spec() ==> r == Err::<Option<Vec<usize>>, GraphError>(GraphError::GraphNotFrozen),
            self.is_frozen_spec() ==> (r matches Ok(c) && (c is Some <==> has_cycle_spec(self.node_seq(), self.adj_seq()))),
            r matches Ok(Some(c)) ==> is_cycle(self.node_seq(), self.adj_seq(), c@),
    {
        match &self.state {
            GraphState::Static(g) => Ok(g.find_cycle()),
            GraphState::Dynamic(_) => Err(GraphError::GraphNotFrozen),
        }
    }

    /// True when the graph has a cycle; fails unless frozen.
    pub fn has_cycle(&self) -> (r: Result<bool, GraphError>)
        requires
            self.wf(),
        ensures
            !self.is_frozen_spec() ==> r == Err::<bool, GraphError>(GraphError::GraphNotFrozen),
            self.is_frozen_spec() ==> r == Ok::<bool, GraphError>(has_cycle_spec(self.node_seq(), self.adj_seq())),
    {
        match &self.state {
            GraphState::Static(g) => Ok(g.has_cycle()),
            GraphState::Dynamic(_) => Err(GraphError::GraphNotFrozen),
        }
    }

    /// The nodes in an order where every edge points forward, `None` when the
    /// graph has a cycle; fails unless frozen.
    pub fn topological_sort(&self) -> (r: Result<Option<Vec<usize>>, GraphError>)
        requires
            self.wf(),
        ensures
            !self.is_frozen_spec() ==> r == Err::<Option<Vec<usize>>, GraphError>(GraphError::GraphNotFrozen),
            self.is_frozen_spec() ==> (r matches Ok(o) && (o is Some <==> !has_cycle_spec(self.node_seq(), self.adj_seq()))),
            r matches Ok(Some(o)) ==> is_topological_order(self.node_seq(), self.adj_seq(), o@),
    {
        match &self.state {
            GraphState::Static(g) => Ok(g.topological_sort()),
            GraphState::Dynamic(_) => Err(GraphError::GraphNotFrozen),
        }
    }

    /// True when a walk leads from `start_index` to `stop_index` (false for an
    /// index that is not a node); fails unless frozen.
    pub fn is_reachable(&self, start_index: usize, stop_index: usize) -> (r: Result<bool, GraphError>)
        requires
            self.wf(),
        ensures
            !self.is_frozen_spec() ==> r == Err::<bool, GraphError>(GraphError::GraphNotFrozen),
            self.is_frozen_spec() ==> r == Ok::<bool, GraphError>(
                reachable(self.node_seq(), self.adj_seq(), start_index as int, stop_index as int),
            ),
    {
        match &self.state {
            GraphState::Static(g) => Ok(g.is_reachable(start_index, stop_index)),
            GraphState::Dynamic(_) => Err(GraphError::GraphNotFrozen),
        }
    }

    /// The number of edges on a shortest walk between the two indices, `None`
    /// when there is none; fails unless frozen.
    pub fn shortest_path_len(&self, start_index: usize, stop_index: usize) -> (r: Result<Option<usize>, GraphError>)
        requires
            self.wf(),
        ensures
            !self.is_frozen_spec() ==> r == Err::<Option<usize>, GraphError>(GraphError::GraphNotFrozen),
            self.is_frozen_spec() ==> (r matches Ok(l)
                && (l is Some <==> reachable(self.node_seq(), self.adj_seq(), start_index as int, stop_index as int))),
            r matches Ok(Some(l)) ==> exists|p: Seq<usize>|
                is_canonical_shortest_path(self.node_seq(), self.adj_seq(), start_index as int, stop_index as int, p) && p.len() == l + 1,
    {
        match &self.state {
            GraphState::Static(g) => Ok(g.shortest_path_len(start_index, stop_index)),
            GraphState::Dynamic(_) => Err(GraphError::GraphNotFrozen),
        }
    }

    /// For every slot, whether a walk leads there from `start_index`; fails unless frozen.
    pub fn reachable_from(&self, start_index: usize) -> (r: Result<Vec<bool>, GraphError>)
        requires
            self.wf(),
        ensures
            !self.is_frozen_spec() ==> r is Err,
            self.is_frozen_spec() ==> r is Ok,
            r matches Ok(v) ==> v@.len() == self.node_seq().len() && forall|x: int| 0 <= x < v@.len()
                ==> (#[trigger] v@[x] <==> reachable(self.node_seq(), self.adj_seq(), start_index as int, x)),
    {
        match &self.state {
            GraphState::Static(g) => Ok(g.reachable_set(start_index)),
            GraphState::Dynamic(_) => Err(GraphError::GraphNotFrozen),
        }
    }

    /// The canonical shortest walk between the two indices (ties broken towards
    /// low indices), `None` when there is none; fails unless frozen.
    pub fn shortest_path(&self, start_index: usize, stop_index: usize) -> (r: Result<Option<Vec<usize>>, GraphError>)
        requires
            self.wf(),
        ensures
            !self.is_frozen_spec() ==> r == Err::<Option<Vec<usize>>, GraphError>(GraphError::GraphNotFrozen),
            self.is_frozen_spec() ==> (r matches Ok(p)
                && (p is Some <==> reachable(self.node_seq(), self.adj_seq(), start_index as int, stop_index as int))),
            r matches Ok(Some(p)) ==> is_canonical_shortest_path(self.node_seq(), self.adj_seq(), start_index as int, stop_index as int, p@),
    {
        match &self.state {
            GraphState::Static(g) => Ok(g.shortest_path(start_index, stop_index)),
            GraphState::Dynamic(_) => Err(GraphError::GraphNotFrozen),
        }
    }
}

impl<N, W: Copy> GraphView<N, W> for UltraGraphContainer<N, W> {
    open spec fn graph_inv(&self) -> bool {
        self.wf()
    }

    open spec fn node_slots(&self) -> Seq<Option<N>> {
        self.node_seq()
    }

    open spec fn edge_lists(&self) -> Seq<Seq<(usize, W)>> {
        self.adj_seq()
    }

    open spec fn root_slot(&self) -> Option<usize> {
        self.root_spec()
    }

    open spec fn frozen(&self) -> bool {
        self.is_frozen_spec()
    }

    fn is_frozen(&self) -> (r: bool) {
        match &self.state {
            GraphState::Static(_) => true,
            GraphState::Dynamic(_) => false,
        }
    }

    fn is_empty(&self) -> (r: bool) {
        self.number_nodes() == 0
    }

    fn contains_node(&self, index: usize) -> (r: bool) {
        match &self.state {
            GraphState::Dynamic(g) => g.contains_node(index),
            GraphState::Static(g) => g.contains_node(index),
        }
    }

    fn get_node(&self, index: usize) -> (r: Option<&N>) {
        match &self.state {
            GraphState::Dynamic(g) => g.get_node(index),
            GraphState::Static(g) => g.get_node(index),
        }
    }

    fn number_nodes(&self) -> (r: usize) {
        match &self.state {
            GraphState::Dynamic(g) => g.number_nodes(),
            GraphState::Static(g) => g.number_nodes(),
        }
    }

    fn contains_edge(&self, a: usize, b: usize) -> (r: bool) {
        match &self.state {
            GraphState::Dynamic(g) => g.contains_edge(a, b),
            GraphState::Static(g) => g.contains_edge(a, b),
        }
    }

    fn number_edges(&self) -> (r: usize) {
        match &self.state {
            GraphState::Dynamic(g) => g.number_edges(),
            GraphState::Static(g) => g.number_edges(),
        }
    }

    fn get_all_nodes(&self) -> (r: Vec<&N>) {
        match &self.state {
            GraphState::Dynamic(g) => g.get_all_nodes(),
            GraphState::Static(g) => g.get_all_nodes(),
        }
    }

    fn get_edges(&self, source: usize) -> (r: Option<Vec<(usize, W)>>) {
        match &self.state {
            GraphState::Dynamic(g) => g.get_edges(source),
            GraphState::Static(g) => g.get_edges(source),
        }
    }

    fn get_last_index(&self) -> (r: Option<usize>) {
        match &self.state {
            GraphState::Dynamic(g) => {
                let r = g.get_last_index();
                assert(self.node_slots() == g.node_seq());
                r
            },
            GraphState::Static(g) => {
                let r = g.get_last_index();
                assert(self.node_slots() == g.node_seq());
                r
            },
        }
    }

    fn contains_root_node(&self) -> (r: bool) {
        self.get_root_index().is_some()
    }

    fn get_root_node(&self) -> (r: Option<&N>) {
        proof {
            self.lemma_graph_wf();
        }
        match self.get_root_index() {
            Some(i) => self.get_node(i),
            None => None,
        }
    }

    fn get_root_index(&self) -> (r: Option<usize>) {
        match &self.state {
            GraphState::Dynamic(g) => g.get_root_index(),
            GraphState::Static(g) => g.get_root_index(),
        }
    }
}

impl<N: Causable, W: Copy> UltraGraphContainer<N, W> {
    /// Evaluates the node in slot `index` on `effect`, in place; allowed in
    /// either representation since it leaves the structure as it is.
    pub fn evaluate_node(&mut self, index: usize, effect: &PropagatingEffect) -> (r: Outcome)
        requires
            old(self).wf(),
            node_exists(old(self).node_seq(), index as int),
            old(self).node_seq()[index as int].unwrap().causable_inv(),
        ensures
            final(self).wf(),
            final(self).is_frozen_spec() == old(self).is_frozen_spec(),
            final(self).adj_seq() == old(self).adj_seq(),
            final(self).root_spec() == old(self).root_spec(),
            node_evaluated(old(self).node_seq(), final(self).node_seq(), index as int, *effect, r),
    {
        match &mut self.state {
            GraphState::Dynamic(g) => g.evaluate_node(index, effect),
            GraphState::Static(g) => g.evaluate_node(index, effect),
        }
    }
}

} // verus!
