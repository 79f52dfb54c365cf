//! The mutable representation: a node arena of slots plus one adjacency list per slot.
use vstd::prelude::*;
use crate::causaloid::Causable;
use crate::collection::Outcome;
use crate::effect::{CausalityError, PropagatingEffect};
use crate::errors::GraphError;
use crate::node_slots::{count_present, last_present, present_refs};
use crate::graph_spec::{
    count_nodes, graph_wf, has_edge, node_evaluated, present_nodes, refs_match, has_weighted_edge, lemma_list_remove, node_exists, targets_distinct,
    total_edges,
};

verus! {

/// A mutable graph held as adjacency lists. Removing a node empties its slot;
/// indices are never reused.
#[derive(Clone)]
pub struct DynamicGraph<N, W> {
    nodes: Vec<Option<N>>,
    edges: Vec<Vec<(usize, W)>>,
    root: Option<usize>,
    num_edges: usize,
}

impl<N, W: Copy> DynamicGraph<N, W> {
    /// A well-formed graph satisfies the structural invariant of its model.
    pub proof fn lemma_graph_wf(&self)
        requires
            self.wf(),
        ensures
            graph_wf(self.node_seq(), self.adj_seq(), self.root_spec()),
    {
    }

    /// The node slots.
    pub closed spec fn node_seq(&self) -> Seq<Option<N>> {
        self.nodes@
    }

    /// The outgoing edges of each slot.
    pub closed spec fn adj_seq(&self) -> Seq<Seq<(usize, W)>> {
        self.edges@.map_values(|l: Vec<(usize, W)>| l@)
    }

    /// The root node's index, if any.
    pub closed spec fn root_spec(&self) -> Option<usize> {
        self.root
    }

    pub closed spec fn wf(&self) -> bool {
        &&& graph_wf(self.node_seq(), self.adj_seq(), self.root)
        &&& self.num_edges as int == total_edges(self.adj_seq())
    }

    /// An empty graph.
    pub fn new() -> (r: Self)
        ensures
            r.wf(),
            r.node_seq() == Seq::<Option<N>>::empty(),
            r.adj_seq() == Seq::<Seq<(usize, W)>>::empty(),
            r.root_spec() is None,
    {
        let r = DynamicGraph { nodes: Vec::new(), edges: Vec::new(), root: None, num_edges: 0 };
        assert(r.adj_seq() =~= Seq::<Seq<(usize, W)>>::empty());
        r
    }

    /// An empty graph with room for `capacity` nodes.
    pub fn with_capacity(capacity: usize) -> (r: Self)
        ensures
            r.wf(),
            r.node_seq() == Seq::<Option<N>>::empty(),
            r.adj_seq() == Seq::<Seq<(usize, W)>>::empty(),
            r.root_spec() is None,
    {
        let r = DynamicGraph {
            nodes: Vec::with_capacity(capacity),
            edges: Vec::with_capacity(capacity),
            root: None,
            num_edges: 0,
        };
        assert(r.adj_seq() =~= Seq::<Seq<(usize, W)>>::empty());
        r
    }

    /// Puts a node into a new slot at the end and returns its index.
    pub fn add_node(&mut self, value: N) -> (r: usize)
        requires
            old(self).wf(),
        ensures
            final(self).wf(),
            r as int == old(self).node_seq().len(),
            final(self).node_seq() == old(self).node_seq().push(Some(value)),
            final(self).adj_seq() == old(self).adj_seq().push(Seq::empty()),
            final(self).root_spec() == old(self).root_spec(),
    {
        let idx = self.nodes.len();
        proof {
            lemma_total_edges_push_empty(self.adj_seq());
        }
        self.nodes.push(Some(value));
        self.edges.push(Vec::new());
        assert(self.adj_seq() =~= old(self).adj_seq().push(Seq::empty()));
        idx
    }

    /// Position of the edge `a -> b` in the list of `a`, if present.
    fn find_edge(&self, a: usize, b: usize) -> (r: Option<usize>)
        requires
            self.wf(),
            (a as int) < self.node_seq().len(),
        ensures
            r is None ==> !has_edge(self.adj_seq(), a as int, b as int),
            r matches Some(k) ==> k < self.adj_seq()[a as int].len() && self.adj_seq()[a as int][k as int].0 == b,
    {
        let list = &self.edges[a];
        assert(list@ == self.adj_seq()[a as int]);
        let mut k: usize = 0;
        while k < list.len()
            invariant
                k <= list@.len(),
                list@ == self.adj_seq()[a as int],
                forall|j: int| 0 <= j < k ==> list@[j].0 != b,
            decreases list@.len() - k,
        {
            if list[k].0 == b {
                return Some(k);
            }
            k = k + 1;
        }
        None
    }

    /// True when slot `index` holds a node.
    pub fn contains_node(&self, index: usize) -> (r: bool)
        requires
            self.wf(),
        ensures
            r == node_exists(self.node_seq(), index as int),
    {
        index < self.nodes.len() && self.nodes[index].is_some()
    }

    /// True when the edge `a -> b` is present.
    pub fn contains_edge(&self, a: usize, b: usize) -> (r: bool)
        requires
            self.wf(),
        ensures
            r == has_edge(self.adj_seq(), a as int, b as int),
    {
        if a < self.nodes.len() {
            self.find_edge(a, b).is_some()
        } else {
            false
        }
    }

    /// Adds the edge `a -> b` with weight `weight` at the end of the list of `a`.
    pub fn add_edge(&mut self, a: usize, b: usize, weight: W) -> (r: Result<(), GraphError>)
        requires
            old(self).wf(),
        ensures
            final(self).wf(),
            final(self).node_seq() == old(self).node_seq(),
            final(self).root_spec() == old(self).root_spec(),
            !node_exists(old(self).node_seq(), a as int) ==> r == Err::<(), GraphError>(GraphError::NodeNotFound(a)),
            node_exists(old(self).node_seq(), a as int) && !node_exists(old(self).node_seq(), b as int)
                ==> r == Err::<(), GraphError>(GraphError::NodeNotFound(b)),
            node_exists(old(self).node_seq(), a as int) && node_exists(old(self).node_seq(), b as int)
                && has_edge(old(self).adj_seq(), a as int, b as int)
                ==> r == Err::<(), GraphError>(GraphError::EdgeAlreadyExists(a, b)),
            node_exists(old(self).node_seq(), a as int) && node_exists(old(self).node_seq(), b as int)
                && !has_edge(old(self).adj_seq(), a as int, b as int)
                && total_edges(old(self).adj_seq()) == usize::MAX
                ==> r == Err::<(), GraphError>(GraphError::EdgeCountOverflow),
            r is Ok <==> (node_exists(old(self).node_seq(), a as int) && node_exists(old(self).node_seq(), b as int)
                && !has_edge(old(self).adj_seq(), a as int, b as int)
                && total_edges(old(self).adj_seq()) < usize::MAX),
            r is Ok ==> final(self).adj_seq() == old(self).adj_seq().update(
                a as int,
                old(self).adj_seq()[a as int].push((b, weight)),
            ),
            r is Err ==> final(self).adj_seq() == old(self).adj_seq(),
    {
        if !self.contains_node(a) {
            return Err(GraphError::NodeNotFound(a));
        }
        if !self.contains_node(b) {
            return Err(GraphError::NodeNotFound(b));
        }
        if self.find_edge(a, b).is_some() {
            return Err(GraphError::EdgeAlreadyExists(a, b));
        }
        if self.num_edges == usize::MAX {
            return Err(GraphError::EdgeCountOverflow);
        }
        let ghost old_adj = self.adj_seq();
        let mut list: Vec<(usize, W)> = Vec::new();
        self.edges.set_and_swap(a, &mut list);
        list.push((b, weight));
        self.edges.set_and_swap(a, &mut list);
        self.num_edges = self.num_edges + 1;
        proof {
            let new_list = old_adj[a as int].push((b, weight));
            assert(self.adj_seq() =~= old_adj.update(a as int, new_list));
            lemma_total_edges_update(old_adj, a as int, new_list);
            let adj = self.adj_seq();
            assert forall|x: int| 0 <= x < adj.len() implies targets_distinct(#[trigger] adj[x]) by {
                if x == a as int {
                    assert forall|k1: int, k2: int| 0 <= k1 < adj[x].len() && 0 <= k2 < adj[x].len() && k1 != k2
                        implies #[trigger] adj[x][k1].0 != #[trigger] adj[x][k2].0 by {
                        if k1 == new_list.len() - 1 {
                            assert(old_adj[x][k2].0 != b);
                        } else if k2 == new_list.len() - 1 {
                            assert(old_adj[x][k1].0 != b);
                        } else {
                            assert(targets_distinct(old_adj[x]));
                        }
                    }
                } else {
                    assert(adj[x] == old_adj[x]);
                }
            }
        }
        Ok(())
    }

    /// Adds a node and marks it as the root; fails when a root is already set.
    pub fn add_root_node(&mut self, value: N) -> (r: Result<usize, GraphError>)
        requires
            old(self).wf(),
        ensures
            final(self).wf(),
            old(self).root_spec() is Some ==> r == Err::<usize, GraphError>(GraphError::RootNodeAlreadyExists)
                && *final(self) == *old(self),
            old(self).root_spec() is None ==> r == Ok::<usize, GraphError>(old(self).node_seq().len() as usize)
                && final(self).node_seq() == old(self).node_seq().push(Some(value))
                && final(self).adj_seq() == old(self).adj_seq().push(Seq::empty())
                && final(self).root_spec() == Some(old(self).node_seq().len() as usize),
    {
        if self.root.is_some() {
            return Err(GraphError::RootNodeAlreadyExists);
        }
        let idx = self.add_node(value);
        self.root = Some(idx);
        Ok(idx)
    }

    /// Removes the edge `a -> b`.
    pub fn remove_edge(&mut self, a: usize, b: usize) -> (r: Result<(), GraphError>)
        requires
            old(self).wf(),
        ensures
            final(self).wf(),
            final(self).node_seq() == old(self).node_seq(),
            final(self).root_spec() == old(self).root_spec(),
            !node_exists(old(self).node_seq(), a as int) ==> r == Err::<(), GraphError>(GraphError::NodeNotFound(a)),
            node_exists(old(self).node_seq(), a as int) && !node_exists(old(self).node_seq(), b as int)
                ==> r == Err::<(), GraphError>(GraphError::NodeNotFound(b)),
            node_exists(old(self).node_seq(), a as int) && node_exists(old(self).node_seq(), b as int)
                && !has_edge(old(self).adj_seq(), a as int, b as int)
                ==> r == Err::<(), GraphError>(GraphError::EdgeNotFound(a, b)),
            r is Ok <==> has_edge(old(self).adj_seq(), a as int, b as int),
            r is Err ==> final(self).adj_seq() == old(self).adj_seq(),
            r is Ok ==> forall|x: int, y: usize, w: W|
                #[trigger] has_weighted_edge(final(self).adj_seq(), x, y, w)
                    <==> has_weighted_edge(old(self).adj_seq(), x, y, w) && !(x == a && y == b),
    {
        if !self.contains_node(a) {
            return Err(GraphError::NodeNotFound(a));
        }
        if !self.contains_node(b) {
            return Err(GraphError::NodeNotFound(b));
        }
        match self.find_edge(a, b) {
            None => Err(GraphError::EdgeNotFound(a, b)),
            Some(k) => {
                self.remove_edge_at(a, k);
                Ok(())
            },
        }
    }

    /// Removes the `k`-th edge of the list of `a`.
    fn remove_edge_at(&mut self, a: usize, k: usize)
        requires
            old(self).wf(),
            (a as int) < old(self).node_seq().len(),
            (k as int) < old(self).adj_seq()[a as int].len(),
        ensures
            final(self).wf(),
            final(self).node_seq() == old(self).node_seq(),
            final(self).root_spec() == old(self).root_spec(),
            final(self).adj_seq() == old(self).adj_seq().update(a as int, old(self).adj_seq()[a as int].remove(k as int)),
            forall|x: int, y: usize, w: W|
                #[trigger] has_weighted_edge(final(self).adj_seq(), x, y, w)
                    <==> has_weighted_edge(old(self).adj_seq(), x, y, w)
                        && !(x == a && y == old(self).adj_seq()[a as int][k as int].0),
    {
        let ghost old_adj = self.adj_seq();
        let mut list: Vec<(usize, W)> = Vec::new();
        self.edges.set_and_swap(a, &mut list);
        assert(list@ == old_adj[a as int]);
        list.remove(k);
        self.edges.set_and_swap(a, &mut list);
        proof {
            let ol = old_adj[a as int];
            let nl = ol.remove(k as int);
            assert(self.adj_seq() =~= old_adj.update(a as int, nl));
            lemma_total_edges_update(old_adj, a as int, nl);
            lemma_total_edges_ge(old_adj, a as int);
            lemma_list_remove(ol, k as int);
            let adj = self.adj_seq();
            assert forall|x: int, y: usize, w: W|
                #[trigger] has_weighted_edge(adj, x, y, w)
                    <==> has_weighted_edge(old_adj, x, y, w) && !(x == a && y == ol[k as int].0) by {
                if 0 <= x < adj.len() && x != a {
                    assert(adj[x] == old_adj[x]);
                }
            }
            assert forall|x: int| 0 <= x < adj.len() implies targets_distinct(#[trigger] adj[x]) by {
                if x != a {
                    assert(adj[x] == old_adj[x]);
                }
            }
            assert forall|x: int, j: int|
                0 <= x < adj.len() && 0 <= j < adj[x].len() implies node_exists(self.node_seq(), #[trigger] adj[x][j].0 as int) by {
                if x == a as int {
                    let i = if j < k { j } else { j + 1 };
                    assert(nl[j] == ol[i]);
                    assert(ol[i] == old_adj[x][i]);
                } else {
                    assert(adj[x] == old_adj[x]);
                }
            }
        }
        self.num_edges = self.num_edges - 1;
    }

    /// Removes the node in slot `index` together with every edge that starts or
    /// ends there; the slot stays empty. A removed root leaves the graph without root.
    pub fn remove_node(&mut self, index: usize) -> (r: Result<(), GraphError>)
        requires
            old(self).wf(),
        ensures
            final(self).wf(),
            r is Ok <==> node_exists(old(self).node_seq(), index as int),
            r is Err ==> r == Err::<(), GraphError>(GraphError::NodeNotFound(index)) && *final(self) == *old(self),
            r is Ok ==> final(self).node_seq() == old(self).node_seq().update(index as int, None),
            r is Ok ==> final(self).root_spec() == (if old(self).root_spec() == Some(index) {
                None
            } else {
                old(self).root_spec()
            }),
            r is Ok ==> forall|x: int, y: usize, w: W|
                #[trigger] has_weighted_edge(final(self).adj_seq(), x, y, w)
                    <==> has_weighted_edge(old(self).adj_seq(), x, y, w) && x != index && y != index,
    {
        if !self.contains_node(index) {
            return Err(GraphError::NodeNotFound(index));
        }
        let ghost old_adj = self.adj_seq();
        let n = self.nodes.len();
        let mut a: usize = 0;
        while a < n
            invariant
                self.wf(),
                n == self.node_seq().len(),
                self.node_seq() == old(self).node_seq(),
                self.root_spec() == old(self).root_spec(),
                old_adj == old(self).adj_seq(),
                old_adj.len() == n,
                node_exists(self.node_seq(), index as int),
                forall|x: int| a <= x < n || x == index ==> #[trigger] self.adj_seq()[x] == old_adj[x],
                forall|x: int, y: usize, w: W| 0 <= x < a && x != index ==>
                    (#[trigger] has_weighted_edge(self.adj_seq(), x, y, w)
                        <==> has_weighted_edge(old_adj, x, y, w) && y != index),
            decreases n - a,
        {
            if a != index {
                let ghost before = self.adj_seq();
                match self.find_edge(a, index) {
                    Some(k) => {
                        self.remove_edge_at(a, k);
                        proof {
                            assert forall|x: int| a < x < n || x == index implies #[trigger] self.adj_seq()[x] == old_adj[x] by {
                                assert(self.adj_seq()[x] == before[x]);
                            }
                            assert forall|x: int, y: usize, w: W| 0 <= x < a + 1 && x != index implies
                                (#[trigger] has_weighted_edge(self.adj_seq(), x, y, w)
                                    <==> has_weighted_edge(old_adj, x, y, w) && y != index) by {
                                if x < a {
                                    assert(has_weighted_edge(self.adj_seq(), x, y, w) == has_weighted_edge(before, x, y, w));
                                } else {
                                    assert(before[x] == old_adj[x]);
                                    assert(has_weighted_edge(before, x, y, w) == has_weighted_edge(old_adj, x, y, w));
                                }
                            }
                        }
                    },
                    None => {
                        proof {
                            assert forall|x: int, y: usize, w: W| 0 <= x < a + 1 && x != index implies
                                (#[trigger] has_weighted_edge(self.adj_seq(), x, y, w)
                                    <==> has_weighted_edge(old_adj, x, y, w) && y != index) by {
                                if x == a as int && has_weighted_edge(old_adj, x, y, w) && y == index {
                                    let j = choose|j: int| 0 <= j < old_adj[x].len() && old_adj[x][j] == (y, w);
                                    assert(self.adj_seq()[x][j].0 == index);
                                }
                            }
                        }
                    },
                }
            }
            a = a + 1;
        }
        let ghost mid_adj = self.adj_seq();
        let mut list: Vec<(usize, W)> = Vec::new();
        self.edges.set_and_swap(index, &mut list);
        proof {
            assert(self.adj_seq() =~= mid_adj.update(index as int, Seq::empty()));
            lemma_total_edges_update(mid_adj, index as int, Seq::empty());
            lemma_total_edges_ge(mid_adj, index as int);
        }
        self.num_edges = self.num_edges - list.len();
        self.nodes.set(index, None);
        if self.root == Some(index) {
            self.root = None;
        }
        proof {
            let adj = self.adj_seq();
            let nodes = self.node_seq();
            assert forall|x: int, y: usize, w: W|
                #[trigger] has_weighted_edge(adj, x, y, w)
                    <==> has_weighted_edge(old_adj, x, y, w) && x != index && y != index by {
                if x == index as int {
                    assert(adj[x].len() == 0);
                    if has_weighted_edge(old_adj, x, y, w) && y != index {
                        let j = choose|j: int| 0 <= j < old_adj[x].len() && old_adj[x][j] == (y, w);
                    }
                } else if 0 <= x < n {
                    assert(adj[x] == mid_adj[x]);
                    assert(has_weighted_edge(adj, x, y, w) == has_weighted_edge(mid_adj, x, y, w));
                }
            }
            assert forall|x: int, j: int|
                0 <= x < adj.len() && 0 <= j < adj[x].len() implies node_exists(nodes, #[trigger] adj[x][j].0 as int) by {
                assert(adj[x] == mid_adj[x]);
                assert(node_exists(old(self).node_seq(), mid_adj[x][j].0 as int));
                let e = adj[x][j];
                assert(has_weighted_edge(adj, x, e.0, e.1));
            }
            assert forall|x: int| 0 <= x < adj.len() && nodes[x] is None implies #[trigger] adj[x].len() == 0 by {
                if x != index as int {
                    assert(adj[x] == mid_adj[x]);
                }
            }
            assert forall|x: int| 0 <= x < adj.len() implies targets_distinct(#[trigger] adj[x]) by {
                if x != index as int {
                    assert(adj[x] == mid_adj[x]);
                }
            }
        }
        Ok(())
    }

    /// Number of nodes held.
    pub fn number_nodes(&self) -> (r: usize)
        requires
            self.wf(),
        ensures
            r as int == count_nodes(self.node_seq()),
    {
        count_present(&self.nodes)
    }

    /// References to all nodes, in index order.
    pub fn get_all_nodes(&self) -> (r: Vec<&N>)
        requires
            self.wf(),
        ensures
            refs_match(r@, present_nodes(self.node_seq())),
    {
        present_refs(&self.nodes)
    }

    /// The highest index that holds a node, if any.
    pub fn get_last_index(&self) -> (r: Option<usize>)
        requires
            self.wf(),
        ensures
            r is None <==> forall|i: int| !node_exists(self.node_seq(), i),
            r matches Some(i) ==> node_exists(self.node_seq(), i as int)
                && forall|j: int| i < j ==> !node_exists(self.node_seq(), j),
    {
        last_present(&self.nodes)
    }

    /// The outgoing edges of `source` as (target, weight), or `None` when it is not a node.
    pub fn get_edges(&self, source: usize) -> (r: Option<Vec<(usize, W)>>)
        requires
            self.wf(),
        ensures
            r is Some <==> node_exists(self.node_seq(), source as int),
            r matches Some(l) ==> l@ == self.adj_seq()[source as int],
    {
        if !self.contains_node(source) {
            return None;
        }
        let list = &self.edges[source];
        let mut out: Vec<(usize, W)> = Vec::new();
        let mut k: usize = 0;
        while k < list.len()
            invariant
                k <= list@.len(),
                out@ == list@.take(k as int),
            decreases list@.len() - k,
        {
            out.push(list[k]);
            assert(out@ =~= list@.take(k + 1));
            k = k + 1;
        }
        assert(list@.take(k as int) =~= list@);
        Some(out)
    }

    /// The root node's index, if any.
    pub fn get_root_index(&self) -> (r: Option<usize>)
        ensures
            r == self.root_spec(),
    {
        self.root
    }

    /// Removes every node and edge and the root.
    pub fn clear(&mut self)
        ensures
            final(self).wf(),
            final(self).node_seq() == Seq::<Option<N>>::empty(),
            final(self).adj_seq() == Seq::<Seq<(usize, W)>>::empty(),
            final(self).root_spec() is None,
    {
        *self = DynamicGraph::new();
    }

    /// Number of edges held.
    pub fn number_edges(&self) -> (r: usize)
        requires
            self.wf(),
        ensures
            r as int == total_edges(self.adj_seq()),
    {
        self.num_edges
    }

    /// Takes the graph apart into its node slots, edge lists, root and edge count.
    pub(crate) fn into_parts(self) -> (r: (Vec<Option<N>>, Vec<Vec<(usize, W)>>, Option<usize>, usize))
        requires
            self.wf(),
        ensures
            r.0@ == self.node_seq(),
            r.1@.map_values(|l: Vec<(usize, W)>| l@) == self.adj_seq(),
            r.2 == self.root_spec(),
            r.3 as int == total_edges(self.adj_seq()),
            graph_wf(self.node_seq(), self.adj_seq(), self.root_spec()),
    {
        (self.nodes, self.edges, self.root, self.num_edges)
    }

    /// Builds a graph from node slots, edge lists, root and edge count.
    pub(crate) fn from_parts(
        nodes: Vec<Option<N>>,
        edges: Vec<Vec<(usize, W)>>,
        root: Option<usize>,
        num_edges: usize,
    ) -> (r: Self)
        requires
            graph_wf(nodes@, edges@.map_values(|l: Vec<(usize, W)>| l@), root),
            num_edges as int == total_edges(edges@.map_values(|l: Vec<(usize, W)>| l@)),
        ensures
            r.wf(),
            r.node_seq() == nodes@,
            r.adj_seq() == edges@.map_values(|l: Vec<(usize, W)>| l@),
            r.root_spec() == root,
    {
        DynamicGraph { nodes, edges, root, num_edges }
    }

    /// Number of slots, occupied or not.
    pub fn slot_count(&self) -> (r: usize)
        ensures
            r == self.node_seq().len(),
    {
        self.nodes.len()
    }

    /// The node in slot `index`, if any.
    pub fn get_node(&self, index: usize) -> (r: Option<&N>)
        requires
            self.wf(),
        ensures
            r is Some == node_exists(self.node_seq(), index as int),
            r matches Some(n) ==> self.node_seq()[index as int] == Some(*n),
    {
        if index < self.nodes.len() {
            self.nodes[index].as_ref()
        } else {
            None
        }
    }
}

/// Replacing one edge list changes the edge total by the difference in length.
pub proof fn lemma_total_edges_update<W>(adj: Seq<Seq<(usize, W)>>, a: int, l: Seq<(usize, W)>)
    requires
        0 <= a < adj.len(),
    ensures
        total_edges(adj.update(a, l)) == total_edges(adj) - adj[a].len() + l.len(),
    decreases adj.len(),
{
    if a == adj.len() - 1 {
        assert(adj.update(a, l).drop_last() =~= adj.drop_last());
    } else {
        lemma_total_edges_update(adj.drop_last(), a, l);
        assert(adj.update(a, l).drop_last() =~= adj.drop_last().update(a, l));
    }
}

/// The edge total is at least the length of any one list.
pub proof fn lemma_total_edges_ge<W>(adj: Seq<Seq<(usize, W)>>, a: int)
    requires
        0 <= a < adj.len(),
    ensures
        total_edges(adj) >= adj[a].len(),
    decreases adj.len(),
{
    lemma_total_edges_nonneg(adj.drop_last());
    if a < adj.len() - 1 {
        lemma_total_edges_ge(adj.drop_last(), a);
    }
}

/// The edge total is never negative.
pub proof fn lemma_total_edges_nonneg<W>(adj: Seq<Seq<(usize, W)>>)
    ensures
        total_edges(adj) >= 0,
    decreases adj.len(),
{
    if adj.len() > 0 {
        lemma_total_edges_nonneg(adj.drop_last());
    }
}

/// Appending an empty edge list leaves the edge total unchanged.
pub proof fn lemma_total_edges_push_empty<W>(adj: Seq<Seq<(usize, W)>>)
    ensures
        total_edges(adj.push(Seq::empty())) == total_edges(adj),
{
    assert(adj.push(Seq::empty()).drop_last() =~= adj);
}

impl<N: Causable, W: Copy> DynamicGraph<N, W> {
    /// Evaluates the node in slot `index` on `effect`, in place.
    pub fn evaluate_node(&mut self, index: usize, effect: &PropagatingEffect) -> (r: Outcome)
        requires
            old(self).wf(),
            node_exists(old(self).node_seq(), index as int),
            old(self).node_seq()[index as int].unwrap().causable_inv(),
        ensures
            final(self).wf(),
            final(self).adj_seq() == old(self).adj_seq(),
            final(self).root_spec() == old(self).root_spec(),
            node_evaluated(old(self).node_seq(), final(self).node_seq(), index as int, *effect, r),
    {
        let ghost adj = self.adj_seq();
        let r = match &mut self.nodes[index] {
            Some(n) => n.evaluate(effect),
            None => Err(CausalityError("empty slot".to_owned())),
        };
        assert(self.adj_seq() =~= adj);
        r
    }
}

} // verus!
