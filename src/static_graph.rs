//! The frozen representation: node slots plus all edges in one array, where
//! the edges of slot `i` occupy positions `offsets[i] .. offsets[i + 1]`.
use vstd::prelude::*;
use crate::causaloid::Causable;
use crate::collection::Outcome;
use crate::effect::{CausalityError, PropagatingEffect};
use crate::dynamic_graph::DynamicGraph;
use crate::node_slots::{count_present, last_present, present_refs};
use crate::graph_spec::lemma_topological_order_acyclic;
use crate::graph_spec::{
    graph_wf, has_cycle_spec, has_edge, is_cycle, is_path, is_topological_order, lemma_distinct_bounded, lemma_path_within_mono,
    lemma_path_within_stable, lemma_path_within_step, lemma_path_within_zero, lemma_reachable_within,
    is_shortest_path, node_evaluated, node_exists, targets_distinct, at_distance, is_canonical_shortest_path, path_within, reachable, total_edges, count_nodes, present_nodes, refs_match,
};

verus! {

/// An immutable graph in compressed sparse row form.
#[derive(Clone)]
pub struct CsmGraph<N, W> {
    nodes: Vec<Option<N>>,
    offsets: Vec<usize>,
    targets: Vec<(usize, W)>,
    root: Option<usize>,
}

/// The edge lists described by an offset table over one edge array.
pub open spec fn csr_lists<W>(offsets: Seq<usize>, targets: Seq<(usize, W)>) -> Seq<Seq<(usize, W)>> {
    Seq::new(
        (offsets.len() - 1) as nat,
        |i: int| targets.subrange(offsets[i] as int, offsets[i + 1] as int),
    )
}

/// The offset table starts at zero, never decreases and ends at the edge count.
pub open spec fn offsets_wf<W>(offsets: Seq<usize>, targets: Seq<(usize, W)>) -> bool {
    &&& offsets.len() >= 1
    &&& offsets[0] == 0
    &&& offsets.last() as int == targets.len()
    &&& forall|i: int, j: int| 0 <= i <= j < offsets.len() ==> #[trigger] offsets[i] <= #[trigger] offsets[j]
}

/// The first `i` lists of an offset table hold `offsets[i]` edges in all.
pub proof fn lemma_csr_total<W>(offsets: Seq<usize>, targets: Seq<(usize, W)>, i: int)
    requires
        offsets_wf(offsets, targets),
        0 <= i < offsets.len(),
    ensures
        total_edges(csr_lists(offsets, targets).take(i)) == offsets[i],
    decreases i,
{
    let adj = csr_lists(offsets, targets);
    if i == 0 {
        assert(adj.take(0).len() == 0);
    } else {
        lemma_csr_total(offsets, targets, i - 1);
        assert(adj.take(i).drop_last() =~= adj.take(i - 1));
        assert(offsets[i - 1] <= offsets[i]);
        assert(offsets[i] <= offsets[offsets.len() - 1]);
    }
}

/// Adding one more list to a sequence of lists adds its length to the edge total.
pub proof fn lemma_total_edges_push<W>(adj: Seq<Seq<(usize, W)>>, l: Seq<(usize, W)>)
    ensures
        total_edges(adj.push(l)) == total_edges(adj) + l.len(),
{
    assert(adj.push(l).drop_last() =~= adj);
}

impl<N, W: Copy> CsmGraph<N, W> {
    /// A well-formed graph satisfies the structural invariant of its model.
    pub proof fn lemma_graph_wf(&self)
        requires
            self.wf(),
        ensures
            graph_wf(self.node_seq(), self.adj_seq(), self.root_spec()),
    {
    }

    /// The node slots.
    pub closed spec fn node_seq(&self) -> Seq<Option<N>> {
        self.nodes@
    }

    /// The outgoing edges of each slot.
    pub closed spec fn adj_seq(&self) -> Seq<Seq<(usize, W)>> {
        csr_lists(self.offsets@, self.targets@)
    }

    /// The root node's index, if any.
    pub closed spec fn root_spec(&self) -> Option<usize> {
        self.root
    }

    pub closed spec fn wf(&self) -> bool {
        &&& offsets_wf(self.offsets@, self.targets@)
        &&& self.offsets@.len() == self.nodes@.len() + 1
        &&& graph_wf(self.node_seq(), self.adj_seq(), self.root)
    }

    /// Compiles a mutable graph into compressed form, keeping every index,
    /// edge, weight and edge order.
    pub fn from_dynamic(g: DynamicGraph<N, W>) -> (r: Self)
        requires
            g.wf(),
        ensures
            r.wf(),
            r.node_seq() == g.node_seq(),
            r.adj_seq() == g.adj_seq(),
            r.root_spec() == g.root_spec(),
    {
        let ghost adj = g.adj_seq();
        let (nodes, edges, root, _num_edges) = g.into_parts();
        let n = edges.len();
        let mut offsets: Vec<usize> = Vec::new();
        let mut targets: Vec<(usize, W)> = Vec::new();
        offsets.push(0);
        let mut i: usize = 0;
        while i < n
            invariant
                n == edges@.len(),
                nodes@ == g.node_seq(),
                root == g.root_spec(),
                graph_wf(g.node_seq(), adj, root),
                adj == edges@.map_values(|l: Vec<(usize, W)>| l@),
                i <= n,
                offsets@.len() == i + 1,
                offsets_wf(offsets@, targets@),
                forall|j: int| 0 <= j < i ==> #[trigger] targets@.subrange(offsets@[j] as int, offsets@[j + 1] as int) == adj[j],
            decreases n - i,
        {
            let list = &edges[i];
            assert(list@ == adj[i as int]);
            let start = targets.len();
            let ghost before = targets@;
            let mut k: usize = 0;
            while k < list.len()
                invariant
                    list@ == adj[i as int],
                    k <= list@.len(),
                    targets@.len() == start + k,
                    targets@.subrange(0, start as int) == before,
                    targets@.subrange(start as int, targets@.len() as int) == list@.take(k as int),
                decreases list@.len() - k,
            {
                let e = list[k];
                let ghost t0 = targets@;
                targets.push(e);
                assert(targets@.subrange(0, start as int) =~= t0.subrange(0, start as int));
                assert(targets@.subrange(start as int, targets@.len() as int) =~= list@.take(k + 1));
                k = k + 1;
            }
            assert(list@.take(k as int) =~= list@);
            let ghost o0 = offsets@;
            offsets.push(targets.len());
            proof {
                assert forall|j: int| 0 <= j < i + 1 implies #[trigger] targets@.subrange(offsets@[j] as int, offsets@[j + 1] as int) == adj[j] by {
                    if j < i {
                        assert(offsets@[j + 1] <= start);
                        assert(targets@.subrange(offsets@[j] as int, offsets@[j + 1] as int)
                            =~= before.subrange(offsets@[j] as int, offsets@[j + 1] as int));
                    }
                }
                assert forall|a: int, b: int| 0 <= a <= b < offsets@.len() implies #[trigger] offsets@[a] <= #[trigger] offsets@[b] by {
                    if b == i + 1 && a < b {
                        assert(o0[a] <= o0[i as int]);
                    }
                }
            }
            i = i + 1;
        }
        let r = CsmGraph { nodes, offsets, targets, root };
        assert(r.adj_seq() =~= adj);
        r
    }

    /// Rebuilds the mutable form, keeping every index, edge, weight and edge order.
    pub fn to_dynamic(self) -> (r: DynamicGraph<N, W>)
        requires
            self.wf(),
        ensures
            r.wf(),
            r.node_seq() == self.node_seq(),
            r.adj_seq() == self.adj_seq(),
            r.root_spec() == self.root_spec(),
    {
        let ghost adj = self.adj_seq();
        let CsmGraph { nodes, offsets, targets, root } = self;
        let n = nodes.len();
        let mut edges: Vec<Vec<(usize, W)>> = Vec::new();
        let mut count: usize = 0;
        let mut i: usize = 0;
        while i < n
            invariant
                n == nodes@.len(),
                offsets@.len() == n + 1,
                offsets_wf(offsets@, targets@),
                adj == csr_lists(offsets@, targets@),
                i <= n,
                edges@.len() == i,
                forall|j: int| 0 <= j < i ==> #[trigger] edges@[j]@ == adj[j],
                count as int == total_edges(edges@.map_values(|l: Vec<(usize, W)>| l@)),
                count == offsets@[i as int],
            decreases n - i,
        {
            let lo = offsets[i];
            let hi = offsets[i + 1];
            assert(lo <= hi);
            let mut list: Vec<(usize, W)> = Vec::new();
            let mut k: usize = lo;
            while k < hi
                invariant
                    lo <= k <= hi,
                    hi as int <= targets@.len(),
                    list@ == targets@.subrange(lo as int, k as int),
                decreases hi - k,
            {
                list.push(targets[k]);
                assert(list@ =~= targets@.subrange(lo as int, k + 1));
                k = k + 1;
            }
            let ghost e0 = edges@;
            proof {
                lemma_total_edges_push(e0.map_values(|l: Vec<(usize, W)>| l@), list@);
                assert(e0.push(list).map_values(|l: Vec<(usize, W)>| l@)
                    =~= e0.map_values(|l: Vec<(usize, W)>| l@).push(list@));
            }
            edges.push(list);
            count = count + (hi - lo);
            i = i + 1;
        }
        assert(edges@.map_values(|l: Vec<(usize, W)>| l@) =~= adj);
        DynamicGraph::from_parts(nodes, edges, root, count)
    }

    /// The edges of `a` lie at positions `offsets[a] .. offsets[a + 1]`.
    proof fn lemma_edge_at(&self, a: int)
        requires
            self.wf(),
            0 <= a < self.nodes@.len(),
        ensures
            self.offsets@[a] <= self.offsets@[a + 1] <= self.targets@.len(),
            self.adj_seq()[a].len() == self.offsets@[a + 1] - self.offsets@[a],
            forall|k: int| self.offsets@[a] <= k < self.offsets@[a + 1]
                ==> #[trigger] self.targets@[k] == self.adj_seq()[a][k - self.offsets@[a]],
    {
        assert(self.offsets@[a] <= self.offsets@[a + 1]);
        assert(self.offsets@[a + 1] <= self.offsets@[self.offsets@.len() - 1]);
    }

    /// For each slot, whether some slot not yet `removed` has an edge into it, and
    /// if so one such slot.
    fn pred_scan(&self, removed: &Vec<bool>) -> (r: (Vec<bool>, Vec<usize>))
        requires
            self.wf(),
            removed@.len() == self.nodes@.len(),
        ensures
            r.0@.len() == self.nodes@.len(),
            r.1@.len() == self.nodes@.len(),
            forall|b: int| 0 <= b < self.nodes@.len() ==> (#[trigger] r.0@[b] <==> exists|a: int|
                0 <= a < self.nodes@.len() && !removed@[a] && has_edge(self.adj_seq(), a, b)),
            forall|b: int| 0 <= b < self.nodes@.len() && #[trigger] r.0@[b] ==> (r.1@[b] as int) < self.nodes@.len()
                && !removed@[r.1@[b] as int] && has_edge(self.adj_seq(), r.1@[b] as int, b),
    {
        let n = self.nodes.len();
        let ghost adj = self.adj_seq();
        let mut has_pred: Vec<bool> = vec![false; n];
        let mut pred_of: Vec<usize> = vec![0; n];
        let mut a: usize = 0;
        while a < n
            invariant
                self.wf(),
                n == self.nodes@.len(),
                adj == self.adj_seq(),
                removed@.len() == n,
                a <= n,
                has_pred@.len() == n,
                pred_of@.len() == n,
                forall|b: int| 0 <= b < n ==> (#[trigger] has_pred@[b] <==> exists|x: int|
                    0 <= x < a && !removed@[x] && has_edge(adj, x, b)),
                forall|b: int| 0 <= b < n && #[trigger] has_pred@[b] ==> (pred_of@[b] as int) < n
                    && !removed@[pred_of@[b] as int] && has_edge(adj, pred_of@[b] as int, b),
            decreases n - a,
        {
            proof {
                self.lemma_edge_at(a as int);
            }
            if !removed[a] {
                let lo = self.offsets[a];
                let hi = self.offsets[a + 1];
                let mut k: usize = lo;
                while k < hi
                    invariant
                        self.wf(),
                        n == self.nodes@.len(),
                        adj == self.adj_seq(),
                        removed@.len() == n,
                        a < n,
                        !removed@[a as int],
                        lo == self.offsets@[a as int],
                        hi == self.offsets@[a + 1],
                        lo <= k <= hi,
                        hi <= self.targets@.len(),
                        adj[a as int].len() == hi - lo,
                        forall|kk: int| lo <= kk < hi ==> #[trigger] self.targets@[kk] == adj[a as int][kk - lo],
                        has_pred@.len() == n,
                        pred_of@.len() == n,
                        forall|b: int| 0 <= b < n ==> (#[trigger] has_pred@[b] <==> (exists|x: int|
                            0 <= x < a && !removed@[x] && has_edge(adj, x, b))
                            || exists|kk: int| lo <= kk < k && self.targets@[kk].0 as int == b),
                        forall|b: int| 0 <= b < n && #[trigger] has_pred@[b] ==> (pred_of@[b] as int) < n
                            && !removed@[pred_of@[b] as int] && has_edge(adj, pred_of@[b] as int, b),
                    decreases hi - k,
                {
                    let b = self.targets[k].0;
                    proof {
                        assert(self.targets@[k as int] == adj[a as int][k - lo]);
                        assert(node_exists(self.nodes@, adj[a as int][k - lo].0 as int));
                    }
                    has_pred.set(b, true);
                    pred_of.set(b, a);
                    proof {
                        assert(has_edge(adj, a as int, b as int)) by {
                            assert(adj[a as int][k - lo].0 == b);
                        }
                        assert forall|c: int| 0 <= c < n implies (#[trigger] has_pred@[c] <==> (exists|x: int|
                            0 <= x < a && !removed@[x] && has_edge(adj, x, c))
                            || exists|kk: int| lo <= kk < k + 1 && self.targets@[kk].0 as int == c) by {
                            if c == b as int {
                                assert(self.targets@[k as int].0 as int == c);
                            }
                        }
                    }
                    k = k + 1;
                }
                proof {
                    assert forall|b: int| 0 <= b < n implies (#[trigger] has_pred@[b] <==> exists|x: int|
                        0 <= x < a + 1 && !removed@[x] && has_edge(adj, x, b)) by {
                        if exists|kk: int| lo <= kk < hi && self.targets@[kk].0 as int == b {
                            let kk = choose|kk: int| lo <= kk < hi && self.targets@[kk].0 as int == b;
                            assert(adj[a as int][kk - lo].0 as int == b);
                            assert(has_edge(adj, a as int, b));
                        }
                        if has_edge(adj, a as int, b) {
                            let j = choose|j: int| 0 <= j < adj[a as int].len() && adj[a as int][j].0 as int == b;
                            assert(self.targets@[lo + j] == adj[a as int][j]);
                        }
                    }
                }
            } else {
                proof {
                    assert forall|b: int| 0 <= b < n implies (#[trigger] has_pred@[b] <==> exists|x: int|
                        0 <= x < a + 1 && !removed@[x] && has_edge(adj, x, b)) by {
                        if exists|x: int| 0 <= x < a + 1 && !removed@[x] && has_edge(adj, x, b) {
                            let x = choose|x: int| 0 <= x < a + 1 && !removed@[x] && has_edge(adj, x, b);
                            assert(x != a);
                        }
                    }
                }
            }
            a = a + 1;
        }
        (has_pred, pred_of)
    }

    /// Follows `pred_of` backwards from `v0` until a slot repeats, and returns the
    /// closed walk found that way, in edge direction.
    #[verifier::rlimit(30)]
    fn walk_to_cycle(&self, removed: &Vec<bool>, pred_of: &Vec<usize>, v0: usize) -> (c: Vec<usize>)
        requires
            removed@.len() == self.nodes@.len(),
            pred_of@.len() == self.nodes@.len(),
            (v0 as int) < self.nodes@.len(),
            !removed@[v0 as int],
            forall|x: int| 0 <= x < self.nodes@.len() && !removed@[x] ==> node_exists(self.nodes@, x),
            forall|x: int| 0 <= x < self.nodes@.len() && !#[trigger] removed@[x] ==> (pred_of@[x] as int) < self.nodes@.len()
                && !removed@[pred_of@[x] as int] && has_edge(self.adj_seq(), pred_of@[x] as int, x),
        ensures
            is_cycle(self.node_seq(), self.adj_seq(), c@),
    {
        let (path, j) = pred_walk(removed, pred_of, v0);
        let c = reversed_tail(&path, j);
        proof {
            lemma_reversed_walk_is_cycle(self.node_seq(), self.adj_seq(), removed@, pred_of@, path@, j as int, c@);
        }
        c
    }

    /// Ends peeling after a round that removed nothing: either every node is
    /// ordered, or the remaining ones lead to a cycle.
    fn finish_peel(&self, removed: Vec<bool>, order: Vec<usize>, has_pred: &Vec<bool>, pred_of: &Vec<usize>) -> (r: Result<Vec<usize>, Vec<usize>>)
        requires
            self.wf(),
            removed@.len() == self.nodes@.len(),
            peel_inv(self.node_seq(), self.adj_seq(), removed@, order@),
            has_pred@.len() == self.nodes@.len(),
            pred_of@.len() == self.nodes@.len(),
            forall|x: int| 0 <= x < self.nodes@.len() && !#[trigger] removed@[x] ==> has_pred@[x],
            forall|b: int| 0 <= b < self.nodes@.len() && #[trigger] has_pred@[b] ==> (pred_of@[b] as int) < self.nodes@.len()
                && !removed@[pred_of@[b] as int] && has_edge(self.adj_seq(), pred_of@[b] as int, b),
        ensures
            r matches Ok(o) ==> is_topological_order(self.node_seq(), self.adj_seq(), o@),
            r matches Err(c) ==> is_cycle(self.node_seq(), self.adj_seq(), c@),
    {
        let n = self.nodes.len();
        let ghost nodes = self.node_seq();
        let ghost adj = self.adj_seq();
        let mut v0: usize = 0;
        while v0 < n && removed[v0]
            invariant
                v0 <= n,
                removed@.len() == n,
                forall|x: int| 0 <= x < v0 ==> #[trigger] removed@[x],
            decreases n - v0,
        {
            v0 = v0 + 1;
        }
        if v0 == n {
            proof {
                lemma_peel_complete(nodes, adj, removed@, order@);
            }
            return Ok(order);
        }
        proof {
            lemma_peel_unremoved_exist(nodes, adj, removed@, order@);
            assert forall|x: int| 0 <= x < n && !#[trigger] removed@[x] implies (pred_of@[x] as int) < n
                && !removed@[pred_of@[x] as int] && has_edge(adj, pred_of@[x] as int, x) by {
                assert(has_pred@[x]);
            }
        }
        let c = self.walk_to_cycle(&removed, pred_of, v0);
        Err(c)
    }

    /// Visits the edges of `u`, a slot at distance `k`, marking each target not yet
    /// visited as reached at distance `k + 1` through `u`.
    fn expand_node(
        &self,
        u: usize,
        k: usize,
        visited: &mut Vec<bool>,
        dist: &mut Vec<usize>,
        parent: &mut Vec<usize>,
        next: &mut Vec<usize>,
        seen: &mut Vec<usize>,
        Ghost(start): Ghost<int>,
    )
        requires
            self.wf(),
            (u as int) < self.nodes@.len(),
            k < usize::MAX,
            bfs_sound(self.node_seq(), self.adj_seq(), start, old(visited)@, old(dist)@, old(parent)@),
            old(visited)@.len() == self.nodes@.len(),
            old(dist)@.len() == self.nodes@.len(),
            old(parent)@.len() == self.nodes@.len(),
            old(visited)@[u as int],
            old(dist)@[u as int] == k,
            forall|v: int| 0 <= v < self.nodes@.len() && !#[trigger] old(visited)@[v]
                ==> !path_within(self.node_seq(), self.adj_seq(), start, v, k as int),
            forall|i: int| 0 <= i < old(next)@.len() ==> (#[trigger] old(next)@[i] as int) < self.nodes@.len()
                && old(visited)@[old(next)@[i] as int] && old(dist)@[old(next)@[i] as int] == k + 1,
            old(seen)@.no_duplicates(),
            forall|i: int| 0 <= i < old(seen)@.len() ==> (#[trigger] old(seen)@[i] as int) < self.nodes@.len()
                && old(visited)@[old(seen)@[i] as int],
        ensures
            bfs_sound(self.node_seq(), self.adj_seq(), start, final(visited)@, final(dist)@, final(parent)@),
            final(visited)@.len() == self.nodes@.len(),
            final(dist)@.len() == self.nodes@.len(),
            final(parent)@.len() == self.nodes@.len(),
            final(next)@.len() >= old(next)@.len(),
            forall|i: int| 0 <= i < old(next)@.len() ==> #[trigger] final(next)@[i] == old(next)@[i],
            forall|v: int| 0 <= v < self.nodes@.len() && old(visited)@[v] ==> #[trigger] final(visited)@[v]
                && final(dist)@[v] == old(dist)@[v],
            forall|v: int| #[trigger] has_edge(self.adj_seq(), u as int, v) ==> final(visited)@[v],
            forall|v: int| 0 <= v < self.nodes@.len() && #[trigger] final(visited)@[v] && !old(visited)@[v]
                ==> final(dist)@[v] == k + 1 && final(next)@.contains(v as usize),
            forall|i: int| 0 <= i < final(next)@.len() ==> (#[trigger] final(next)@[i] as int) < self.nodes@.len()
                && final(visited)@[final(next)@[i] as int] && final(dist)@[final(next)@[i] as int] == k + 1,
            final(seen)@.no_duplicates(),
            forall|i: int| 0 <= i < final(seen)@.len() ==> (#[trigger] final(seen)@[i] as int) < self.nodes@.len()
                && final(visited)@[final(seen)@[i] as int],
            final(seen)@.len() >= old(seen)@.len(),
            final(next)@.len() > old(next)@.len() ==> final(seen)@.len() > old(seen)@.len(),
    {
        let ghost nodes = self.node_seq();
        let ghost adj = self.adj_seq();
        let n = self.nodes.len();
        proof {
            self.lemma_edge_at(u as int);
        }
        let lo = self.offsets[u];
        let hi = self.offsets[u + 1];
        let mut e: usize = lo;
        while e < hi
            invariant
                self.wf(),
                nodes == self.node_seq(),
                adj == self.adj_seq(),
                n == nodes.len(),
                (u as int) < n,
                k < usize::MAX,
                lo == self.offsets@[u as int],
                lo <= e <= hi,
                hi <= self.targets@.len(),
                adj[u as int].len() == hi - lo,
                forall|kk: int| lo <= kk < hi ==> #[trigger] self.targets@[kk] == adj[u as int][kk - lo],
                bfs_sound(nodes, adj, start, visited@, dist@, parent@),
                visited@.len() == n,
                dist@.len() == n,
                parent@.len() == n,
                next@.len() >= old(next)@.len(),
                forall|i: int| 0 <= i < old(next)@.len() ==> #[trigger] next@[i] == old(next)@[i],
                visited@[u as int],
                dist@[u as int] == k,
                forall|v: int| 0 <= v < n && !#[trigger] visited@[v] ==> !path_within(nodes, adj, start, v, k as int),
                forall|v: int| 0 <= v < n && old(visited)@[v] ==> #[trigger] visited@[v] && dist@[v] == old(dist)@[v],
                forall|kk: int| lo <= kk < e ==> visited@[#[trigger] self.targets@[kk].0 as int],
                forall|v: int| 0 <= v < n && #[trigger] visited@[v] && !old(visited)@[v] ==> dist@[v] == k + 1 && next@.contains(v as usize),
                forall|i: int| 0 <= i < next@.len() ==> (#[trigger] next@[i] as int) < n && visited@[next@[i] as int] && dist@[next@[i] as int] == k + 1,
                seen@.no_duplicates(),
                forall|i: int| 0 <= i < seen@.len() ==> (#[trigger] seen@[i] as int) < n && visited@[seen@[i] as int],
                seen@.len() >= old(seen)@.len(),
                next@.len() > old(next)@.len() ==> seen@.len() > old(seen)@.len(),
            decreases hi - e,
        {
            let v = self.targets[e].0;
            proof {
                assert(self.targets@[e as int] == adj[u as int][e - lo]);
                assert(node_exists(nodes, v as int));
                assert(has_edge(adj, u as int, v as int)) by {
                    assert(adj[u as int][e - lo].0 == v);
                }
            }
            if !visited[v] {
                proof {
                    lemma_path_within_step(nodes, adj, start, v as int, k as int);
                    lemma_bfs_sound_at(nodes, adj, start, visited@, dist@, parent@, u as int);
                    assert(path_within(nodes, adj, start, u as int, k as int));
                    assert(!seen@.contains(v));
                }
                let ghost vis0 = visited@;
                let ghost dist0 = dist@;
                let ghost next0 = next@;
                let ghost seen0 = seen@;
                visited.set(v, true);
                dist.set(v, k + 1);
                parent.set(v, u);
                next.push(v);
                seen.push(v);
                proof {
                    assert forall|x: int| 0 <= x < n && old(visited)@[x] implies #[trigger] visited@[x] && dist@[x] == old(dist)@[x] by {
                        assert(vis0[x]);
                        assert(x != v as int);
                        assert(dist0[x] == old(dist)@[x]);
                    }
                }
                proof {
                    reveal(bfs_sound);
                    assert forall|x: int| 0 <= x < n && #[trigger] visited@[x] && !old(visited)@[x]
                        implies dist@[x] == k + 1 && next@.contains(x as usize) by {
                        if x == v as int {
                            assert(next@[next@.len() - 1] == v);
                        } else {
                            assert(vis0[x]);
                            let i = choose|i: int| 0 <= i < next0.len() && next0[i] == x as usize;
                            assert(next@[i] == x as usize);
                        }
                    }
                    assert forall|i: int| 0 <= i < seen@.len() implies (#[trigger] seen@[i] as int) < n && visited@[seen@[i] as int] by {
                        if i < seen0.len() {
                            assert(seen@[i] == seen0[i]);
                        }
                    }
                    assert forall|i: int| 0 <= i < next@.len() implies (#[trigger] next@[i] as int) < n
                        && visited@[next@[i] as int] && dist@[next@[i] as int] == k + 1 by {
                        if i < next0.len() {
                            assert(next@[i] == next0[i]);
                        }
                    }
                }
            }
            e = e + 1;
        }
        proof {
            assert forall|v: int| #[trigger] has_edge(adj, u as int, v) implies visited@[v] by {
                let j = choose|j: int| 0 <= j < adj[u as int].len() && adj[u as int][j].0 as int == v;
                assert(self.targets@[lo + j] == adj[u as int][j]);
            }
        }
    }

    /// Expands one breadth-first layer: every slot at distance `k` (the
    /// `frontier`) has its edges visited. Returns the slots first reached now,
    /// which form the layer at distance `k + 1`.
    fn expand_layer(
        &self,
        frontier: &Vec<usize>,
        k: usize,
        visited: &mut Vec<bool>,
        dist: &mut Vec<usize>,
        parent: &mut Vec<usize>,
        seen: &mut Vec<usize>,
        Ghost(start): Ghost<int>,
    ) -> (next: Vec<usize>)
        requires
            self.wf(),
            k < usize::MAX,
            0 <= start < self.nodes@.len(),
            bfs_sound(self.node_seq(), self.adj_seq(), start, old(visited)@, old(dist)@, old(parent)@),
            old(visited)@.len() == self.nodes@.len(),
            old(dist)@.len() == self.nodes@.len(),
            old(parent)@.len() == self.nodes@.len(),
            forall|v: int| 0 <= v < self.nodes@.len() ==> (#[trigger] old(visited)@[v]
                <==> path_within(self.node_seq(), self.adj_seq(), start, v, k as int)),
            forall|v: int| 0 <= v < self.nodes@.len() && #[trigger] old(visited)@[v] ==> old(dist)@[v] <= k,
            forall|i: int| 0 <= i < frontier@.len() ==> (#[trigger] frontier@[i] as int) < self.nodes@.len()
                && old(visited)@[frontier@[i] as int] && old(dist)@[frontier@[i] as int] == k,
            forall|v: int| 0 <= v < self.nodes@.len() && #[trigger] old(visited)@[v] && old(dist)@[v] == k
                ==> frontier@.contains(v as usize),
            old(seen)@.no_duplicates(),
            forall|i: int| 0 <= i < old(seen)@.len() ==> (#[trigger] old(seen)@[i] as int) < self.nodes@.len()
                && old(visited)@[old(seen)@[i] as int],
        ensures
            bfs_sound(self.node_seq(), self.adj_seq(), start, final(visited)@, final(dist)@, final(parent)@),
            final(visited)@.len() == self.nodes@.len(),
            final(dist)@.len() == self.nodes@.len(),
            final(parent)@.len() == self.nodes@.len(),
            forall|v: int| 0 <= v < self.nodes@.len() ==> (#[trigger] final(visited)@[v]
                <==> path_within(self.node_seq(), self.adj_seq(), start, v, k + 1)),
            forall|v: int| 0 <= v < self.nodes@.len() && #[trigger] final(visited)@[v] ==> final(dist)@[v] <= k + 1,
            forall|i: int| 0 <= i < next@.len() ==> (#[trigger] next@[i] as int) < self.nodes@.len()
                && final(visited)@[next@[i] as int] && final(dist)@[next@[i] as int] == k + 1,
            forall|v: int| 0 <= v < self.nodes@.len() && #[trigger] final(visited)@[v] && final(dist)@[v] == k + 1
                ==> next@.contains(v as usize),
            final(seen)@.no_duplicates(),
            forall|i: int| 0 <= i < final(seen)@.len() ==> (#[trigger] final(seen)@[i] as int) < self.nodes@.len()
                && final(visited)@[final(seen)@[i] as int],
            final(seen)@.len() >= old(seen)@.len(),
            next@.len() > 0 ==> final(seen)@.len() > old(seen)@.len(),
    {
        let ghost nodes = self.node_seq();
        let ghost adj = self.adj_seq();
        let n = self.nodes.len();
        let mut next: Vec<usize> = Vec::new();
        let mut i: usize = 0;
        while i < frontier.len()
            invariant
                self.wf(),
                nodes == self.node_seq(),
                adj == self.adj_seq(),
                n == nodes.len(),
                k < usize::MAX,
                0 <= start < n,
                i <= frontier@.len(),
                bfs_sound(nodes, adj, start, visited@, dist@, parent@),
                visited@.len() == n,
                dist@.len() == n,
                parent@.len() == n,
                forall|i2: int| 0 <= i2 < frontier@.len() ==> (#[trigger] frontier@[i2] as int) < n
                    && old(visited)@[frontier@[i2] as int] && old(dist)@[frontier@[i2] as int] == k,
                forall|v: int| 0 <= v < n && old(visited)@[v] ==> #[trigger] visited@[v] && dist@[v] == old(dist)@[v],
                forall|v: int| 0 <= v < n && !#[trigger] visited@[v] ==> !path_within(nodes, adj, start, v, k as int),
                forall|v: int| 0 <= v < n && #[trigger] visited@[v] ==> dist@[v] <= k + 1,
                forall|i2: int, v: int| 0 <= i2 < i && #[trigger] has_edge(adj, frontier@[i2] as int, v) ==> visited@[v],
                forall|v: int| 0 <= v < n && #[trigger] visited@[v] && !old(visited)@[v] ==> dist@[v] == k + 1 && next@.contains(v as usize),
                forall|i2: int| 0 <= i2 < next@.len() ==> (#[trigger] next@[i2] as int) < n && visited@[next@[i2] as int] && dist@[next@[i2] as int] == k + 1,
                seen@.no_duplicates(),
                forall|i2: int| 0 <= i2 < seen@.len() ==> (#[trigger] seen@[i2] as int) < n && visited@[seen@[i2] as int],
                seen@.len() >= old(seen)@.len(),
                next@.len() > 0 ==> seen@.len() > old(seen)@.len(),
            decreases frontier@.len() - i,
        {
            let u = frontier[i];
            proof {
                assert(old(visited)@[u as int]);
                assert(visited@[u as int] && dist@[u as int] == old(dist)@[u as int]);
            }
            let ghost vis0 = visited@;
            let ghost next0 = next@;
            self.expand_node(u, k, visited, dist, parent, &mut next, seen, Ghost(start));
            proof {
                assert forall|v: int| 0 <= v < n && #[trigger] visited@[v] && !old(visited)@[v]
                    implies dist@[v] == k + 1 && next@.contains(v as usize) by {
                    if vis0[v] {
                        let j = choose|j: int| 0 <= j < next0.len() && next0[j] == v as usize;
                        assert(next@[j] == next0[j]);
                    }
                }
                assert forall|i2: int, v: int| 0 <= i2 < i + 1 && #[trigger] has_edge(adj, frontier@[i2] as int, v) implies visited@[v] by {
                    if i2 < i {
                        assert(vis0[v]);
                    }
                }
                assert forall|v: int| 0 <= v < n && #[trigger] visited@[v] implies dist@[v] <= k + 1 by {
                    if vis0[v] {
                    }
                }
            }
            i = i + 1;
        }
        proof {
            assert forall|v: int| 0 <= v < n implies (#[trigger] visited@[v] <==> path_within(nodes, adj, start, v, k + 1)) by {
                lemma_path_within_step(nodes, adj, start, v, k as int);
                if visited@[v] {
                    lemma_bfs_sound_at(nodes, adj, start, visited@, dist@, parent@, v);
                    lemma_path_within_mono(nodes, adj, start, v, dist@[v] as int, k + 1);
                }
                if path_within(nodes, adj, start, v, k + 1) && !path_within(nodes, adj, start, v, k as int) {
                    let u = choose|u: int| path_within(nodes, adj, start, u, k as int) && #[trigger] has_edge(adj, u, v);
                    assert(node_exists(nodes, u)) by {
                        let p = choose|p: Seq<usize>| is_path(nodes, adj, p) && p[0] as int == start
                            && p.last() as int == u && p.len() <= k + 1;
                        assert(node_exists(nodes, p[p.len() - 1] as int));
                    }
                    assert(old(visited)@[u]);
                    lemma_bfs_sound_at(nodes, adj, start, old(visited)@, old(dist)@, old(parent)@, u);
                    if old(dist)@[u] < k {
                        lemma_path_within_mono(nodes, adj, start, u, old(dist)@[u] as int, k - 1);
                        lemma_path_within_step(nodes, adj, start, v, k - 1);
                        assert(path_within(nodes, adj, start, v, k as int));
                    } else {
                        assert(frontier@.contains(u as usize));
                        let i2 = choose|i2: int| 0 <= i2 < frontier@.len() && frontier@[i2] == u as usize;
                        assert(has_edge(adj, frontier@[i2] as int, v));
                    }
                }
            }
        }
        next
    }

    /// Breadth-first search from `start`: which slots are reachable, at what
    /// least number of edges, and through which parent.
    fn bfs(&self, start: usize) -> (r: (Vec<bool>, Vec<usize>, Vec<usize>))
        requires
            self.wf(),
            node_exists(self.node_seq(), start as int),
        ensures
            bfs_sound(self.node_seq(), self.adj_seq(), start as int, r.0@, r.1@, r.2@),
            r.0@.len() == self.nodes@.len(),
            r.1@.len() == self.nodes@.len(),
            r.2@.len() == self.nodes@.len(),
            forall|v: int| 0 <= v < self.nodes@.len() ==> (#[trigger] r.0@[v]
                <==> reachable(self.node_seq(), self.adj_seq(), start as int, v)),
    {
        let ghost nodes = self.node_seq();
        let ghost adj = self.adj_seq();
        let ghost st = start as int;
        let n = self.nodes.len();
        let mut visited: Vec<bool> = vec![false; n];
        let mut dist: Vec<usize> = vec![0; n];
        let mut parent: Vec<usize> = vec![0; n];
        visited.set(start, true);
        let mut frontier: Vec<usize> = Vec::new();
        frontier.push(start);
        let mut seen: Vec<usize> = Vec::new();
        seen.push(start);
        let mut k: usize = 0;
        proof {
            reveal(bfs_sound);
            assert forall|v: int| 0 <= v < n implies (#[trigger] visited@[v] <==> path_within(nodes, adj, st, v, 0)) by {
                lemma_path_within_zero(nodes, adj, st, v);
            }
            lemma_path_within_zero(nodes, adj, st, st);
            assert forall|v: int| 0 <= v < n && #[trigger] visited@[v] && dist@[v] == 0 implies frontier@.contains(v as usize) by {
                assert(frontier@[0] == start);
            }
        }
        while frontier.len() > 0
            invariant
                self.wf(),
                nodes == self.node_seq(),
                adj == self.adj_seq(),
                n == nodes.len(),
                st == start as int,
                0 <= st < n,
                bfs_sound(nodes, adj, st, visited@, dist@, parent@),
                visited@.len() == n,
                dist@.len() == n,
                parent@.len() == n,
                forall|v: int| 0 <= v < n ==> (#[trigger] visited@[v] <==> path_within(nodes, adj, st, v, k as int)),
                forall|v: int| 0 <= v < n && #[trigger] visited@[v] ==> dist@[v] <= k,
                forall|i: int| 0 <= i < frontier@.len() ==> (#[trigger] frontier@[i] as int) < n
                    && visited@[frontier@[i] as int] && dist@[frontier@[i] as int] == k,
                forall|v: int| 0 <= v < n && #[trigger] visited@[v] && dist@[v] == k ==> frontier@.contains(v as usize),
                seen@.no_duplicates(),
                forall|i: int| 0 <= i < seen@.len() ==> (#[trigger] seen@[i] as int) < n && visited@[seen@[i] as int],
                frontier@.len() > 0 ==> seen@.len() >= k + 1,
                frontier@.len() == 0 ==> k >= 1,
            decreases n - seen@.len(), frontier@.len(),
        {
            proof {
                lemma_distinct_bounded(seen@, n as int);
            }
            let next = self.expand_layer(&frontier, k, &mut visited, &mut dist, &mut parent, &mut seen, Ghost(st));
            proof {
                lemma_distinct_bounded(seen@, n as int);
            }
            frontier = next;
            k = k + 1;
        }
        proof {
            assert forall|v: int| #[trigger] path_within(nodes, adj, st, v, k as int) implies path_within(nodes, adj, st, v, k - 1) by {
                let p = choose|p: Seq<usize>| is_path(nodes, adj, p) && p[0] as int == st && p.last() as int == v && p.len() <= k + 1;
                assert(node_exists(nodes, p[p.len() - 1] as int));
                assert(visited@[v]);
                lemma_bfs_sound_at(nodes, adj, st, visited@, dist@, parent@, v);
                if dist@[v] == k {
                    assert(frontier@.contains(v as usize));
                }
                lemma_path_within_mono(nodes, adj, st, v, dist@[v] as int, k - 1);
            }
            assert forall|v: int| 0 <= v < n implies (#[trigger] visited@[v] <==> reachable(nodes, adj, st, v)) by {
                if visited@[v] {
                    let p = choose|p: Seq<usize>| is_path(nodes, adj, p) && p[0] as int == st && p.last() as int == v && p.len() <= k + 1;
                }
                if reachable(nodes, adj, st, v) {
                    lemma_reachable_within(nodes, adj, st, v);
                    let m = choose|m: int| m >= 0 && #[trigger] path_within(nodes, adj, st, v, m);
                    if m <= k {
                        lemma_path_within_mono(nodes, adj, st, v, m, k as int);
                    } else {
                        lemma_path_within_stable(nodes, adj, st, k as int, m);
                        lemma_path_within_mono(nodes, adj, st, v, k - 1, k as int);
                    }
                }
            }
        }
        (visited, dist, parent)
    }

    /// A shortest walk from `start` to `stop`, if `stop` can be reached.
    fn bfs_path(&self, start: usize, stop: usize) -> (r: Option<Vec<usize>>)
        requires
            self.wf(),
            node_exists(self.node_seq(), start as int),
            (stop as int) < self.nodes@.len(),
        ensures
            r is Some <==> reachable(self.node_seq(), self.adj_seq(), start as int, stop as int),
            r matches Some(p) ==> is_canonical_shortest_path(self.node_seq(), self.adj_seq(), start as int, stop as int, p@),
    {
        let ghost nodes = self.node_seq();
        let ghost adj = self.adj_seq();
        let ghost st = start as int;
        let (visited, dist, parent) = self.bfs(start);
        if !visited[stop] {
            return None;
        }
        let rev = trace_back::<N, W>(self, &visited, &dist, &parent, stop, Ghost(nodes), Ghost(adj), Ghost(st));
        let p = reversed_tail(&rev, 0);
        let n = self.nodes.len();
        proof {
            let cur = rev@.last() as int;
            lemma_bfs_sound_at(nodes, adj, st, visited@, dist@, parent@, cur);
            assert(nodes.len() == n);
            lemma_path_within_zero(nodes, adj, st, cur);
            let l = rev@.len();
            assert forall|i: int| 0 <= i < p@.len() implies node_exists(nodes, #[trigger] p@[i] as int) by {
                assert(p@[i] == rev@[l - 1 - i]);
            }
            assert forall|i: int| 0 <= i < p@.len() - 1 implies has_edge(adj, #[trigger] p@[i] as int, p@[i + 1] as int) by {
                assert(p@[i] == rev@[l - 1 - i] && p@[i + 1] == rev@[l - 2 - i]);
            }
            assert(p@[0] == rev@[l - 1]);
            assert(p@.last() == rev@[0]);
            lemma_bfs_sound_at(nodes, adj, st, visited@, dist@, parent@, stop as int);
            assert forall|q: Seq<usize>| is_path(nodes, adj, q) && q[0] as int == st && q.last() as int == stop as int
                implies p@.len() <= #[trigger] q.len() by {
                if q.len() < p@.len() {
                    assert(path_within(nodes, adj, st, stop as int, q.len() - 1));
                    lemma_path_within_mono(nodes, adj, st, stop as int, q.len() - 1, dist@[stop as int] - 1);
                }
            }
        }
        proof {
            let l = rev@.len() as int;
            assert forall|j: int| 0 <= j < p@.len() implies #[trigger] p@[j] == rev@[l - 1 - j] by {}
            lemma_bfs_path_canonical(nodes, adj, st, stop as int, visited@, dist@, parent@, rev@, p@);
        }
        Some(p)
    }

    /// A cycle of the graph, if it has one.
    pub fn find_cycle(&self) -> (r: Option<Vec<usize>>)
        requires
            self.wf(),
        ensures
            r is Some <==> has_cycle_spec(self.node_seq(), self.adj_seq()),
            r matches Some(c) ==> is_cycle(self.node_seq(), self.adj_seq(), c@),
    {
        match self.peel() {
            Ok(o) => {
                proof {
                    lemma_topological_order_acyclic(self.node_seq(), self.adj_seq(), o@);
                }
                None
            },
            Err(c) => Some(c),
        }
    }

    /// True when the graph has a cycle.
    pub fn has_cycle(&self) -> (r: bool)
        requires
            self.wf(),
        ensures
            r == has_cycle_spec(self.node_seq(), self.adj_seq()),
    {
        self.find_cycle().is_some()
    }

    /// The nodes in an order where every edge points forward, or `None` when the
    /// graph has a cycle.
    pub fn topological_sort(&self) -> (r: Option<Vec<usize>>)
        requires
            self.wf(),
        ensures
            r is Some <==> !has_cycle_spec(self.node_seq(), self.adj_seq()),
            r matches Some(o) ==> is_topological_order(self.node_seq(), self.adj_seq(), o@),
    {
        match self.peel() {
            Ok(o) => {
                proof {
                    lemma_topological_order_acyclic(self.node_seq(), self.adj_seq(), o@);
                }
                Some(o)
            },
            Err(c) => None,
        }
    }

    /// For every slot, whether a walk leads there from `start`.
    pub fn reachable_set(&self, start: usize) -> (r: Vec<bool>)
        requires
            self.wf(),
        ensures
            r@.len() == self.node_seq().len(),
            forall|v: int| 0 <= v < r@.len() ==> (#[trigger] r@[v] <==> reachable(self.node_seq(), self.adj_seq(), start as int, v)),
    {
        if !self.contains_node(start) {
            proof {
                assert forall|v: int| 0 <= v < self.nodes@.len() implies !reachable(self.node_seq(), self.adj_seq(), start as int, v) by {
                    if reachable(self.node_seq(), self.adj_seq(), start as int, v) {
                        let p = choose|p: Seq<usize>| is_path(self.node_seq(), self.adj_seq(), p)
                            && p[0] as int == start as int && p.last() as int == v;
                        assert(node_exists(self.node_seq(), p[0] as int));
                    }
                }
            }
            return vec![false; self.nodes.len()];
        }
        let (visited, _dist, _parent) = self.bfs(start);
        visited
    }

    /// True when a walk leads from `start` to `stop`; false when either is not a node.
    pub fn is_reachable(&self, start: usize, stop: usize) -> (r: bool)
        requires
            self.wf(),
        ensures
            r == reachable(self.node_seq(), self.adj_seq(), start as int, stop as int),
    {
        if !self.contains_node(start) || !self.contains_node(stop) {
            proof {
                if reachable(self.node_seq(), self.adj_seq(), start as int, stop as int) {
                    let p = choose|p: Seq<usize>| is_path(self.node_seq(), self.adj_seq(), p)
                        && p[0] as int == start as int && p.last() as int == stop as int;
                    assert(node_exists(self.node_seq(), p[0] as int));
                    assert(node_exists(self.node_seq(), p[p.len() - 1] as int));
                }
            }
            return false;
        }
        let (visited, _dist, _parent) = self.bfs(start);
        visited[stop]
    }

    /// A shortest walk from `start` to `stop`, as its node indices; `None` when
    /// there is none or either index is not a node. Ties are broken towards
    /// low indices: each node is preceded by the lowest-indexed node one step
    /// closer to `start` with an edge into it.
    pub fn shortest_path(&self, start: usize, stop: usize) -> (r: Option<Vec<usize>>)
        requires
            self.wf(),
        ensures
            r is Some <==> reachable(self.node_seq(), self.adj_seq(), start as int, stop as int),
            r matches Some(p) ==> is_canonical_shortest_path(self.node_seq(), self.adj_seq(), start as int, stop as int, p@),
    {
        if !self.contains_node(start) || !self.contains_node(stop) {
            proof {
                if reachable(self.node_seq(), self.adj_seq(), start as int, stop as int) {
                    let p = choose|p: Seq<usize>| is_path(self.node_seq(), self.adj_seq(), p)
                        && p[0] as int == start as int && p.last() as int == stop as int;
                    assert(node_exists(self.node_seq(), p[0] as int));
                    assert(node_exists(self.node_seq(), p[p.len() - 1] as int));
                }
            }
            return None;
        }
        self.bfs_path(start, stop)
    }

    /// The number of edges on a shortest walk from `start` to `stop`; `None`
    /// when there is none or either index is not a node.
    pub fn shortest_path_len(&self, start: usize, stop: usize) -> (r: Option<usize>)
        requires
            self.wf(),
        ensures
            r is Some <==> reachable(self.node_seq(), self.adj_seq(), start as int, stop as int),
            r matches Some(l) ==> exists|p: Seq<usize>| is_canonical_shortest_path(self.node_seq(), self.adj_seq(), start as int, stop as int, p)
                && p.len() == l + 1,
    {
        match self.shortest_path(start, stop) {
            Some(p) => Some(p.len() - 1),
            None => None,
        }
    }

    /// True when slot `index` holds a node.
    pub fn contains_node(&self, index: usize) -> (r: bool)
        requires
            self.wf(),
        ensures
            r == node_exists(self.node_seq(), index as int),
    {
        index < self.nodes.len() && self.nodes[index].is_some()
    }

    /// Number of slots, occupied or not.
    pub fn slot_count(&self) -> (r: usize)
        ensures
            r == self.node_seq().len(),
    {
        self.nodes.len()
    }

    /// The node in slot `index`, if any.
    pub fn get_node(&self, index: usize) -> (r: Option<&N>)
        requires
            self.wf(),
        ensures
            r is Some == node_exists(self.node_seq(), index as int),
            r matches Some(n) ==> self.node_seq()[index as int] == Some(*n),
    {
        if index < self.nodes.len() {
            self.nodes[index].as_ref()
        } else {
            None
        }
    }

    /// True when the edge `a -> b` is present.
    pub fn contains_edge(&self, a: usize, b: usize) -> (r: bool)
        requires
            self.wf(),
        ensures
            r == has_edge(self.adj_seq(), a as int, b as int),
    {
        if a >= self.nodes.len() {
            return false;
        }
        proof {
            self.lemma_edge_at(a as int);
        }
        let lo = self.offsets[a];
        let hi = self.offsets[a + 1];
        let mut k: usize = lo;
        while k < hi
            invariant
                self.wf(),
                (a as int) < self.nodes@.len(),
                lo == self.offsets@[a as int],
                lo <= k <= hi,
                hi <= self.targets@.len(),
                self.adj_seq()[a as int].len() == hi - lo,
                forall|kk: int| lo <= kk < hi ==> #[trigger] self.targets@[kk] == self.adj_seq()[a as int][kk - lo],
                forall|kk: int| lo <= kk < k ==> self.targets@[kk].0 != b,
            decreases hi - k,
        {
            if self.targets[k].0 == b {
                proof {
                    assert(self.adj_seq()[a as int][k - lo].0 == b);
                }
                return true;
            }
            k = k + 1;
        }
        proof {
            if has_edge(self.adj_seq(), a as int, b as int) {
                let j = choose|j: int| 0 <= j < self.adj_seq()[a as int].len() && self.adj_seq()[a as int][j].0 as int == b as int;
                assert(self.targets@[lo + j] == self.adj_seq()[a as int][j]);
            }
        }
        false
    }

    /// The outgoing edges of `source` as (target, weight), or `None` when it is not a node.
    pub fn get_edges(&self, source: usize) -> (r: Option<Vec<(usize, W)>>)
        requires
            self.wf(),
        ensures
            r is Some <==> node_exists(self.node_seq(), source as int),
            r matches Some(l) ==> l@ == self.adj_seq()[source as int],
    {
        if source >= self.nodes.len() || !self.contains_node(source) {
            return None;
        }
        proof {
            self.lemma_edge_at(source as int);
        }
        let lo = self.offsets[source];
        let hi = self.offsets[source + 1];
        let mut out: Vec<(usize, W)> = Vec::new();
        let mut k: usize = lo;
        while k < hi
            invariant
                lo <= k <= hi,
                hi <= self.targets@.len(),
                out@ == self.targets@.subrange(lo as int, k as int),
            decreases hi - k,
        {
            out.push(self.targets[k]);
            assert(out@ =~= self.targets@.subrange(lo as int, k + 1));
            k = k + 1;
        }
        Some(out)
    }

    /// Number of nodes held.
    pub fn number_nodes(&self) -> (r: usize)
        requires
            self.wf(),
        ensures
            r as int == count_nodes(self.node_seq()),
    {
        count_present(&self.nodes)
    }

    /// Number of edges held.
    pub fn number_edges(&self) -> (r: usize)
        requires
            self.wf(),
        ensures
            r as int == total_edges(self.adj_seq()),
    {
        proof {
            lemma_csr_total(self.offsets@, self.targets@, self.nodes@.len() as int);
            assert(self.adj_seq().take(self.nodes@.len() as int) =~= self.adj_seq());
        }
        self.targets.len()
    }

    /// References to all nodes, in index order.
    pub fn get_all_nodes(&self) -> (r: Vec<&N>)
        requires
            self.wf(),
        ensures
            refs_match(r@, present_nodes(self.node_seq())),
    {
        present_refs(&self.nodes)
    }

    /// The highest index that holds a node, if any.
    pub fn get_last_index(&self) -> (r: Option<usize>)
        requires
            self.wf(),
        ensures
            r is None <==> forall|i: int| !node_exists(self.node_seq(), i),
            r matches Some(i) ==> node_exists(self.node_seq(), i as int)
                && forall|j: int| i < j ==> !node_exists(self.node_seq(), j),
    {
        last_present(&self.nodes)
    }

    /// The root node's index, if any.
    pub fn get_root_index(&self) -> (r: Option<usize>)
        ensures
            r == self.root_spec(),
    {
        self.root
    }

    /// For every slot, how many slots not `removed` have an edge into it.
    fn in_degrees(&self, removed: &Vec<bool>) -> (r: Vec<usize>)
        requires
            self.wf(),
            removed@.len() == self.nodes@.len(),
        ensures
            r@.len() == self.nodes@.len(),
            forall|v: int| 0 <= v < self.nodes@.len() ==> #[trigger] r@[v] as int == in_count(self.adj_seq(), removed@, v, self.nodes@.len() as int),
    {
        let n = self.nodes.len();
        let ghost adj = self.adj_seq();
        let mut indeg: Vec<usize> = vec![0; n];
        let mut a: usize = 0;
        while a < n
            invariant
                self.wf(),
                n == self.nodes@.len(),
                adj == self.adj_seq(),
                removed@.len() == n,
                a <= n,
                indeg@.len() == n,
                forall|v: int| 0 <= v < n ==> #[trigger] indeg@[v] as int == in_count(adj, removed@, v, a as int),
            decreases n - a,
        {
            proof {
                self.lemma_edge_at(a as int);
            }
            if !removed[a] {
                let lo = self.offsets[a];
                let hi = self.offsets[a + 1];
                let mut k: usize = lo;
                while k < hi
                    invariant
                        self.wf(),
                        n == self.nodes@.len(),
                        adj == self.adj_seq(),
                        removed@.len() == n,
                        a < n,
                        !removed@[a as int],
                        lo == self.offsets@[a as int],
                        lo <= k <= hi,
                        hi <= self.targets@.len(),
                        adj[a as int].len() == hi - lo,
                        forall|kk: int| lo <= kk < hi ==> #[trigger] self.targets@[kk] == adj[a as int][kk - lo],
                        indeg@.len() == n,
                        forall|v: int| 0 <= v < n ==> #[trigger] indeg@[v] as int == in_count(adj, removed@, v, a as int)
                            + if exists|kk: int| lo <= kk < k && self.targets@[kk].0 as int == v { 1int } else { 0int },
                    decreases hi - k,
                {
                    let t = self.targets[k].0;
                    proof {
                        assert(self.targets@[k as int] == adj[a as int][k - lo]);
                        assert(node_exists(self.nodes@, t as int));
                        lemma_in_count_zero(adj, removed@, t as int, a as int);
                        assert(!exists|kk: int| lo <= kk < k && self.targets@[kk].0 == t) by {
                            if exists|kk: int| lo <= kk < k && self.targets@[kk].0 == t {
                                let kk = choose|kk: int| lo <= kk < k && self.targets@[kk].0 == t;
                                assert(adj[a as int][kk - lo].0 == adj[a as int][k - lo].0);
                                assert(targets_distinct(adj[a as int]));
                            }
                        }
                    }
                    indeg.set(t, indeg[t] + 1);
                    proof {
                        assert forall|v: int| 0 <= v < n implies #[trigger] indeg@[v] as int == in_count(adj, removed@, v, a as int)
                            + if exists|kk: int| lo <= kk < k + 1 && self.targets@[kk].0 as int == v { 1int } else { 0int } by {
                            if v == t as int {
                                assert(self.targets@[k as int].0 as int == v);
                            } else {
                                if exists|kk: int| lo <= kk < k + 1 && self.targets@[kk].0 as int == v {
                                    let kk = choose|kk: int| lo <= kk < k + 1 && self.targets@[kk].0 as int == v;
                                    assert(kk != k);
                                }
                            }
                        }
                    }
                    k = k + 1;
                }
                proof {
                    assert forall|v: int| 0 <= v < n implies #[trigger] indeg@[v] as int == in_count(adj, removed@, v, a + 1) by {
                        if exists|kk: int| lo <= kk < hi && self.targets@[kk].0 as int == v {
                            let kk = choose|kk: int| lo <= kk < hi && self.targets@[kk].0 as int == v;
                            assert(adj[a as int][kk - lo].0 as int == v);
                            assert(has_edge(adj, a as int, v));
                        }
                        if has_edge(adj, a as int, v) {
                            let j = choose|j: int| 0 <= j < adj[a as int].len() && adj[a as int][j].0 as int == v;
                            assert(self.targets@[lo + j] == adj[a as int][j]);
                        }
                    }
                }
            }
            a = a + 1;
        }
        indeg
    }

    /// Appends `v`, a slot with no remaining predecessor, to the order, marks
    /// it removed, and takes it off the in-degree of each of its successors;
    /// successors left with none join the queue.
    fn remove_source(
        &self,
        v: usize,
        removed: &mut Vec<bool>,
        order: &mut Vec<usize>,
        indeg: &mut Vec<usize>,
        queue: &mut Vec<usize>,
        Ghost(head): Ghost<int>,
    )
        requires
            self.wf(),
            peel_inv(self.node_seq(), self.adj_seq(), old(removed)@, old(order)@),
            old(removed)@.len() == self.nodes@.len(),
            old(indeg)@.len() == self.nodes@.len(),
            (v as int) < self.nodes@.len(),
            !old(removed)@[v as int],
            old(indeg)@[v as int] == 0,
            forall|t: int| 0 <= t < self.nodes@.len() && !old(removed)@[t]
                ==> #[trigger] old(indeg)@[t] as int == in_count(self.adj_seq(), old(removed)@, t, self.nodes@.len() as int),
            kahn_queue(old(queue)@, head, old(removed)@, old(indeg)@),
            forall|i: int| head <= i < old(queue)@.len() ==> #[trigger] old(queue)@[i] != v,
            forall|t: int| 0 <= t < self.nodes@.len() && !old(removed)@[t] && old(indeg)@[t] == 0 && t != v
                ==> #[trigger] kahn_queued(old(queue)@, head, t),
        ensures
            peel_inv(self.node_seq(), self.adj_seq(), final(removed)@, final(order)@),
            final(removed)@ == old(removed)@.update(v as int, true),
            final(order)@ == old(order)@.push(v),
            final(indeg)@.len() == self.nodes@.len(),
            forall|t: int| 0 <= t < self.nodes@.len() && !final(removed)@[t]
                ==> #[trigger] final(indeg)@[t] as int == in_count(self.adj_seq(), final(removed)@, t, self.nodes@.len() as int),
            kahn_queue(final(queue)@, head, final(removed)@, final(indeg)@),
            forall|t: int| 0 <= t < self.nodes@.len() && !final(removed)@[t] && final(indeg)@[t] == 0
                ==> #[trigger] kahn_queued(final(queue)@, head, t),
    {
        let n = self.nodes.len();
        let ghost nodes = self.node_seq();
        let ghost adj = self.adj_seq();
        let ghost r0 = removed@;
        let ghost o0 = order@;
        proof {
            reveal(peel_inv);
            lemma_in_count_zero(adj, r0, v as int, n as int);
            assert(!o0.contains(v));
            assert forall|a: int| #[trigger] has_edge(adj, a, v as int) implies exists|i: int|
                0 <= i < o0.len() && #[trigger] o0[i] as int == a by {
                assert(node_exists(nodes, a));
                assert(r0[a]);
                assert(o0.contains(a as usize));
                let i = choose|i: int| 0 <= i < o0.len() && o0[i] == a as usize;
            }
        }
        order.push(v);
        removed.set(v, true);
        proof {
            reveal(peel_inv);
            let o = order@;
            assert forall|i: int| 0 <= i < o.len() implies node_exists(nodes, #[trigger] o[i] as int) by {
                if i < o0.len() {
                    assert(o[i] == o0[i]);
                }
            }
            assert forall|x: int| 0 <= x < n implies (#[trigger] removed@[x] <==> (nodes[x] is None || o.contains(x as usize))) by {
                if x == v as int {
                    assert(o[o.len() - 1] == v);
                } else {
                    if o.contains(x as usize) {
                        let i = choose|i: int| 0 <= i < o.len() && o[i] == x as usize;
                        assert(o0[i] == x as usize);
                    }
                    if o0.contains(x as usize) {
                        let i = choose|i: int| 0 <= i < o0.len() && o0[i] == x as usize;
                        assert(o[i] == x as usize);
                    }
                }
            }
            assert forall|j: int, a: int| 0 <= j < o.len() && #[trigger] has_edge(adj, a, o[j] as int)
                implies exists|i: int| 0 <= i < j && #[trigger] o[i] as int == a by {
                if j < o0.len() {
                    assert(o[j] == o0[j]);
                    let i = choose|i: int| 0 <= i < j && #[trigger] o0[i] as int == a;
                    assert(o[i] == o0[i]);
                } else {
                    let i = choose|i: int| 0 <= i < o0.len() && #[trigger] o0[i] as int == a;
                    assert(o[i] == o0[i]);
                }
            }
            assert forall|t: int| 0 <= t < n && !removed@[t] implies #[trigger] indeg@[t] as int
                == in_count(adj, removed@, t, n as int) + if has_edge(adj, v as int, t) { 1int } else { 0int } by {
                lemma_in_count_remove(adj, r0, v as int, t, n as int);
            }
        }
        let ghost q0 = queue@;
        let ghost d0 = indeg@;
        proof {
            self.lemma_edge_at(v as int);
        }
        let lo = self.offsets[v];
        let hi = self.offsets[v + 1];
        proof {
            reveal(kahn_queue);
            assert forall|i: int| head <= i < queue@.len() implies (#[trigger] queue@[i] as int) < removed@.len()
                && !removed@[queue@[i] as int] && indeg@[queue@[i] as int] == 0 by {
                assert(queue@[i] != v);
            }
            assert(kahn_queue(queue@, head, removed@, indeg@));
        }
        let mut k: usize = lo;
        while k < hi
            invariant
                self.wf(),
                n == self.nodes@.len(),
                nodes == self.node_seq(),
                adj == self.adj_seq(),
                (v as int) < n,
                order@ == o0.push(v),
                removed@ == r0.update(v as int, true),
                removed@.len() == n,
                lo == self.offsets@[v as int],
                lo <= k <= hi,
                hi <= self.targets@.len(),
                adj[v as int].len() == hi - lo,
                forall|kk: int| lo <= kk < hi ==> #[trigger] self.targets@[kk] == adj[v as int][kk - lo],
                indeg@.len() == n,
                forall|t: int| 0 <= t < n && !removed@[t] ==> #[trigger] indeg@[t] as int == in_count(adj, removed@, t, n as int)
                    + if has_edge(adj, v as int, t) && !exists|kk: int| lo <= kk < k && self.targets@[kk].0 as int == t { 1int } else { 0int },
                queue@.len() >= q0.len(),
                forall|i: int| 0 <= i < q0.len() ==> #[trigger] queue@[i] == q0[i],
                kahn_queue(queue@, head, removed@, indeg@),
                forall|t: int| 0 <= t < n && !removed@[t] && indeg@[t] == 0 && (!has_edge(adj, v as int, t)
                    || exists|kk: int| lo <= kk < k && self.targets@[kk].0 as int == t)
                    ==> #[trigger] kahn_queued(queue@, head, t),
                peel_inv(nodes, adj, removed@, order@),
            decreases hi - k,
        {
            let t = self.targets[k].0;
            proof {
                assert(self.targets@[k as int] == adj[v as int][k - lo]);
                assert(has_edge(adj, v as int, t as int)) by {
                    assert(adj[v as int][k - lo].0 == t);
                }
                assert(node_exists(nodes, t as int));
                assert(!exists|kk: int| lo <= kk < k && self.targets@[kk].0 == t) by {
                    if exists|kk: int| lo <= kk < k && self.targets@[kk].0 == t {
                        let kk = choose|kk: int| lo <= kk < k && self.targets@[kk].0 == t;
                        assert(adj[v as int][kk - lo].0 == adj[v as int][k - lo].0);
                        assert(targets_distinct(adj[v as int]));
                    }
                }
                reveal(peel_inv);
                // A slot already removed has no predecessor that was not.
                assert(!removed@[t as int]) by {
                    if removed@[t as int] {
                        if t == v {
                            lemma_in_count_zero(adj, r0, v as int, n as int);
                            assert(!(!r0[v as int] && has_edge(adj, v as int, v as int)));
                        } else {
                            assert(order@.contains(t));
                            let j = choose|j: int| 0 <= j < order@.len() && order@[j] == t;
                            assert(has_edge(adj, v as int, order@[j] as int));
                            let i = choose|i: int| 0 <= i < j && #[trigger] order@[i] as int == v as int;
                            assert(order@[order@.len() - 1] == v);
                            assert(order@.no_duplicates());
                        }
                    }
                }
                lemma_in_count_zero(adj, removed@, t as int, n as int);
            }
            let ghost qb = queue@;
            let ghost db = indeg@;
            let d = indeg[t] - 1;
            indeg.set(t, d);
            if d == 0 {
                queue.push(t);
            }
            proof {
                reveal(kahn_queue);
                assert forall|t2: int| 0 <= t2 < n && !removed@[t2] implies #[trigger] indeg@[t2] as int == in_count(adj, removed@, t2, n as int)
                    + if has_edge(adj, v as int, t2) && !exists|kk: int| lo <= kk < k + 1 && self.targets@[kk].0 as int == t2 { 1int } else { 0int } by {
                    if t2 == t as int {
                        assert(self.targets@[k as int].0 as int == t2);
                    } else {
                        if exists|kk: int| lo <= kk < k + 1 && self.targets@[kk].0 as int == t2 {
                            let kk = choose|kk: int| lo <= kk < k + 1 && self.targets@[kk].0 as int == t2;
                            assert(kk != k);
                        }
                    }
                }
                assert forall|t2: int| 0 <= t2 < n && !removed@[t2] && indeg@[t2] == 0 && (!has_edge(adj, v as int, t2)
                    || exists|kk: int| lo <= kk < k + 1 && self.targets@[kk].0 as int == t2)
                    implies #[trigger] kahn_queued(queue@, head, t2) by {
                    if t2 == t as int {
                        assert(queue@[queue@.len() - 1] == t);
                    } else {
                        if exists|kk: int| lo <= kk < k + 1 && self.targets@[kk].0 as int == t2 {
                            let kk = choose|kk: int| lo <= kk < k + 1 && self.targets@[kk].0 as int == t2;
                            assert(kk != k);
                            assert(lo <= kk < k && self.targets@[kk].0 as int == t2);
                        }
                        assert(db[t2] == indeg@[t2]);
                        assert(kahn_queued(qb, head, t2));
                        let i = choose|i: int| head <= i < qb.len() && qb[i] as int == t2;
                        assert(queue@[i] == qb[i]);
                    }
                }
            }
            k = k + 1;
        }
        proof {
            assert forall|t: int| 0 <= t < n && !removed@[t] implies #[trigger] indeg@[t] as int == in_count(adj, removed@, t, n as int) by {
                if has_edge(adj, v as int, t) {
                    let j = choose|j: int| 0 <= j < adj[v as int].len() && adj[v as int][j].0 as int == t;
                    assert(self.targets@[lo + j] == adj[v as int][j]);
                }
            }
            assert forall|t: int| 0 <= t < n && !removed@[t] && indeg@[t] == 0 implies #[trigger] kahn_queued(queue@, head, t) by {
                if has_edge(adj, v as int, t) {
                    let j = choose|j: int| 0 <= j < adj[v as int].len() && adj[v as int][j].0 as int == t;
                    assert(self.targets@[lo + j] == adj[v as int][j]);
                }
            }
        }
    }

    /// The lowest-indexed visited slot one step closer than `cur` with an edge into `cur`.
    fn min_pred(&self, visited: &Vec<bool>, dist: &Vec<usize>, cur: usize) -> (u: usize)
        requires
            self.wf(),
            visited@.len() == self.nodes@.len(),
            dist@.len() == self.nodes@.len(),
            (cur as int) < self.nodes@.len(),
            exists|w: int| 0 <= w < self.nodes@.len() && visited@[w] && dist@[w] + 1 == dist@[cur as int]
                && has_edge(self.adj_seq(), w, cur as int),
        ensures
            (u as int) < self.nodes@.len(),
            visited@[u as int],
            dist@[u as int] + 1 == dist@[cur as int],
            has_edge(self.adj_seq(), u as int, cur as int),
            forall|w: int| 0 <= w < u && visited@[w] && dist@[w] + 1 == dist@[cur as int] ==> !has_edge(self.adj_seq(), w, cur as int),
    {
        let n = self.nodes.len();
        let mut u: usize = 0;
        while u < n
            invariant
                self.wf(),
                n == self.nodes@.len(),
                visited@.len() == n,
                dist@.len() == n,
                (cur as int) < n,
                u <= n,
                forall|w: int| 0 <= w < u && visited@[w] && dist@[w] + 1 == dist@[cur as int] ==> !has_edge(self.adj_seq(), w, cur as int),
            decreases n - u,
        {
            if visited[u] && dist[u] < usize::MAX && dist[u] + 1 == dist[cur] && self.contains_edge(u, cur) {
                return u;
            }
            u = u + 1;
        }
        proof {
            let w = choose|w: int| 0 <= w < self.nodes@.len() && visited@[w] && dist@[w] + 1 == dist@[cur as int]
                && has_edge(self.adj_seq(), w, cur as int);
            assert(w < u);
        }
        0
    }

    /// Orders the nodes so that every edge points forward: repeatedly takes a
    /// node that no remaining node points to, keeping a count of remaining
    /// predecessors per node and a queue of nodes whose count is zero, in
    /// O(V + E). When the queue runs dry while nodes remain, every remaining node
    /// has a remaining predecessor, and following predecessors yields a cycle.
    fn peel(&self) -> (r: Result<Vec<usize>, Vec<usize>>)
        requires
            self.wf(),
        ensures
            r matches Ok(o) ==> is_topological_order(self.node_seq(), self.adj_seq(), o@),
            r matches Err(c) ==> is_cycle(self.node_seq(), self.adj_seq(), c@),
    {
        let n = self.nodes.len();
        let ghost adj = self.adj_seq();
        let ghost nodes = self.node_seq();
        proof {
            assert forall|a: int, b: int| #[trigger] has_edge(adj, a, b) implies node_exists(nodes, a) by {
                let k = choose|k: int| 0 <= k < adj[a].len() && adj[a][k].0 as int == b;
            }
        }
        let mut removed: Vec<bool> = Vec::new();
        let mut v: usize = 0;
        while v < n
            invariant
                n == nodes.len(),
                nodes == self.nodes@,
                v <= n,
                removed@.len() == v,
                forall|x: int| 0 <= x < v ==> (#[trigger] removed@[x] <==> nodes[x] is None),
            decreases n - v,
        {
            removed.push(self.nodes[v].is_none());
            v = v + 1;
        }
        let mut order: Vec<usize> = Vec::new();
        proof {
            reveal(peel_inv);
            assert forall|x: int| 0 <= x < n implies (#[trigger] removed@[x] <==> (nodes[x] is None || order@.contains(x as usize))) by {}
        }
        let mut indeg = self.in_degrees(&removed);
        let mut queue: Vec<usize> = Vec::new();
        let mut v: usize = 0;
        while v < n
            invariant
                n == nodes.len(),
                removed@.len() == n,
                indeg@.len() == n,
                v <= n,
                forall|i: int| 0 <= i < queue@.len() ==> (#[trigger] queue@[i] as int) < v && !removed@[queue@[i] as int]
                    && indeg@[queue@[i] as int] == 0,
                forall|i: int, j: int| 0 <= i < queue@.len() && 0 <= j < queue@.len() && i < j ==> queue@[i] < queue@[j],
                forall|t: int| 0 <= t < v && !removed@[t] && indeg@[t] == 0 ==> #[trigger] kahn_queued(queue@, 0, t),
            decreases n - v,
        {
            let ghost q0 = queue@;
            if !removed[v] && indeg[v] == 0 {
                queue.push(v);
                proof {
                    assert forall|t: int| 0 <= t < v + 1 && !removed@[t] && indeg@[t] == 0 implies #[trigger] kahn_queued(queue@, 0, t) by {
                        if t == v as int {
                            assert(queue@[queue@.len() - 1] == v);
                        } else {
                            assert(kahn_queued(q0, 0, t));
                            let i = choose|i: int| 0 <= i < q0.len() && q0[i] as int == t;
                            assert(queue@[i] == q0[i]);
                        }
                    }
                }
            }
            v = v + 1;
        }
        proof {
            reveal(kahn_queue);
            assert(kahn_queue(queue@, 0, removed@, indeg@));
        }
        let mut head: usize = 0;
        while head < queue.len()
            invariant
                self.wf(),
                n == nodes.len(),
                nodes == self.node_seq(),
                adj == self.adj_seq(),
                removed@.len() == n,
                indeg@.len() == n,
                peel_inv(nodes, adj, removed@, order@),
                forall|t: int| 0 <= t < n && !removed@[t] ==> #[trigger] indeg@[t] as int == in_count(adj, removed@, t, n as int),
                kahn_queue(queue@, head as int, removed@, indeg@),
                forall|t: int| 0 <= t < n && !removed@[t] && indeg@[t] == 0 ==> #[trigger] kahn_queued(queue@, head as int, t),
            decreases n - order@.len(),
        {
            let v = queue[head];
            proof {
                reveal(kahn_queue);
                assert(!removed@[v as int] && indeg@[v as int] == 0);
                assert forall|i: int| head + 1 <= i < queue@.len() implies #[trigger] queue@[i] != v by {
                    assert(queue@[i] != queue@[head as int]);
                }
                assert(kahn_queue(queue@, head + 1, removed@, indeg@));
                assert forall|t: int| 0 <= t < n && !removed@[t] && indeg@[t] == 0 && t != v
                    implies #[trigger] kahn_queued(queue@, head + 1, t) by {
                    assert(kahn_queued(queue@, head as int, t));
                    let i = choose|i: int| head <= i < queue@.len() && queue@[i] as int == t;
                    assert(i != head);
                }
                lemma_peel_room(nodes, adj, removed@, order@, v as int);
            }
            self.remove_source(v, &mut removed, &mut order, &mut indeg, &mut queue, Ghost(head + 1));
            head = head + 1;
        }
        let (has_pred, pred_of) = self.pred_scan(&removed);
        proof {
            assert forall|x: int| 0 <= x < n && !#[trigger] removed@[x] implies has_pred@[x] by {
                reveal(kahn_queue);
                if indeg@[x] == 0 {
                    assert(kahn_queued(queue@, head as int, x));
                }
                lemma_in_count_zero(adj, removed@, x, n as int);
                let a = choose|a: int| 0 <= a < n && !(!(!removed@[a] && #[trigger] has_edge(adj, a, x)));
            }
        }
        self.finish_peel(removed, order, &has_pred, &pred_of)
    }
}

/// The walk read back along lowest-indexed predecessors is the canonical
/// shortest walk.
proof fn lemma_bfs_path_canonical<N, W>(
    nodes: Seq<Option<N>>,
    adj: Seq<Seq<(usize, W)>>,
    st: int,
    stop: int,
    visited: Seq<bool>,
    dist: Seq<usize>,
    parent: Seq<usize>,
    rev: Seq<usize>,
    p: Seq<usize>,
)
    requires
        bfs_sound(nodes, adj, st, visited, dist, parent),
        visited.len() == nodes.len(),
        dist.len() == nodes.len(),
        forall|v: int| 0 <= v < nodes.len() ==> (#[trigger] visited[v] <==> reachable(nodes, adj, st, v)),
        is_shortest_path(nodes, adj, st, stop, p),
        p.len() == rev.len(),
        0 <= stop < nodes.len(),
        forall|j: int| 0 <= j < p.len() ==> #[trigger] p[j] == rev[p.len() - 1 - j],
        forall|i: int| 0 <= i < rev.len() ==> node_exists(nodes, #[trigger] rev[i] as int),
        forall|i: int| 0 <= i < rev.len() ==> #[trigger] dist[rev[i] as int] + i == dist[stop],
        forall|i: int| 0 <= i < rev.len() ==> visited[#[trigger] rev[i] as int],
        forall|i: int, w: int| 0 <= i < rev.len() - 1 && 0 <= w < rev[i + 1] && visited[w]
            && dist[w] + 1 == dist[rev[i] as int] ==> !#[trigger] has_edge(adj, w, rev[i] as int),
    ensures
        is_canonical_shortest_path(nodes, adj, st, stop, p),
{
    let l = rev.len() as int;
    assert forall|j: int| 0 <= j < p.len() implies at_distance(nodes, adj, st, #[trigger] p[j] as int, j) by {
        assert(p[j] == rev[l - 1 - j]);
        assert(dist[rev[l - 1 - j] as int] + (l - 1 - j) == dist[stop]);
        assert(visited[rev[l - 1 - j] as int]);
        lemma_bfs_sound_at(nodes, adj, st, visited, dist, parent, p[j] as int);
        lemma_bfs_sound_at(nodes, adj, st, visited, dist, parent, stop);
        assert(dist[stop] + 1 == l) by {
            let q = p;
            if dist[stop] + 1 > l {
                assert(path_within(nodes, adj, st, stop, l - 1));
                lemma_path_within_mono(nodes, adj, st, stop, l - 1, dist[stop] - 1);
            } else if dist[stop] + 1 < l {
                let w = choose|w: Seq<usize>| is_path(nodes, adj, w) && w[0] as int == st && w.last() as int == stop
                    && w.len() <= dist[stop] + 1;
                assert(p.len() <= w.len());
            }
        }
    }
    assert forall|j: int, u: int| 1 <= j < p.len() && 0 <= u < p[j - 1] && at_distance(nodes, adj, st, u, j - 1)
        implies !#[trigger] has_edge(adj, u, p[j] as int) by {
        let i = l - 1 - j;
        assert(p[j] == rev[i] && p[j - 1] == rev[i + 1]);
        let q = choose|q: Seq<usize>| is_path(nodes, adj, q) && q[0] as int == st && q.last() as int == u && q.len() <= (j - 1) + 1;
        assert(node_exists(nodes, q[q.len() - 1] as int));
        assert(reachable(nodes, adj, st, u));
        assert(visited[u]);
        lemma_bfs_sound_at(nodes, adj, st, visited, dist, parent, u);
        if dist[u] < j - 1 {
            lemma_path_within_mono(nodes, adj, st, u, dist[u] as int, j - 2);
        } else if dist[u] > j - 1 {
            lemma_path_within_mono(nodes, adj, st, u, j - 1, dist[u] - 1);
        }
        assert(at_distance(nodes, adj, st, p[j] as int, j));
        assert(at_distance(nodes, adj, st, rev[i] as int, j));
        assert(visited[rev[i] as int]);
        lemma_bfs_sound_at(nodes, adj, st, visited, dist, parent, rev[i] as int);
        if dist[rev[i] as int] < j {
            lemma_path_within_mono(nodes, adj, st, rev[i] as int, dist[rev[i] as int] as int, j - 1);
        } else if dist[rev[i] as int] > j {
            lemma_path_within_mono(nodes, adj, st, rev[i] as int, j, dist[rev[i] as int] - 1);
        }
        assert(dist[u] + 1 == dist[rev[i] as int]);
    }
}

/// The state kept while peeling: `order` lists distinct existing nodes, a slot
/// is `removed` exactly when it is empty or listed, edges start at existing
/// nodes, and every predecessor of a listed node is listed before it.
#[verifier::opaque]
spec fn peel_inv<N, W>(nodes: Seq<Option<N>>, adj: Seq<Seq<(usize, W)>>, removed: Seq<bool>, order: Seq<usize>) -> bool {
    &&& removed.len() == nodes.len()
    &&& forall|a: int, b: int| #[trigger] has_edge(adj, a, b) ==> node_exists(nodes, a)
    &&& order.no_duplicates()
    &&& forall|i: int| 0 <= i < order.len() ==> node_exists(nodes, #[trigger] order[i] as int)
    &&& forall|x: int| 0 <= x < nodes.len() ==> (#[trigger] removed[x] <==> (nodes[x] is None || order.contains(x as usize)))
    &&& forall|j: int, a: int| 0 <= j < order.len() && #[trigger] has_edge(adj, a, order[j] as int)
        ==> exists|i: int| 0 <= i < j && #[trigger] order[i] as int == a
}

/// What a breadth-first search knows of every visited slot: its recorded
/// distance is the least number of edges that reach it from `start`, and unless
/// it is `start` itself its recorded parent is a visited slot one step closer
/// with an edge into it.
#[verifier::opaque]
pub open spec fn bfs_sound<N, W>(
    nodes: Seq<Option<N>>,
    adj: Seq<Seq<(usize, W)>>,
    start: int,
    visited: Seq<bool>,
    dist: Seq<usize>,
    parent: Seq<usize>,
) -> bool {
    &&& visited.len() == nodes.len()
    &&& dist.len() == nodes.len()
    &&& parent.len() == nodes.len()
    &&& forall|v: int| 0 <= v < nodes.len() && #[trigger] visited[v] ==> {
        &&& path_within(nodes, adj, start, v, dist[v] as int)
        &&& dist[v] >= 1 ==> {
            &&& !path_within(nodes, adj, start, v, dist[v] - 1)
            &&& (parent[v] as int) < nodes.len()
            &&& visited[parent[v] as int]
            &&& dist[parent[v] as int] + 1 == dist[v]
            &&& has_edge(adj, parent[v] as int, v)
        }
    }
}

/// What `bfs_sound` says of one visited slot.
pub proof fn lemma_bfs_sound_at<N, W>(
    nodes: Seq<Option<N>>,
    adj: Seq<Seq<(usize, W)>>,
    start: int,
    visited: Seq<bool>,
    dist: Seq<usize>,
    parent: Seq<usize>,
    v: int,
)
    requires
        bfs_sound(nodes, adj, start, visited, dist, parent),
        0 <= v < nodes.len(),
        visited[v],
    ensures
        visited.len() == nodes.len(),
        dist.len() == nodes.len(),
        parent.len() == nodes.len(),
        path_within(nodes, adj, start, v, dist[v] as int),
        dist[v] >= 1 ==> {
            &&& !path_within(nodes, adj, start, v, dist[v] - 1)
            &&& (parent[v] as int) < nodes.len()
            &&& visited[parent[v] as int]
            &&& dist[parent[v] as int] + 1 == dist[v]
            &&& has_edge(adj, parent[v] as int, v)
        },
{
    reveal(bfs_sound);
}

/// Number of slots below `m`, not removed, with an edge into `v`.
pub open spec fn in_count<W>(adj: Seq<Seq<(usize, W)>>, removed: Seq<bool>, v: int, m: int) -> int
    decreases m,
{
    if m <= 0 {
        0
    } else {
        in_count(adj, removed, v, m - 1) + if !removed[m - 1] && has_edge(adj, m - 1, v) { 1int } else { 0int }
    }
}

/// The count is zero exactly when no slot below `m` that is not removed has an
/// edge into `v`, and never exceeds `m`.
proof fn lemma_in_count_zero<W>(adj: Seq<Seq<(usize, W)>>, removed: Seq<bool>, v: int, m: int)
    requires
        0 <= m <= removed.len(),
    ensures
        0 <= in_count(adj, removed, v, m) <= m,
        in_count(adj, removed, v, m) == 0 <==> forall|a: int| 0 <= a < m ==> !(!removed[a] && #[trigger] has_edge(adj, a, v)),
    decreases m,
{
    if m > 0 {
        lemma_in_count_zero(adj, removed, v, m - 1);
        if in_count(adj, removed, v, m) == 0 {
            assert forall|a: int| 0 <= a < m implies !(!removed[a] && #[trigger] has_edge(adj, a, v)) by {
                if a < m - 1 {
                }
            }
        }
    }
}

/// Removing slot `u` takes one off the count of each node `u` has an edge into.
proof fn lemma_in_count_remove<W>(adj: Seq<Seq<(usize, W)>>, removed: Seq<bool>, u: int, v: int, m: int)
    requires
        0 <= u < removed.len(),
        !removed[u],
        0 <= m <= removed.len(),
    ensures
        in_count(adj, removed.update(u, true), v, m) == in_count(adj, removed, v, m)
            - if u < m && has_edge(adj, u, v) { 1int } else { 0int },
    decreases m,
{
    if m > 0 {
        lemma_in_count_remove(adj, removed, u, v, m - 1);
    }
}

/// The waiting part `queue[head..]` of the queue holds distinct slots, none
/// removed, each with no remaining predecessor.
#[verifier::opaque]
spec fn kahn_queue(queue: Seq<usize>, head: int, removed: Seq<bool>, indeg: Seq<usize>) -> bool {
    &&& 0 <= head <= queue.len()
    &&& forall|i: int| head <= i < queue.len() ==> (#[trigger] queue[i] as int) < removed.len() && !removed[queue[i] as int]
        && indeg[queue[i] as int] == 0
    &&& forall|i: int, j: int| head <= i < queue.len() && head <= j < queue.len() && i != j ==> queue[i] != queue[j]
}

/// Slot `t` waits in `queue[head..]`.
spec fn kahn_queued(queue: Seq<usize>, head: int, t: int) -> bool {
    exists|i: int| head <= i < queue.len() && queue[i] as int == t
}

/// While a slot is left that is neither empty nor ordered, the order has room
/// for it.
proof fn lemma_peel_room<N, W>(nodes: Seq<Option<N>>, adj: Seq<Seq<(usize, W)>>, removed: Seq<bool>, order: Seq<usize>, v: int)
    requires
        peel_inv(nodes, adj, removed, order),
        0 <= v < nodes.len(),
        !removed[v],
    ensures
        order.len() < nodes.len(),
{
    reveal(peel_inv);
    assert(!order.contains(v as usize));
    let o = order.push(v as usize);
    assert forall|i: int| 0 <= i < o.len() implies (#[trigger] o[i] as int) < nodes.len() by {
        if i < order.len() {
            assert(o[i] == order[i]);
            assert(node_exists(nodes, order[i] as int));
        }
    }
    assert(o.no_duplicates()) by {
        assert forall|i: int, j: int| 0 <= i < o.len() && 0 <= j < o.len() && i != j implies o[i] != o[j] by {
            if i < order.len() && j < order.len() {
                assert(o[i] == order[i] && o[j] == order[j]);
            } else if i < order.len() {
                assert(o[i] == order[i]);
            } else if j < order.len() {
                assert(o[j] == order[j]);
            }
        }
    }
    lemma_distinct_bounded(o, nodes.len() as int);
}

/// Once every slot is removed, the peeled order is a topological order.
proof fn lemma_peel_complete<N, W>(nodes: Seq<Option<N>>, adj: Seq<Seq<(usize, W)>>, removed: Seq<bool>, order: Seq<usize>)
    requires
        peel_inv(nodes, adj, removed, order),
        forall|x: int| 0 <= x < removed.len() ==> #[trigger] removed[x],
    ensures
        is_topological_order(nodes, adj, order),
{
    reveal(peel_inv);
    lemma_peeled_order_is_topological(nodes, adj, removed, order);
}

/// A slot not yet removed holds a node.
proof fn lemma_peel_unremoved_exist<N, W>(nodes: Seq<Option<N>>, adj: Seq<Seq<(usize, W)>>, removed: Seq<bool>, order: Seq<usize>)
    requires
        peel_inv(nodes, adj, removed, order),
    ensures
        forall|x: int| 0 <= x < nodes.len() && !removed[x] ==> node_exists(nodes, x),
{
    reveal(peel_inv);
    assert forall|x: int| 0 <= x < nodes.len() && !removed[x] implies node_exists(nodes, x) by {
        assert(removed[x] == (nodes[x] is None || order.contains(x as usize)));
    }
}

/// When every slot is removed, a peeled order holds every node and keeps every
/// edge pointing forward.
proof fn lemma_peeled_order_is_topological<N, W>(
    nodes: Seq<Option<N>>,
    adj: Seq<Seq<(usize, W)>>,
    removed: Seq<bool>,
    order: Seq<usize>,
)
    requires
        removed.len() == nodes.len(),
        forall|x: int| 0 <= x < removed.len() ==> #[trigger] removed[x],
        order.no_duplicates(),
        forall|i: int| 0 <= i < order.len() ==> node_exists(nodes, #[trigger] order[i] as int),
        forall|x: int| 0 <= x < nodes.len() ==> (#[trigger] removed[x] <==> (nodes[x] is None || order.contains(x as usize))),
        forall|j: int, a: int| 0 <= j < order.len() && #[trigger] has_edge(adj, a, order[j] as int)
            ==> exists|i: int| 0 <= i < j && #[trigger] order[i] as int == a,
    ensures
        is_topological_order(nodes, adj, order),
{
    assert forall|x: int| node_exists(nodes, x) implies order.contains(x as usize) by {
        assert(removed[x]);
    }
    assert forall|i: int, j: int|
        0 <= i < order.len() && 0 <= j < order.len() && has_edge(adj, #[trigger] order[i] as int, #[trigger] order[j] as int)
            implies i < j by {
        let i2 = choose|i2: int| 0 <= i2 < j && #[trigger] order[i2] as int == order[i] as int;
        assert(i2 == i);
    }
}

/// A walk along `pred_of` links, read backwards from its end to the slot that the
/// end links back to, is a cycle when every link is an edge.
proof fn lemma_reversed_walk_is_cycle<N, W>(
    nodes: Seq<Option<N>>,
    adj: Seq<Seq<(usize, W)>>,
    removed: Seq<bool>,
    pred_of: Seq<usize>,
    path: Seq<usize>,
    j: int,
    c: Seq<usize>,
)
    requires
        removed.len() == nodes.len(),
        pred_of.len() == nodes.len(),
        forall|x: int| 0 <= x < nodes.len() && !removed[x] ==> node_exists(nodes, x),
        forall|x: int| 0 <= x < nodes.len() && !#[trigger] removed[x] ==> (pred_of[x] as int) < nodes.len()
            && !removed[pred_of[x] as int] && has_edge(adj, pred_of[x] as int, x),
        path.len() >= 1,
        0 <= j < path.len(),
        forall|i: int| 0 <= i < path.len() ==> (#[trigger] path[i] as int) < nodes.len() && !removed[path[i] as int],
        forall|i: int| 0 <= i < path.len() - 1 ==> pred_of[#[trigger] path[i] as int] == path[i + 1],
        pred_of[path[path.len() - 1] as int] == path[j],
        c.len() == path.len() - j,
        forall|i: int| 0 <= i < c.len() ==> #[trigger] c[i] == path[path.len() - 1 - i],
    ensures
        is_cycle(nodes, adj, c),
{
    let k = path.len() - 1;
    assert forall|i: int| 0 <= i < c.len() implies node_exists(nodes, #[trigger] c[i] as int) by {
        assert(c[i] == path[k - i]);
    }
    assert forall|i: int| 0 <= i < c.len() - 1 implies has_edge(adj, #[trigger] c[i] as int, c[i + 1] as int) by {
        let m = k - i - 1;
        assert(c[i] == path[m + 1] && c[i + 1] == path[m]);
        assert(pred_of[path[m] as int] == path[m + 1]);
        assert(!removed[path[m] as int]);
    }
    assert(c[c.len() - 1] == path[j]);
    assert(c[0] == path[k]);
    assert(!removed[path[k] as int]);
}

/// Follows parent links from `stop` back to the search's start; returns the
/// slots met, from `stop` backwards.
fn trace_back<N, W: Copy>(
    g: &CsmGraph<N, W>,
    visited: &Vec<bool>,
    dist: &Vec<usize>,
    parent: &Vec<usize>,
    stop: usize,
    Ghost(nodes): Ghost<Seq<Option<N>>>,
    Ghost(adj): Ghost<Seq<Seq<(usize, W)>>>,
    Ghost(st): Ghost<int>,
) -> (rev: Vec<usize>)
    requires
        g.wf(),
        nodes == g.node_seq(),
        adj == g.adj_seq(),
        bfs_sound(nodes, adj, st, visited@, dist@, parent@),
        visited@.len() == nodes.len(),
        dist@.len() == nodes.len(),
        parent@.len() == nodes.len(),
        (stop as int) < nodes.len(),
        visited@[stop as int],
    ensures
        rev@.len() == dist@[stop as int] + 1,
        rev@[0] == stop,
        visited@[rev@.last() as int],
        (rev@.last() as int) < nodes.len(),
        dist@[rev@.last() as int] == 0,
        forall|i: int| 0 <= i < rev@.len() ==> node_exists(nodes, #[trigger] rev@[i] as int),
        forall|i: int| 0 <= i < rev@.len() - 1 ==> has_edge(adj, rev@[i + 1] as int, #[trigger] rev@[i] as int),
        forall|i: int| 0 <= i < rev@.len() ==> #[trigger] dist@[rev@[i] as int] + i == dist@[stop as int],
        forall|i: int| 0 <= i < rev@.len() ==> visited@[#[trigger] rev@[i] as int],
        forall|i: int, w: int| 0 <= i < rev@.len() - 1 && 0 <= w < rev@[i + 1] && visited@[w]
            && dist@[w] + 1 == dist@[rev@[i] as int] ==> !#[trigger] has_edge(adj, w, rev@[i] as int),
{
    let mut rev: Vec<usize> = Vec::new();
    rev.push(stop);
    let mut cur = stop;
    proof {
        lemma_bfs_sound_at(nodes, adj, st, visited@, dist@, parent@, stop as int);
        let pp = choose|pp: Seq<usize>| is_path(nodes, adj, pp) && pp[0] as int == st
            && pp.last() as int == stop as int && pp.len() <= dist@[stop as int] + 1;
        assert(node_exists(nodes, pp[pp.len() - 1] as int));
        assert(rev@[0] == stop);
    }
    while dist[cur] > 0
        invariant
            bfs_sound(nodes, adj, st, visited@, dist@, parent@),
            visited@.len() == nodes.len(),
            dist@.len() == nodes.len(),
            parent@.len() == nodes.len(),
            (cur as int) < nodes.len(),
            visited@[cur as int],
            rev@.len() >= 1,
            rev@[0] == stop,
            rev@.last() == cur,
            rev@.len() + dist@[cur as int] == dist@[stop as int] + 1,
            forall|i: int| 0 <= i < rev@.len() ==> node_exists(nodes, #[trigger] rev@[i] as int),
            forall|i: int| 0 <= i < rev@.len() - 1 ==> has_edge(adj, rev@[i + 1] as int, #[trigger] rev@[i] as int),
            forall|i: int| 0 <= i < rev@.len() ==> #[trigger] dist@[rev@[i] as int] + i == dist@[stop as int],
            forall|i: int| 0 <= i < rev@.len() ==> visited@[#[trigger] rev@[i] as int],
            forall|i: int, w: int| 0 <= i < rev@.len() - 1 && 0 <= w < rev@[i + 1] && visited@[w]
                && dist@[w] + 1 == dist@[rev@[i] as int] ==> !#[trigger] has_edge(adj, w, rev@[i] as int),
            g.wf(),
            nodes == g.node_seq(),
            adj == g.adj_seq(),
        decreases dist@[cur as int],
    {
        proof {
            lemma_bfs_sound_at(nodes, adj, st, visited@, dist@, parent@, cur as int);
            lemma_bfs_sound_at(nodes, adj, st, visited@, dist@, parent@, parent@[cur as int] as int);
            let pp = choose|pp: Seq<usize>| is_path(nodes, adj, pp) && pp[0] as int == st
                && pp.last() as int == parent@[cur as int] as int && pp.len() <= dist@[parent@[cur as int] as int] + 1;
            assert(node_exists(nodes, pp[pp.len() - 1] as int));
        }
        let ghost r0 = rev@;
        let ghost c0 = cur;
        cur = g.min_pred(visited, dist, cur);
        rev.push(cur);
        proof {
            assert forall|i: int| 0 <= i < rev@.len() - 1 implies has_edge(adj, rev@[i + 1] as int, #[trigger] rev@[i] as int) by {
                if i < r0.len() - 1 {
                    assert(rev@[i] == r0[i] && rev@[i + 1] == r0[i + 1]);
                } else {
                    assert(rev@[i] == r0[r0.len() - 1]);
                }
            }
            assert forall|i: int| 0 <= i < rev@.len() implies node_exists(nodes, #[trigger] rev@[i] as int) by {
                if i < r0.len() {
                    assert(rev@[i] == r0[i]);
                }
            }
            assert forall|i: int| 0 <= i < rev@.len() implies #[trigger] dist@[rev@[i] as int] + i == dist@[stop as int] by {
                if i < r0.len() {
                    assert(rev@[i] == r0[i]);
                }
            }
            assert forall|i: int| 0 <= i < rev@.len() implies visited@[#[trigger] rev@[i] as int] by {
                if i < r0.len() {
                    assert(rev@[i] == r0[i]);
                }
            }
            assert forall|i: int, w: int| 0 <= i < rev@.len() - 1 && 0 <= w < rev@[i + 1] && visited@[w]
                && dist@[w] + 1 == dist@[rev@[i] as int] implies !#[trigger] has_edge(adj, w, rev@[i] as int) by {
                if i < r0.len() - 1 {
                    assert(rev@[i] == r0[i] && rev@[i + 1] == r0[i + 1]);
                } else {
                    assert(rev@[i] == c0 && rev@[i + 1] == cur);
                }
            }
        }
    }
    rev
}

/// Walks `x, pred_of[x], pred_of[pred_of[x]], ...` from `v0` through slots not
/// `removed` until a slot repeats. Returns the walk and the position of the
/// slot that `pred_of` of its last entry leads back to.
fn pred_walk(removed: &Vec<bool>, pred_of: &Vec<usize>, v0: usize) -> (r: (Vec<usize>, usize))
    requires
        pred_of@.len() == removed@.len(),
        (v0 as int) < removed@.len(),
        !removed@[v0 as int],
        forall|x: int| 0 <= x < removed@.len() && !#[trigger] removed@[x]
            ==> (pred_of@[x] as int) < removed@.len() && !removed@[pred_of@[x] as int],
    ensures
        r.0@.len() >= 1,
        (r.1 as int) < r.0@.len(),
        forall|i: int| 0 <= i < r.0@.len() ==> (#[trigger] r.0@[i] as int) < removed@.len() && !removed@[r.0@[i] as int],
        forall|i: int| 0 <= i < r.0@.len() - 1 ==> pred_of@[#[trigger] r.0@[i] as int] == r.0@[i + 1],
        pred_of@[r.0@[r.0@.len() - 1] as int] == r.0@[r.1 as int],
{
    let n = removed.len();
    let mut path: Vec<usize> = Vec::new();
    path.push(v0);
    let mut on_path: Vec<bool> = vec![false; n];
    on_path.set(v0, true);
    proof {
        assert forall|x: int| 0 <= x < n implies (#[trigger] on_path@[x] <==> path@.contains(x as usize)) by {
            if x == v0 as int {
                assert(path@[0] == v0);
            }
        }
    }
    loop
        invariant
            n == removed@.len(),
            pred_of@.len() == n,
            on_path@.len() == n,
            forall|x: int| 0 <= x < n && !#[trigger] removed@[x] ==> (pred_of@[x] as int) < n && !removed@[pred_of@[x] as int],
            path@.len() >= 1,
            path@.no_duplicates(),
            forall|i: int| 0 <= i < path@.len() ==> (#[trigger] path@[i] as int) < n && !removed@[path@[i] as int],
            forall|x: int| 0 <= x < n ==> (#[trigger] on_path@[x] <==> path@.contains(x as usize)),
            forall|i: int| 0 <= i < path@.len() - 1 ==> pred_of@[#[trigger] path@[i] as int] == path@[i + 1],
        decreases n - path@.len(),
    {
        let k = path.len() - 1;
        let w = path[k];
        let u = pred_of[w];
        if on_path[u] {
            let j = position_of(&path, u);
            return (path, j);
        }
        proof {
            assert(!path@.contains(u));
            lemma_distinct_bounded(path@.push(u), n as int);
        }
        let ghost p0 = path@;
        path.push(u);
        on_path.set(u, true);
        proof {
            assert forall|x: int| 0 <= x < n implies (#[trigger] on_path@[x] <==> path@.contains(x as usize)) by {
                if x == u as int {
                    assert(path@[path@.len() - 1] == u);
                } else if path@.contains(x as usize) {
                    let i = choose|i: int| 0 <= i < path@.len() && path@[i] == x as usize;
                    assert(p0[i] == x as usize);
                } else if on_path@[x] {
                    assert(p0.contains(x as usize));
                    let i = choose|i: int| 0 <= i < p0.len() && p0[i] == x as usize;
                    assert(path@[i] == x as usize);
                }
            }
        }
    }
}

/// Index of the first occurrence of `u` in `s`.
fn position_of(s: &Vec<usize>, u: usize) -> (j: usize)
    requires
        s@.contains(u),
    ensures
        (j as int) < s@.len(),
        s@[j as int] == u,
{
    let mut j: usize = 0;
    while j < s.len()
        invariant
            j <= s@.len(),
            s@.contains(u),
            forall|i: int| 0 <= i < j ==> s@[i] != u,
        decreases s@.len() - j,
    {
        if s[j] == u {
            return j;
        }
        j = j + 1;
    }
    proof {
        let i = choose|i: int| 0 <= i < s@.len() && s@[i] == u;
    }
    0
}

/// The entries `s[j..]` in reverse order.
fn reversed_tail(s: &Vec<usize>, j: usize) -> (c: Vec<usize>)
    requires
        (j as int) < s@.len(),
    ensures
        c@.len() == s@.len() - j,
        forall|i: int| 0 <= i < c@.len() ==> #[trigger] c@[i] == s@[s@.len() - 1 - i],
{
    let k = s.len() - 1;
    let mut c: Vec<usize> = Vec::new();
    let mut t: usize = 0;
    while t < s.len() - j
        invariant
            j <= k,
            k == s@.len() - 1,
            t <= k - j + 1,
            c@.len() == t,
            forall|i: int| 0 <= i < t ==> #[trigger] c@[i] == s@[k - i],
        decreases k - j + 1 - t,
    {
        c.push(s[k - t]);
        t = t + 1;
    }
    c
}


impl<N: Causable, W: Copy> CsmGraph<N, W> {
    /// Evaluates the node in slot `index` on `effect`, in place.
    pub fn evaluate_node(&mut self, index: usize, effect: &PropagatingEffect) -> (r: Outcome)
        requires
            old(self).wf(),
            node_exists(old(self).node_seq(), index as int),
            old(self).node_seq()[index as int].unwrap().causable_inv(),
        ensures
            final(self).wf(),
            final(self).adj_seq() == old(self).adj_seq(),
            final(self).root_spec() == old(self).root_spec(),
            node_evaluated(old(self).node_seq(), final(self).node_seq(), index as int, *effect, r),
    {
        let ghost adj = self.adj_seq();
        let r = match &mut self.nodes[index] {
            Some(n) => n.evaluate(effect),
            None => Err(CausalityError("empty slot".to_owned())),
        };
        assert(self.adj_seq() =~= adj);
        r
    }
}

} // verus!
