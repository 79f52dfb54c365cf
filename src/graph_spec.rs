//! The mathematical model shared by both graph representations: a sequence of
//! node slots (a removed node leaves an empty slot, so indices stay stable) and,
//! for each slot, the ordered list of its outgoing edges as (target, weight).
use vstd::prelude::*;
use crate::causaloid::Causable;
use crate::collection::{evaluated_as, Outcome};
use crate::effect::PropagatingEffect;

verus! {

/// True when slot `i` holds a node.
pub open spec fn node_exists<N>(nodes: Seq<Option<N>>, i: int) -> bool {
    0 <= i < nodes.len() && nodes[i] is Some
}

/// True when the adjacency lists hold an edge from `a` to `b`.
pub open spec fn has_edge<W>(adj: Seq<Seq<(usize, W)>>, a: int, b: int) -> bool {
    0 <= a < adj.len() && exists|k: int| 0 <= k < adj[a].len() && adj[a][k].0 as int == b
}

/// The slots `news` are `olds` after the node in slot `index` was evaluated on
/// `input` with outcome `out`.
pub open spec fn node_evaluated<N: Causable>(olds: Seq<Option<N>>, news: Seq<Option<N>>, index: int, input: PropagatingEffect, out: Outcome) -> bool {
    &&& news.len() == olds.len()
    &&& news[index] is Some
    &&& evaluated_as(olds[index].unwrap(), news[index].unwrap(), input, out)
    &&& forall|j: int| 0 <= j < olds.len() && j != index ==> #[trigger] news[j] == olds[j]
}

/// True when the adjacency lists hold an edge from `a` to `b` of weight `w`.
pub open spec fn has_weighted_edge<W>(adj: Seq<Seq<(usize, W)>>, a: int, b: usize, w: W) -> bool {
    0 <= a < adj.len() && list_has(adj[a], b, w)
}

/// True when the edge list holds the entry `(b, w)`.
pub open spec fn list_has<W>(l: Seq<(usize, W)>, b: usize, w: W) -> bool {
    exists|k: int| 0 <= k < l.len() && l[k] == (b, w)
}

/// No two entries of the edge list name the same target.
pub open spec fn targets_distinct<W>(l: Seq<(usize, W)>) -> bool {
    forall|k1: int, k2: int| 0 <= k1 < l.len() && 0 <= k2 < l.len() && k1 != k2 ==> #[trigger] l[k1].0 != #[trigger] l[k2].0
}

/// Removing one entry of a list without repeated targets drops exactly that target.
pub proof fn lemma_list_remove<W>(l: Seq<(usize, W)>, k: int)
    requires
        0 <= k < l.len(),
        targets_distinct(l),
    ensures
        targets_distinct(l.remove(k)),
        forall|y: usize, w: W| #[trigger] list_has(l.remove(k), y, w) <==> list_has(l, y, w) && y != l[k].0,
        l.remove(k).len() == l.len() - 1,
        forall|j: int| 0 <= j < l.remove(k).len() ==> #[trigger] l.remove(k)[j] == (if j < k { l[j] } else { l[j + 1] }),
{
    let nl = l.remove(k);
    assert(nl.len() == l.len() - 1);
    assert forall|j: int| 0 <= j < nl.len() implies #[trigger] nl[j] == (if j < k { l[j] } else { l[j + 1] }) by {
        assert(nl =~= l.subrange(0, k) + l.subrange(k + 1, l.len() as int));
        if j < k {
            assert(nl[j] == l.subrange(0, k)[j]);
        } else {
            assert(nl[j] == l.subrange(k + 1, l.len() as int)[j - k]);
        }
    }
    assert forall|y: usize, w: W| #[trigger] list_has(nl, y, w) <==> list_has(l, y, w) && y != l[k].0 by {
        if list_has(nl, y, w) {
            let j = choose|j: int| 0 <= j < nl.len() && nl[j] == (y, w);
            if j < k {
                assert(l[j] == (y, w));
                assert(l[j].0 != l[k].0);
            } else {
                assert(l[j + 1] == (y, w));
                assert(l[j + 1].0 != l[k].0);
            }
        }
        if list_has(l, y, w) && y != l[k].0 {
            let j = choose|j: int| 0 <= j < l.len() && l[j] == (y, w);
            if j < k {
                assert(nl[j] == (y, w));
            } else {
                assert(nl[j - 1] == (y, w));
            }
        }
    }
    assert forall|k1: int, k2: int| 0 <= k1 < nl.len() && 0 <= k2 < nl.len() && k1 != k2 implies #[trigger] nl[k1].0 != #[trigger] nl[k2].0 by {
        let o1 = if k1 < k { k1 } else { k1 + 1 };
        let o2 = if k2 < k { k2 } else { k2 + 1 };
        assert(nl[k1] == l[o1]);
        assert(nl[k2] == l[o2]);
    }
}

/// The structural invariant of a graph: one edge list per slot, empty slots have
/// no edges, every edge ends at an existing node, and no list names a target twice.
pub open spec fn graph_wf<N, W>(nodes: Seq<Option<N>>, adj: Seq<Seq<(usize, W)>>, root: Option<usize>) -> bool {
    &&& adj.len() == nodes.len()
    &&& forall|a: int| 0 <= a < adj.len() && nodes[a] is None ==> #[trigger] adj[a].len() == 0
    &&& forall|a: int, k: int|
        0 <= a < adj.len() && 0 <= k < adj[a].len() ==> node_exists(nodes, #[trigger] adj[a][k].0 as int)
    &&& forall|a: int| 0 <= a < adj.len() ==> targets_distinct(#[trigger] adj[a])
    &&& root matches Some(r) ==> node_exists(nodes, r as int)
}

/// Total number of edges held by the adjacency lists.
pub open spec fn total_edges<W>(adj: Seq<Seq<(usize, W)>>) -> int
    decreases adj.len(),
{
    if adj.len() == 0 {
        0
    } else {
        total_edges(adj.drop_last()) + adj.last().len()
    }
}

/// Number of occupied slots.
pub open spec fn count_nodes<N>(nodes: Seq<Option<N>>) -> int
    decreases nodes.len(),
{
    if nodes.len() == 0 {
        0
    } else {
        count_nodes(nodes.drop_last()) + if nodes.last() is Some { 1int } else { 0int }
    }
}

/// The nodes held by the occupied slots, in index order.
pub open spec fn present_nodes<N>(nodes: Seq<Option<N>>) -> Seq<N>
    decreases nodes.len(),
{
    if nodes.len() == 0 {
        Seq::empty()
    } else {
        let rest = present_nodes(nodes.drop_last());
        match nodes.last() {
            Some(n) => rest.push(n),
            None => rest,
        }
    }
}

/// The references point, one for one, at the given values.
pub open spec fn refs_match<N>(r: Seq<&N>, s: Seq<N>) -> bool {
    r.len() == s.len() && forall|i: int| 0 <= i < r.len() ==> *#[trigger] r[i] == s[i]
}

/// A walk along edges: a non-empty sequence of existing nodes where each
/// consecutive pair is joined by an edge.
pub open spec fn is_path<N, W>(nodes: Seq<Option<N>>, adj: Seq<Seq<(usize, W)>>, p: Seq<usize>) -> bool {
    &&& p.len() >= 1
    &&& forall|i: int| 0 <= i < p.len() ==> node_exists(nodes, #[trigger] p[i] as int)
    &&& forall|i: int| 0 <= i < p.len() - 1 ==> has_edge(adj, #[trigger] p[i] as int, p[i + 1] as int)
}

/// True when a walk leads from `a` to `b` (a node reaches itself by the empty walk).
pub open spec fn reachable<N, W>(nodes: Seq<Option<N>>, adj: Seq<Seq<(usize, W)>>, a: int, b: int) -> bool {
    exists|p: Seq<usize>| is_path(nodes, adj, p) && p[0] as int == a && p.last() as int == b
}

/// A closed walk: every node has an edge to the next one, and the last to the first.
/// A self-loop is a cycle of length one.
pub open spec fn is_cycle<N, W>(nodes: Seq<Option<N>>, adj: Seq<Seq<(usize, W)>>, c: Seq<usize>) -> bool {
    &&& is_path(nodes, adj, c)
    &&& has_edge(adj, c.last() as int, c[0] as int)
}

/// A walk from `a` to `b` with no fewer nodes than any other such walk.
pub open spec fn is_shortest_path<N, W>(nodes: Seq<Option<N>>, adj: Seq<Seq<(usize, W)>>, a: int, b: int, p: Seq<usize>) -> bool {
    &&& is_path(nodes, adj, p)
    &&& p[0] as int == a
    &&& p.last() as int == b
    &&& forall|q: Seq<usize>| is_path(nodes, adj, q) && q[0] as int == a && q.last() as int == b ==> p.len() <= #[trigger] q.len()
}

/// True when the least number of edges on a walk from `a` to `v` is `d`.
pub open spec fn at_distance<N, W>(nodes: Seq<Option<N>>, adj: Seq<Seq<(usize, W)>>, a: int, v: int, d: int) -> bool {
    &&& path_within(nodes, adj, a, v, d)
    &&& d >= 1 ==> !path_within(nodes, adj, a, v, d - 1)
}

/// The shortest walk from `a` to `b` chosen by breaking ties towards low
/// indices: each node is preceded by the lowest-indexed node one step closer
/// to `a` that has an edge into it.
pub open spec fn is_canonical_shortest_path<N, W>(nodes: Seq<Option<N>>, adj: Seq<Seq<(usize, W)>>, a: int, b: int, p: Seq<usize>) -> bool {
    &&& is_shortest_path(nodes, adj, a, b, p)
    &&& forall|j: int| 0 <= j < p.len() ==> at_distance(nodes, adj, a, #[trigger] p[j] as int, j)
    &&& forall|j: int, u: int| 1 <= j < p.len() && 0 <= u < p[j - 1] && at_distance(nodes, adj, a, u, j - 1)
        ==> !#[trigger] has_edge(adj, u, p[j] as int)
}

/// True when the graph holds a cycle.
pub open spec fn has_cycle_spec<N, W>(nodes: Seq<Option<N>>, adj: Seq<Seq<(usize, W)>>) -> bool {
    exists|c: Seq<usize>| is_cycle(nodes, adj, c)
}

/// A topological order: every existing node exactly once, no empty slot, and
/// every edge leads from an earlier to a later position.
pub open spec fn is_topological_order<N, W>(
    nodes: Seq<Option<N>>,
    adj: Seq<Seq<(usize, W)>>,
    o: Seq<usize>,
) -> bool {
    &&& o.no_duplicates()
    &&& forall|i: int| 0 <= i < o.len() ==> node_exists(nodes, #[trigger] o[i] as int)
    &&& forall|v: int| node_exists(nodes, v) ==> o.contains(v as usize)
    &&& forall|i: int, j: int|
        0 <= i < o.len() && 0 <= j < o.len() && has_edge(adj, #[trigger] o[i] as int, #[trigger] o[j] as int)
            ==> i < j
}

/// A sequence of distinct indices below `n` has at most `n` entries.
pub proof fn lemma_distinct_bounded(s: Seq<usize>, n: int)
    requires
        n >= 0,
        s.no_duplicates(),
        forall|i: int| 0 <= i < s.len() ==> (#[trigger] s[i] as int) < n,
    ensures
        s.len() <= n,
    decreases n,
{
    if s.len() == 0 {
    } else if n <= 0 {
        assert(s[0] as int >= 0);
        assert((s[0] as int) < n);
    } else if exists|j: int| 0 <= j < s.len() && s[j] as int == n - 1 {
        let j = choose|j: int| 0 <= j < s.len() && s[j] as int == n - 1;
        let s2 = s.remove(j);
        assert(s2.len() == s.len() - 1);
        assert forall|i: int| 0 <= i < s2.len() implies #[trigger] s2[i] == (if i < j { s[i] } else { s[i + 1] }) by {
            assert(s2 =~= s.subrange(0, j) + s.subrange(j + 1, s.len() as int));
            if i < j {
                assert(s2[i] == s.subrange(0, j)[i]);
            } else {
                assert(s2[i] == s.subrange(j + 1, s.len() as int)[i - j]);
            }
        }
        assert forall|a: int, b: int| 0 <= a < s2.len() && 0 <= b < s2.len() && a != b implies s2[a] != s2[b] by {
            let oa = if a < j { a } else { a + 1 };
            let ob = if b < j { b } else { b + 1 };
            assert(s2[a] == s[oa] && s2[b] == s[ob]);
        }
        assert forall|i: int| 0 <= i < s2.len() implies (#[trigger] s2[i] as int) < n - 1 by {
            let oi = if i < j { i } else { i + 1 };
            assert(s2[i] == s[oi]);
            assert(oi != j);
        }
        lemma_distinct_bounded(s2, n - 1);
    } else {
        assert forall|i: int| 0 <= i < s.len() implies (#[trigger] s[i] as int) < n - 1 by {
            assert(s[i] as int != n - 1);
        }
        lemma_distinct_bounded(s, n - 1);
    }
}

/// A graph with a topological order holds no cycle: along a cycle the positions
/// would have to grow strictly and still return to where they started.
pub proof fn lemma_topological_order_acyclic<N, W>(nodes: Seq<Option<N>>, adj: Seq<Seq<(usize, W)>>, o: Seq<usize>)
    requires
        is_topological_order(nodes, adj, o),
    ensures
        !has_cycle_spec(nodes, adj),
{
    if has_cycle_spec(nodes, adj) {
        let c = choose|c: Seq<usize>| is_cycle(nodes, adj, c);
        let pos = |v: usize| choose|j: int| 0 <= j < o.len() && o[j] == v;
        assert forall|i: int| 0 <= i < c.len() implies 0 <= #[trigger] pos(c[i]) < o.len() && o[pos(c[i])] == c[i] by {
            assert(node_exists(nodes, c[i] as int));
            assert(o.contains(c[i]));
        }
        assert forall|i: int| 0 <= i < c.len() implies pos(c[0]) <= #[trigger] pos(c[i]) by {
            lemma_positions_grow(nodes, adj, o, c, pos, i);
        }
        let l = c.len() - 1;
        assert(has_edge(adj, o[pos(c[l])] as int, o[pos(c[0])] as int));
        assert(pos(c[l]) < pos(c[0]));
    }
}

proof fn lemma_positions_grow<N, W>(
    nodes: Seq<Option<N>>,
    adj: Seq<Seq<(usize, W)>>,
    o: Seq<usize>,
    c: Seq<usize>,
    pos: spec_fn(usize) -> int,
    i: int,
)
    requires
        is_topological_order(nodes, adj, o),
        is_path(nodes, adj, c),
        0 <= i < c.len(),
        forall|m: int| 0 <= m < c.len() ==> 0 <= #[trigger] pos(c[m]) < o.len() && o[pos(c[m])] == c[m],
    ensures
        pos(c[0]) <= pos(c[i]),
    decreases i,
{
    if i > 0 {
        lemma_positions_grow(nodes, adj, o, c, pos, i - 1);
        assert(has_edge(adj, c[i - 1] as int, c[i] as int));
        assert(has_edge(adj, o[pos(c[i - 1])] as int, o[pos(c[i])] as int));
    }
}

/// True when a walk of at most `k` edges leads from `a` to `b`.
pub open spec fn path_within<N, W>(nodes: Seq<Option<N>>, adj: Seq<Seq<(usize, W)>>, a: int, b: int, k: int) -> bool {
    exists|p: Seq<usize>| is_path(nodes, adj, p) && p[0] as int == a && p.last() as int == b && p.len() <= k + 1
}

/// The walks of zero edges are the single existing nodes.
pub proof fn lemma_path_within_zero<N, W>(nodes: Seq<Option<N>>, adj: Seq<Seq<(usize, W)>>, a: int, b: int)
    requires
        0 <= a < nodes.len(),
        nodes.len() <= usize::MAX,
    ensures
        path_within(nodes, adj, a, b, 0) <==> (a == b && node_exists(nodes, a)),
{
    if a == b && node_exists(nodes, a) {
        let p = seq![a as usize];
        assert(p[0] == a as usize);
        assert(is_path(nodes, adj, p));
        assert(p.last() == a as usize);
    }
    if path_within(nodes, adj, a, b, 0) {
        let p = choose|p: Seq<usize>| is_path(nodes, adj, p) && p[0] as int == a && p.last() as int == b && p.len() <= 1;
        assert(node_exists(nodes, p[0] as int));
    }
}

/// A walk of at most `k + 1` edges is one of at most `k` edges, or one of at
/// most `k` edges followed by one more edge.
pub proof fn lemma_path_within_step<N, W>(nodes: Seq<Option<N>>, adj: Seq<Seq<(usize, W)>>, a: int, b: int, k: int)
    requires
        k >= 0,
        graph_wf(nodes, adj, None),
    ensures
        path_within(nodes, adj, a, b, k + 1) <==> (path_within(nodes, adj, a, b, k)
            || exists|u: int| path_within(nodes, adj, a, u, k) && #[trigger] has_edge(adj, u, b)),
{
    if path_within(nodes, adj, a, b, k + 1) && !path_within(nodes, adj, a, b, k) {
        let p = choose|p: Seq<usize>| is_path(nodes, adj, p) && p[0] as int == a && p.last() as int == b && p.len() <= k + 2;
        assert(p.len() == k + 2);
        let q = p.drop_last();
        let u = q.last() as int;
        assert(is_path(nodes, adj, q)) by {
            assert forall|i: int| 0 <= i < q.len() implies node_exists(nodes, #[trigger] q[i] as int) by {
                assert(q[i] == p[i]);
            }
            assert forall|i: int| 0 <= i < q.len() - 1 implies has_edge(adj, #[trigger] q[i] as int, q[i + 1] as int) by {
                assert(q[i] == p[i] && q[i + 1] == p[i + 1]);
            }
        }
        assert(path_within(nodes, adj, a, u, k));
        assert(has_edge(adj, p[p.len() - 2] as int, p[p.len() - 1] as int));
        assert(has_edge(adj, u, b));
    }
    if path_within(nodes, adj, a, b, k) {
        let p = choose|p: Seq<usize>| is_path(nodes, adj, p) && p[0] as int == a && p.last() as int == b && p.len() <= k + 1;
        assert(is_path(nodes, adj, p) && p[0] as int == a && p.last() as int == b && p.len() <= (k + 1) + 1);
    }
    if exists|u: int| path_within(nodes, adj, a, u, k) && #[trigger] has_edge(adj, u, b) {
        let u = choose|u: int| path_within(nodes, adj, a, u, k) && #[trigger] has_edge(adj, u, b);
        let p = choose|p: Seq<usize>| is_path(nodes, adj, p) && p[0] as int == a && p.last() as int == u && p.len() <= k + 1;
        let j = choose|j: int| 0 <= j < adj[u].len() && adj[u][j].0 as int == b;
        assert(node_exists(nodes, adj[u][j].0 as int));
        let q = p.push(adj[u][j].0);
        assert(is_path(nodes, adj, q)) by {
            assert forall|i: int| 0 <= i < q.len() implies node_exists(nodes, #[trigger] q[i] as int) by {
                if i < p.len() {
                    assert(q[i] == p[i]);
                }
            }
            assert forall|i: int| 0 <= i < q.len() - 1 implies has_edge(adj, #[trigger] q[i] as int, q[i + 1] as int) by {
                if i < p.len() - 1 {
                    assert(q[i] == p[i] && q[i + 1] == p[i + 1]);
                } else {
                    assert(q[i] == p[p.len() - 1]);
                }
            }
        }
        assert(q[0] == p[0]);
        assert(q.last() as int == b);
        assert(is_path(nodes, adj, q) && q[0] as int == a && q.last() as int == b && q.len() <= (k + 1) + 1);
    }
}

/// Walks within a bound are walks within any larger bound.
pub proof fn lemma_path_within_mono<N, W>(nodes: Seq<Option<N>>, adj: Seq<Seq<(usize, W)>>, a: int, b: int, k: int, m: int)
    requires
        k <= m,
        path_within(nodes, adj, a, b, k),
    ensures
        path_within(nodes, adj, a, b, m),
{
    let p = choose|p: Seq<usize>| is_path(nodes, adj, p) && p[0] as int == a && p.last() as int == b && p.len() <= k + 1;
}

/// If allowing `k` edges reaches nothing new over `k - 1` edges, no larger bound
/// reaches anything new either.
pub proof fn lemma_path_within_stable<N, W>(nodes: Seq<Option<N>>, adj: Seq<Seq<(usize, W)>>, a: int, k: int, m: int)
    requires
        k >= 1,
        m >= k,
        graph_wf(nodes, adj, None),
        forall|v: int| #[trigger] path_within(nodes, adj, a, v, k) ==> path_within(nodes, adj, a, v, k - 1),
    ensures
        forall|v: int| #[trigger] path_within(nodes, adj, a, v, m) ==> path_within(nodes, adj, a, v, k - 1),
    decreases m - k,
{
    if m > k {
        lemma_path_within_stable(nodes, adj, a, k, m - 1);
        assert forall|v: int| #[trigger] path_within(nodes, adj, a, v, m) implies path_within(nodes, adj, a, v, k - 1) by {
            lemma_path_within_step(nodes, adj, a, v, m - 1);
            if !path_within(nodes, adj, a, v, m - 1) {
                let u = choose|u: int| path_within(nodes, adj, a, u, m - 1) && #[trigger] has_edge(adj, u, v);
                assert(path_within(nodes, adj, a, u, k - 1));
                lemma_path_within_step(nodes, adj, a, v, k - 1);
                assert(path_within(nodes, adj, a, v, k));
            }
        }
    }
}

/// A reachable node is reached within some bound.
pub proof fn lemma_reachable_within<N, W>(nodes: Seq<Option<N>>, adj: Seq<Seq<(usize, W)>>, a: int, b: int)
    requires
        reachable(nodes, adj, a, b),
    ensures
        exists|k: int| k >= 0 && #[trigger] path_within(nodes, adj, a, b, k),
{
    let p = choose|p: Seq<usize>| is_path(nodes, adj, p) && p[0] as int == a && p.last() as int == b;
    assert(path_within(nodes, adj, a, b, p.len() - 1));
}

/// A shortest walk visits no node twice: cutting out the part between two
/// visits would give a shorter walk.
pub proof fn lemma_shortest_path_distinct<N, W>(nodes: Seq<Option<N>>, adj: Seq<Seq<(usize, W)>>, a: int, b: int, p: Seq<usize>)
    requires
        is_shortest_path(nodes, adj, a, b, p),
    ensures
        p.no_duplicates(),
{
    assert forall|i: int, j: int| 0 <= i < p.len() && 0 <= j < p.len() && i != j implies p[i] != p[j] by {
        if p[i] == p[j] {
            let (x, y) = if i < j { (i, j) } else { (j, i) };
            let q = p.subrange(0, x) + p.subrange(y, p.len() as int);
            assert(q.len() == p.len() - (y - x));
            assert forall|m: int| 0 <= m < q.len() implies #[trigger] q[m] == (if m < x { p[m] } else { p[m + (y - x)] }) by {
                if m < x {
                    assert(q[m] == p.subrange(0, x)[m]);
                } else {
                    assert(q[m] == p.subrange(y, p.len() as int)[m - x]);
                }
            }
            assert(is_path(nodes, adj, q)) by {
                assert forall|m: int| 0 <= m < q.len() implies node_exists(nodes, #[trigger] q[m] as int) by {
                    if m >= x {
                        assert(q[m] == p[m + (y - x)]);
                    }
                }
                assert forall|m: int| 0 <= m < q.len() - 1 implies has_edge(adj, #[trigger] q[m] as int, q[m + 1] as int) by {
                    if m + 1 < x {
                        assert(q[m] == p[m] && q[m + 1] == p[m + 1]);
                    } else if m + 1 == x {
                        assert(q[m] == p[m] && q[m + 1] == p[y]);
                        assert(p[x] == p[y]);
                        assert(has_edge(adj, p[m] as int, p[m + 1] as int));
                    } else {
                        assert(q[m] == p[m + (y - x)] && q[m + 1] == p[m + 1 + (y - x)]);
                        assert(has_edge(adj, p[m + (y - x)] as int, p[m + (y - x) + 1] as int));
                    }
                }
            }
            if x == 0 {
                assert(q[0] == p[y]);
                assert(p[0] == p[y]);
            } else {
                assert(q[0] == p[0]);
            }
            assert(q.last() == p.last()) by {
                assert(q[q.len() - 1] == p[q.len() - 1 + (y - x)]);
            }
            assert(p.len() <= q.len());
        }
    }
}

/// The selected indices are distinct, each below `n` and selected, and every
/// selected index below `n` is among them.
pub proof fn lemma_selected(sel: Seq<bool>, n: int)
    requires
        0 <= n <= sel.len(),
        n <= usize::MAX + 1,
    ensures
        selected(sel, n).no_duplicates(),
        forall|k: int| 0 <= k < selected(sel, n).len() ==> (#[trigger] selected(sel, n)[k] as int) < n && sel[selected(sel, n)[k] as int],
        forall|j: int| 0 <= j < n && sel[j] ==> selected(sel, n).contains(j as usize),
    decreases n,
{
    if n > 0 {
        lemma_selected(sel, n - 1);
        let prev = selected(sel, n - 1);
        if sel[n - 1] {
            let cur = prev.push((n - 1) as usize);
            assert forall|j: int| 0 <= j < n && sel[j] implies cur.contains(j as usize) by {
                if j < n - 1 {
                    let k = choose|k: int| 0 <= k < prev.len() && prev[k] == j as usize;
                    assert(cur[k] == j as usize);
                } else {
                    assert(cur[cur.len() - 1] == j as usize);
                }
            }
            assert forall|a: int, b: int| 0 <= a < cur.len() && 0 <= b < cur.len() && a != b implies cur[a] != cur[b] by {
                if a < prev.len() && b < prev.len() {
                    assert(cur[a] == prev[a] && cur[b] == prev[b]);
                } else if a < prev.len() {
                    assert(cur[a] == prev[a]);
                    assert((prev[a] as int) < n - 1);
                } else if b < prev.len() {
                    assert(cur[b] == prev[b]);
                    assert((prev[b] as int) < n - 1);
                }
            }
            assert forall|k: int| 0 <= k < cur.len() implies (#[trigger] cur[k] as int) < n && sel[cur[k] as int] by {
                if k < prev.len() {
                    assert(cur[k] == prev[k]);
                }
            }
        }
    }
}

/// The slot indices `i < n` with `sel[i]`, in increasing order.
pub open spec fn selected(sel: Seq<bool>, n: int) -> Seq<usize>
    decreases n,
{
    if n <= 0 {
        Seq::empty()
    } else if sel[n - 1] {
        selected(sel, n - 1).push((n - 1) as usize)
    } else {
        selected(sel, n - 1)
    }
}

/// Every node reaches itself, by the walk of no edges.
pub proof fn lemma_reachable_reflexive<N, W>(nodes: Seq<Option<N>>, adj: Seq<Seq<(usize, W)>>, x: int)
    requires
        node_exists(nodes, x),
        nodes.len() <= usize::MAX,
    ensures
        reachable(nodes, adj, x, x),
{
    let p = seq![x as usize];
    assert(is_path(nodes, adj, p) && p[0] as int == x && p.last() as int == x);
}

/// An index that holds no node reaches nothing and is reached by nothing.
pub proof fn lemma_reachable_needs_nodes<N, W>(nodes: Seq<Option<N>>, adj: Seq<Seq<(usize, W)>>, a: int, b: int)
    requires
        !node_exists(nodes, a) || !node_exists(nodes, b),
    ensures
        !reachable(nodes, adj, a, b),
{
    if reachable(nodes, adj, a, b) {
        let p = choose|p: Seq<usize>| is_path(nodes, adj, p) && p[0] as int == a && p.last() as int == b;
        assert(node_exists(nodes, p[0] as int));
        assert(node_exists(nodes, p[p.len() - 1] as int));
    }
}

/// A graph has a topological order exactly when it has no cycle.
pub proof fn lemma_topological_order_iff_acyclic<N, W>(nodes: Seq<Option<N>>, adj: Seq<Seq<(usize, W)>>)
    requires
        graph_wf(nodes, adj, None),
        nodes.len() <= usize::MAX,
    ensures
        (exists|o: Seq<usize>| is_topological_order(nodes, adj, o)) <==> !has_cycle_spec(nodes, adj),
{
    if exists|o: Seq<usize>| is_topological_order(nodes, adj, o) {
        let o = choose|o: Seq<usize>| is_topological_order(nodes, adj, o);
        lemma_topological_order_acyclic(nodes, adj, o);
    }
    if !has_cycle_spec(nodes, adj) {
        lemma_acyclic_has_topological_order(nodes, adj);
    }
}

/// Emptying an occupied slot leaves one node fewer.
proof fn lemma_count_nodes_remove<N>(nodes: Seq<Option<N>>, v: int)
    requires
        node_exists(nodes, v),
    ensures
        count_nodes(nodes.update(v, None)) == count_nodes(nodes) - 1,
    decreases nodes.len(),
{
    let u = nodes.update(v, None);
    if v == nodes.len() - 1 {
        assert(u.drop_last() =~= nodes.drop_last());
    } else {
        lemma_count_nodes_remove(nodes.drop_last(), v);
        assert(u.drop_last() =~= nodes.drop_last().update(v, None));
    }
}

/// A graph with no occupied slot has no node.
proof fn lemma_count_nodes_zero<N>(nodes: Seq<Option<N>>)
    ensures
        count_nodes(nodes) >= 0,
        count_nodes(nodes) == 0 ==> forall|i: int| !node_exists(nodes, i),
    decreases nodes.len(),
{
    if nodes.len() > 0 {
        lemma_count_nodes_zero(nodes.drop_last());
        if count_nodes(nodes) == 0 {
            assert(nodes.last() is None);
            assert forall|i: int| !node_exists(nodes, i) by {
                if 0 <= i < nodes.len() - 1 {
                    assert(nodes[i] == nodes.drop_last()[i]);
                    assert(!node_exists(nodes.drop_last(), i));
                }
            }
        }
    }
}

/// The node `k` steps back from `v` along chosen predecessors.
spec fn back_walk<N, W>(nodes: Seq<Option<N>>, adj: Seq<Seq<(usize, W)>>, v: int, k: nat) -> int
    decreases k,
{
    if k == 0 {
        v
    } else {
        let w = back_walk(nodes, adj, v, (k - 1) as nat);
        choose|u: int| node_exists(nodes, u) && has_edge(adj, u, w)
    }
}

/// An acyclic graph with a node has a node that no edge enters.
proof fn lemma_source_exists<N, W>(nodes: Seq<Option<N>>, adj: Seq<Seq<(usize, W)>>, v0: int)
    requires
        graph_wf(nodes, adj, None),
        nodes.len() <= usize::MAX,
        node_exists(nodes, v0),
        !has_cycle_spec(nodes, adj),
    ensures
        exists|v: int| node_exists(nodes, v) && forall|u: int| !#[trigger] has_edge(adj, u, v),
{
    if !exists|v: int| node_exists(nodes, v) && forall|u: int| !#[trigger] has_edge(adj, u, v) {
        let n = nodes.len() as int;
        assert forall|k: nat| node_exists(nodes, #[trigger] back_walk(nodes, adj, v0, k)) by {
            lemma_back_walk(nodes, adj, v0, k);
        }
        let s = Seq::new((n + 1) as nat, |k: int| back_walk(nodes, adj, v0, k as nat) as usize);
        assert forall|i: int| 0 <= i < s.len() implies (#[trigger] s[i] as int) < n by {
            assert(node_exists(nodes, back_walk(nodes, adj, v0, i as nat)));
        }
        if s.no_duplicates() {
            lemma_distinct_bounded(s, n);
        }
        let (i, j) = choose|i: int, j: int| 0 <= i < s.len() && 0 <= j < s.len() && i != j && s[i] == s[j];
        let (a, b) = if i < j { (i, j) } else { (j, i) };
        assert(s[a] == s[b]);
        let c = Seq::new((b - a) as nat, |t: int| back_walk(nodes, adj, v0, (b - t) as nat) as usize);
        assert forall|t: int| 0 <= t < c.len() implies node_exists(nodes, #[trigger] c[t] as int) by {
            assert(node_exists(nodes, back_walk(nodes, adj, v0, (b - t) as nat)));
        }
        assert forall|t: int| 0 <= t < c.len() - 1 implies has_edge(adj, #[trigger] c[t] as int, c[t + 1] as int) by {
            lemma_back_walk(nodes, adj, v0, (b - t) as nat);
        }
        lemma_back_walk(nodes, adj, v0, (a + 1) as nat);
        assert(back_walk(nodes, adj, v0, a as nat) == back_walk(nodes, adj, v0, b as nat));
        assert(is_cycle(nodes, adj, c));
    }
}

/// Every step back along chosen predecessors lands on a node with an edge to
/// the previous one.
proof fn lemma_back_walk<N, W>(nodes: Seq<Option<N>>, adj: Seq<Seq<(usize, W)>>, v0: int, k: nat)
    requires
        graph_wf(nodes, adj, None),
        node_exists(nodes, v0),
        !exists|v: int| node_exists(nodes, v) && forall|u: int| !#[trigger] has_edge(adj, u, v),
    ensures
        node_exists(nodes, back_walk(nodes, adj, v0, k)),
        k > 0 ==> has_edge(adj, back_walk(nodes, adj, v0, k), back_walk(nodes, adj, v0, (k - 1) as nat)),
    decreases k,
{
    if k > 0 {
        lemma_back_walk(nodes, adj, v0, (k - 1) as nat);
        let w = back_walk(nodes, adj, v0, (k - 1) as nat);
        let u = choose|u: int| #[trigger] has_edge(adj, u, w);
        let kk = choose|kk: int| 0 <= kk < adj[u].len() && adj[u][kk].0 as int == w;
        assert(node_exists(nodes, u)) by {
            if !node_exists(nodes, u) {
                assert(adj[u].len() == 0);
            }
        }
        assert(node_exists(nodes, u) && has_edge(adj, u, w));
    }
}

/// An acyclic graph has a topological order: take a node no edge enters,
/// order the rest, and put that node first.
proof fn lemma_acyclic_has_topological_order<N, W>(nodes: Seq<Option<N>>, adj: Seq<Seq<(usize, W)>>)
    requires
        graph_wf(nodes, adj, None),
        nodes.len() <= usize::MAX,
        !has_cycle_spec(nodes, adj),
    ensures
        exists|o: Seq<usize>| is_topological_order(nodes, adj, o),
    decreases count_nodes(nodes),
{
    lemma_count_nodes_zero(nodes);
    if count_nodes(nodes) == 0 {
        let o = Seq::<usize>::empty();
        assert(is_topological_order(nodes, adj, o));
    } else {
        let v0 = choose|i: int| node_exists(nodes, i);
        assert(exists|i: int| node_exists(nodes, i)) by {
            if !exists|i: int| node_exists(nodes, i) {
                assert(forall|i: int| !node_exists(nodes, i));
                lemma_count_nodes_all_empty(nodes);
            }
        }
        lemma_source_exists(nodes, adj, v0);
        let v = choose|v: int| node_exists(nodes, v) && forall|u: int| !#[trigger] has_edge(adj, u, v);
        let nodes2 = nodes.update(v, None);
        let adj2 = adj.update(v, Seq::empty());
        assert forall|x: int, y: int| #[trigger] has_edge(adj2, x, y) implies has_edge(adj, x, y) && x != v by {
            let k = choose|k: int| 0 <= k < adj2[x].len() && adj2[x][k].0 as int == y;
            assert(adj2[x] == adj[x]);
        }
        assert forall|x: int, y: int| x != v && #[trigger] has_edge(adj, x, y) implies has_edge(adj2, x, y) by {
            let k = choose|k: int| 0 <= k < adj[x].len() && adj[x][k].0 as int == y;
            assert(adj2[x] == adj[x]);
        }
        assert(graph_wf(nodes2, adj2, None)) by {
            assert forall|a: int, k: int| 0 <= a < adj2.len() && 0 <= k < adj2[a].len()
                implies node_exists(nodes2, #[trigger] adj2[a][k].0 as int) by {
                assert(adj2[a] == adj[a]);
                assert(has_edge(adj, a, adj[a][k].0 as int));
            }
            assert forall|a: int| 0 <= a < adj2.len() && nodes2[a] is None implies #[trigger] adj2[a].len() == 0 by {
                if a != v {
                    assert(adj2[a] == adj[a]);
                }
            }
            assert forall|a: int| 0 <= a < adj2.len() implies targets_distinct(#[trigger] adj2[a]) by {
                if a != v {
                    assert(adj2[a] == adj[a]);
                }
            }
        }
        assert(!has_cycle_spec(nodes2, adj2)) by {
            if has_cycle_spec(nodes2, adj2) {
                let c = choose|c: Seq<usize>| is_cycle(nodes2, adj2, c);
                assert(is_cycle(nodes, adj, c)) by {
                    assert forall|i: int| 0 <= i < c.len() implies node_exists(nodes, #[trigger] c[i] as int) by {
                        assert(node_exists(nodes2, c[i] as int));
                    }
                    assert forall|i: int| 0 <= i < c.len() - 1 implies has_edge(adj, #[trigger] c[i] as int, c[i + 1] as int) by {
                        assert(has_edge(adj2, c[i] as int, c[i + 1] as int));
                    }
                    assert(has_edge(adj2, c.last() as int, c[0] as int));
                }
            }
        }
        lemma_count_nodes_remove(nodes, v);
        lemma_acyclic_has_topological_order(nodes2, adj2);
        let o2 = choose|o: Seq<usize>| is_topological_order(nodes2, adj2, o);
        let o = seq![v as usize] + o2;
        assert forall|i: int| 0 <= i < o2.len() implies #[trigger] o[i + 1] == o2[i] && o2[i] as int != v by {
            assert(node_exists(nodes2, o2[i] as int));
        }
        assert(o[0] as int == v);
        assert(o.no_duplicates()) by {
            assert forall|i: int, j: int| 0 <= i < o.len() && 0 <= j < o.len() && i != j implies o[i] != o[j] by {
                if i > 0 && j > 0 {
                    assert(o[i] == o2[i - 1] && o[j] == o2[j - 1]);
                } else if i > 0 {
                    assert(o[i] == o2[i - 1]);
                } else if j > 0 {
                    assert(o[j] == o2[j - 1]);
                }
            }
        }
        assert forall|i: int| 0 <= i < o.len() implies node_exists(nodes, #[trigger] o[i] as int) by {
            if i > 0 {
                assert(o[i] == o2[i - 1]);
                assert(node_exists(nodes2, o2[i - 1] as int));
            }
        }
        assert forall|x: int| node_exists(nodes, x) implies o.contains(x as usize) by {
            if x == v {
                assert(o[0] == x as usize);
            } else {
                assert(node_exists(nodes2, x));
                assert(o2.contains(x as usize));
                let i = choose|i: int| 0 <= i < o2.len() && o2[i] == x as usize;
                assert(o[i + 1] == x as usize);
            }
        }
        assert forall|i: int, j: int|
            0 <= i < o.len() && 0 <= j < o.len() && has_edge(adj, #[trigger] o[i] as int, #[trigger] o[j] as int)
                implies i < j by {
            if j == 0 {
                assert(!has_edge(adj, o[i] as int, v));
            } else if i > 0 {
                assert(o[i] == o2[i - 1] && o[j] == o2[j - 1]);
                assert(has_edge(adj2, o2[i - 1] as int, o2[j - 1] as int));
            }
        }
        assert(is_topological_order(nodes, adj, o));
    }
}

/// No occupied slot means no node is counted.
proof fn lemma_count_nodes_all_empty<N>(nodes: Seq<Option<N>>)
    requires
        forall|i: int| !node_exists(nodes, i),
    ensures
        count_nodes(nodes) == 0,
    decreases nodes.len(),
{
    if nodes.len() > 0 {
        assert forall|i: int| !node_exists(nodes.drop_last(), i) by {
            if 0 <= i < nodes.len() - 1 {
                assert(nodes.drop_last()[i] == nodes[i]);
                assert(!node_exists(nodes, i));
            }
        }
        lemma_count_nodes_all_empty(nodes.drop_last());
        assert(!node_exists(nodes, nodes.len() - 1));
    }
}

/// There is only one canonical shortest walk between two nodes.
pub proof fn lemma_canonical_shortest_path_unique<N, W>(
    nodes: Seq<Option<N>>,
    adj: Seq<Seq<(usize, W)>>,
    a: int,
    b: int,
    p: Seq<usize>,
    q: Seq<usize>,
)
    requires
        is_canonical_shortest_path(nodes, adj, a, b, p),
        is_canonical_shortest_path(nodes, adj, a, b, q),
    ensures
        p == q,
{
    assert(p.len() <= q.len() && q.len() <= p.len());
    let l = p.len() as int;
    assert forall|k: int| 0 <= k < l implies #[trigger] p[l - 1 - k] == q[l - 1 - k] by {
        lemma_canonical_agree_from_end(nodes, adj, a, b, p, q, k);
    }
    assert forall|i: int| 0 <= i < l implies p[i] == q[i] by {
        assert(p[l - 1 - (l - 1 - i)] == q[l - 1 - (l - 1 - i)]);
    }
    assert(p =~= q);
}

proof fn lemma_canonical_agree_from_end<N, W>(
    nodes: Seq<Option<N>>,
    adj: Seq<Seq<(usize, W)>>,
    a: int,
    b: int,
    p: Seq<usize>,
    q: Seq<usize>,
    k: int,
)
    requires
        is_canonical_shortest_path(nodes, adj, a, b, p),
        is_canonical_shortest_path(nodes, adj, a, b, q),
        p.len() == q.len(),
        0 <= k < p.len(),
    ensures
        p[p.len() - 1 - k] == q[p.len() - 1 - k],
    decreases k,
{
    let l = p.len() as int;
    if k > 0 {
        lemma_canonical_agree_from_end(nodes, adj, a, b, p, q, k - 1);
        let j = l - k;
        assert(p[j] == q[j]);
        let x = p[j - 1] as int;
        let y = q[j - 1] as int;
        assert(has_edge(adj, p[j - 1] as int, p[j] as int));
        assert(has_edge(adj, q[j - 1] as int, q[j] as int));
        assert(at_distance(nodes, adj, a, p[j - 1] as int, j - 1));
        assert(at_distance(nodes, adj, a, q[j - 1] as int, j - 1));
        if x < y {
            assert(!has_edge(adj, x, q[j] as int));
        } else if y < x {
            assert(!has_edge(adj, y, p[j] as int));
        }
    }
}

} // verus!
