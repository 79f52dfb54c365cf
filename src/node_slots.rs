//! Queries over a node arena of slots, shared by both graph representations.
use vstd::prelude::*;
use crate::graph_spec::{count_nodes, node_exists, present_nodes, refs_match};

verus! {

/// Number of occupied slots.
pub fn count_present<N>(nodes: &Vec<Option<N>>) -> (r: usize)
    ensures
        r as int == count_nodes(nodes@),
{
    let mut count: usize = 0;
    let mut i: usize = 0;
    while i < nodes.len()
        invariant
            i <= nodes@.len(),
            count as int == count_nodes(nodes@.take(i as int)),
            count <= i,
        decreases nodes@.len() - i,
    {
        assert(nodes@.take(i + 1).drop_last() =~= nodes@.take(i as int));
        if nodes[i].is_some() {
            count = count + 1;
        }
        i = i + 1;
    }
    assert(nodes@.take(i as int) =~= nodes@);
    count
}

/// References to the nodes of the occupied slots, in index order.
pub fn present_refs<N>(nodes: &Vec<Option<N>>) -> (r: Vec<&N>)
    ensures
        refs_match(r@, present_nodes(nodes@)),
{
    let mut out: Vec<&N> = Vec::new();
    let mut i: usize = 0;
    while i < nodes.len()
        invariant
            i <= nodes@.len(),
            refs_match(out@, present_nodes(nodes@.take(i as int))),
        decreases nodes@.len() - i,
    {
        assert(nodes@.take(i + 1).drop_last() =~= nodes@.take(i as int));
        match &nodes[i] {
            Some(n) => out.push(n),
            None => {},
        }
        i = i + 1;
    }
    assert(nodes@.take(i as int) =~= nodes@);
    out
}

/// The highest occupied slot, if any.
pub fn last_present<N>(nodes: &Vec<Option<N>>) -> (r: Option<usize>)
    ensures
        r is None <==> forall|i: int| !node_exists(nodes@, i),
        r matches Some(i) ==> node_exists(nodes@, i as int) && forall|j: int| i < j ==> !node_exists(nodes@, j),
{
    let mut i: usize = nodes.len();
    while i > 0
        invariant
            i <= nodes@.len(),
            forall|j: int| i <= j ==> !node_exists(nodes@, j),
        decreases i,
    {
        if nodes[i - 1].is_some() {
            assert(node_exists(nodes@, i - 1));
            return Some(i - 1);
        }
        i = i - 1;
    }
    None
}

} // verus!
