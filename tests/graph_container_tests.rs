use deep_causality::{GraphError, GraphView, UltraGraphContainer};

fn snapshot(g: &UltraGraphContainer<&'static str, u64>, slots: usize) -> Vec<(Option<&'static str>, Option<Vec<(usize, u64)>>)> {
    (0..slots).map(|i| (g.get_node(i).copied(), g.get_edges(i))).collect()
}

fn weighted_graph() -> UltraGraphContainer<&'static str, u64> {
    let mut g = UltraGraphContainer::new();
    let r = g.add_root_node("root").unwrap();
    let a = g.add_node("a").unwrap();
    let b = g.add_node("b").unwrap();
    let c = g.add_node("c").unwrap();
    g.add_edge(r, a, 3).unwrap();
    g.add_edge(r, b, 5).unwrap();
    g.add_edge(a, c, 7).unwrap();
    g.add_edge(b, c, 11).unwrap();
    g.add_edge(c, c, 13).unwrap();
    g
}

#[test]
fn test_freeze_unfreeze_round_trip() {
    let mut g = weighted_graph();
    g.remove_node(1).unwrap();
    let before = snapshot(&g, 5);
    let root = g.get_root_index();
    let edges = g.number_edges();

    g.freeze();
    assert!(g.is_frozen());
    assert_eq!(snapshot(&g, 5), before);
    assert_eq!(g.get_root_index(), root);
    assert_eq!(g.number_edges(), edges);

    g.unfreeze();
    assert!(!g.is_frozen());
    assert_eq!(snapshot(&g, 5), before);
    assert_eq!(g.get_root_index(), root);
    assert_eq!(g.number_edges(), edges);

    // A new node gets the next index: the removed one is not reused.
    assert_eq!(g.add_node("d").unwrap(), 4);
}

#[test]
fn test_algorithms_fail_on_dynamic_graph() {
    let g = weighted_graph();
    assert!(matches!(g.find_cycle(), Err(GraphError::GraphNotFrozen)));
    assert!(matches!(g.has_cycle(), Err(GraphError::GraphNotFrozen)));
    assert!(matches!(g.topological_sort(), Err(GraphError::GraphNotFrozen)));
    assert!(matches!(g.is_reachable(0, 3), Err(GraphError::GraphNotFrozen)));
    assert!(matches!(g.shortest_path_len(0, 3), Err(GraphError::GraphNotFrozen)));
    assert!(matches!(g.shortest_path(0, 3), Err(GraphError::GraphNotFrozen)));
}

#[test]
fn test_mutation_fails_on_frozen_graph() {
    let mut g = weighted_graph();
    g.freeze();
    assert_eq!(g.add_node("x"), Err(GraphError::GraphIsFrozen));
    assert_eq!(g.add_root_node("x"), Err(GraphError::GraphIsFrozen));
    assert_eq!(g.add_edge(0, 3, 1), Err(GraphError::GraphIsFrozen));
    assert_eq!(g.remove_edge(0, 1), Err(GraphError::GraphIsFrozen));
    assert_eq!(g.remove_node(0), Err(GraphError::GraphIsFrozen));
    assert_eq!(g.clear(), Err(GraphError::GraphIsFrozen));
    assert_eq!(g.number_nodes(), 4);
}

#[test]
fn test_self_loop_is_a_cycle() {
    let mut g = UltraGraphContainer::new();
    g.add_node(1).unwrap();
    g.add_edge(0, 0, ()).unwrap();
    g.freeze();
    assert_eq!(g.find_cycle().unwrap(), Some(vec![0]));
    assert!(g.has_cycle().unwrap());
    assert_eq!(g.topological_sort().unwrap(), None);
}

#[test]
fn test_cycle_and_topological_sort_agree() {
    let mut cyclic = weighted_graph();
    cyclic.freeze();
    assert!(cyclic.has_cycle().unwrap());
    assert!(cyclic.topological_sort().unwrap().is_none());
    let cycle = cyclic.find_cycle().unwrap().unwrap();
    for w in cycle.windows(2) {
        assert!(cyclic.contains_edge(w[0], w[1]));
    }
    assert!(cyclic.contains_edge(cycle[cycle.len() - 1], cycle[0]));

    let mut acyclic = weighted_graph();
    acyclic.remove_edge(3, 3).unwrap();
    acyclic.freeze();
    assert!(!acyclic.has_cycle().unwrap());
    let order = acyclic.topological_sort().unwrap().unwrap();
    assert_eq!(order, vec![0, 1, 2, 3]);

    let mut empty: UltraGraphContainer<u8, ()> = UltraGraphContainer::new();
    empty.freeze();
    assert!(!empty.has_cycle().unwrap());
    assert_eq!(empty.topological_sort().unwrap(), Some(vec![]));
}

#[test]
fn test_topological_sort_skips_removed_nodes() {
    let mut g = UltraGraphContainer::new();
    for i in 0..4 {
        g.add_node(i).unwrap();
    }
    g.add_edge(3, 0, ()).unwrap();
    g.add_edge(0, 2, ()).unwrap();
    g.remove_node(1).unwrap();
    g.freeze();
    assert_eq!(g.topological_sort().unwrap(), Some(vec![3, 0, 2]));
}

#[test]
fn test_reachability_edge_cases() {
    let mut g = UltraGraphContainer::new();
    g.add_node(0).unwrap();
    g.add_node(1).unwrap();
    g.add_edge(1, 1, ()).unwrap();
    g.freeze();
    assert!(g.is_reachable(0, 0).unwrap());
    assert!(g.is_reachable(1, 1).unwrap());
    assert!(!g.is_reachable(0, 1).unwrap());
    assert_eq!(g.is_reachable(5, 5), Ok(false));
    assert_eq!(g.shortest_path(0, 0).unwrap(), Some(vec![0]));
    assert_eq!(g.shortest_path_len(0, 0).unwrap(), Some(0));
    assert_eq!(g.shortest_path(7, 0).unwrap(), None);
}

#[test]
fn test_shortest_path_takes_fewest_edges() {
    // 0 -> 1 -> 2 -> 3 -> 4 and 0 -> 5 -> 4
    let mut g = UltraGraphContainer::new();
    for i in 0..6 {
        g.add_node(i).unwrap();
    }
    g.add_edge(0, 1, ()).unwrap();
    g.add_edge(1, 2, ()).unwrap();
    g.add_edge(2, 3, ()).unwrap();
    g.add_edge(3, 4, ()).unwrap();
    g.add_edge(0, 5, ()).unwrap();
    g.add_edge(5, 4, ()).unwrap();
    g.freeze();
    assert_eq!(g.shortest_path(0, 4).unwrap(), Some(vec![0, 5, 4]));
    assert_eq!(g.shortest_path_len(0, 4).unwrap(), Some(2));
    assert_eq!(g.shortest_path(1, 4).unwrap(), Some(vec![1, 2, 3, 4]));
}

#[test]
fn test_edge_errors() {
    let mut g = weighted_graph();
    assert_eq!(g.add_edge(9, 0, 1), Err(GraphError::NodeNotFound(9)));
    assert_eq!(g.add_edge(0, 9, 1), Err(GraphError::NodeNotFound(9)));
    assert_eq!(g.add_edge(0, 1, 1), Err(GraphError::EdgeAlreadyExists(0, 1)));
    assert_eq!(g.remove_edge(1, 0), Err(GraphError::EdgeNotFound(1, 0)));
    assert_eq!(g.remove_edge(8, 0), Err(GraphError::NodeNotFound(8)));
    assert_eq!(g.remove_node(8), Err(GraphError::NodeNotFound(8)));
    assert_eq!(g.number_edges(), 5);
    g.remove_edge(0, 1).unwrap();
    assert!(!g.contains_edge(0, 1));
    assert_eq!(g.number_edges(), 4);
}

#[test]
fn test_remove_node_drops_its_edges() {
    let mut g = weighted_graph();
    g.remove_node(3).unwrap();
    assert!(!g.contains_node(3));
    assert_eq!(g.get_node(3), None);
    assert_eq!(g.number_nodes(), 3);
    assert_eq!(g.number_edges(), 2);
    assert!(!g.contains_edge(1, 3));
    assert_eq!(g.get_edges(1), Some(vec![]));
    assert_eq!(g.get_last_index(), Some(2));
}

#[test]
fn test_root_node() {
    let mut g = weighted_graph();
    assert!(g.contains_root_node());
    assert_eq!(g.get_root_index(), Some(0));
    assert_eq!(g.get_root_node(), Some(&"root"));
    assert_eq!(g.add_root_node("again"), Err(GraphError::RootNodeAlreadyExists));
    g.remove_node(0).unwrap();
    assert!(!g.contains_root_node());
    assert_eq!(g.get_root_node(), None);
}

#[test]
fn test_queries_and_clear() {
    let mut g = weighted_graph();
    assert!(!g.is_empty());
    assert_eq!(g.get_all_nodes(), vec![&"root", &"a", &"b", &"c"]);
    assert_eq!(g.get_edges(0), Some(vec![(1, 3), (2, 5)]));
    assert_eq!(g.get_edges(9), None);
    g.clear().unwrap();
    assert!(g.is_empty());
    assert_eq!(g.get_last_index(), None);
    assert_eq!(g.number_edges(), 0);
    assert_eq!(g.get_root_index(), None);
}

#[test]
fn test_shortest_path_tie_break_is_lowest_index() {
    // Two shortest walks 0 -> 2 -> 3 and 0 -> 1 -> 3; the edge to 2 was added first.
    let mut g = UltraGraphContainer::new();
    for i in 0..4 {
        g.add_node(i).unwrap();
    }
    g.add_edge(0, 2, ()).unwrap();
    g.add_edge(0, 1, ()).unwrap();
    g.add_edge(2, 3, ()).unwrap();
    g.add_edge(1, 3, ()).unwrap();
    g.freeze();
    assert_eq!(g.shortest_path(0, 3).unwrap(), Some(vec![0, 1, 3]));
    assert_eq!(g.shortest_path_len(0, 3).unwrap(), Some(2));
}

#[test]
fn test_clone_keeps_graph() {
    let g = weighted_graph();
    let mut c = g.clone();
    c.freeze();
    c.unfreeze();
    assert_eq!(snapshot(&c, 4), snapshot(&g, 4));
}
