use std::collections::HashMap;

use deep_causality::{
    AggregateLogic, Aggregation, Causable, Causaloid, CausalCollection, ContextualCausaloid, CausalityError, CausaloidGraph, NumericalValue,
    PropagatingEffect, UNIT,
};
use deep_causality::GraphView;

type TestFn = fn(PropagatingEffect) -> Result<PropagatingEffect, CausalityError>;
type BaseCausaloid = Causaloid<TestFn>;
type BaseCausalGraph = CausaloidGraph<BaseCausaloid>;

fn num(x: f64) -> NumericalValue {
    (x * UNIT as f64).round() as NumericalValue
}

fn threshold_fn(effect: PropagatingEffect) -> Result<PropagatingEffect, CausalityError> {
    match effect {
        PropagatingEffect::Numerical(obs) => {
            if obs < 0 {
                return Err(CausalityError("Observation is negative".to_string()));
            }
            Ok(PropagatingEffect::Deterministic(obs >= num(0.55)))
        }
        _ => Err(CausalityError("Expected a numerical observation".to_string())),
    }
}

fn probability_fn(effect: PropagatingEffect) -> Result<PropagatingEffect, CausalityError> {
    match effect {
        PropagatingEffect::Numerical(obs) => Ok(PropagatingEffect::Probabilistic(obs)),
        _ => Err(CausalityError("Expected a numerical observation".to_string())),
    }
}

fn echo_fn(effect: PropagatingEffect) -> Result<PropagatingEffect, CausalityError> {
    Ok(effect)
}

fn causaloid(f: TestFn) -> BaseCausaloid {
    Causaloid::new(7, f, "test node")
}

fn collection(f: TestFn, n: usize) -> CausalCollection<BaseCausaloid> {
    CausalCollection::from_vec((0..n).map(|_| causaloid(f)).collect())
}

fn chain_graph(n: usize) -> BaseCausalGraph {
    let mut g = CausaloidGraph::new(1);
    let mut prev = g.add_root_causaloid(causaloid(threshold_fn)).unwrap();
    for _ in 1..n {
        let next = g.add_causaloid(causaloid(threshold_fn)).unwrap();
        g.add_edge(prev, next).unwrap();
        prev = next;
    }
    g
}

#[test]
fn test_probabilistic_product_and_short_circuit() {
    let mut col = collection(probability_fn, 3);
    let res = col.evaluate_probabilistic(&PropagatingEffect::Numerical(num(0.8)), &AggregateLogic::All, num(0.5));
    assert_eq!(res.unwrap(), PropagatingEffect::Probabilistic(num(0.512)));

    // With threshold 0.7 the chain stops after 0.8 * 0.8 = 0.64; the third node stays unevaluated.
    let mut col = collection(probability_fn, 3);
    let res = col.evaluate_probabilistic(&PropagatingEffect::Numerical(num(0.8)), &AggregateLogic::All, num(0.7));
    assert_eq!(res.unwrap(), PropagatingEffect::Probabilistic(num(0.64)));
    let items = col.into_vec();
    assert_eq!(items[1].effect(), Some(PropagatingEffect::Probabilistic(num(0.8))));
    assert_eq!(items[2].effect(), None);
}

#[test]
fn test_probabilistic_rejects_other_effects() {
    let mut col = collection(echo_fn, 2);
    let res = col.evaluate_probabilistic(&PropagatingEffect::Numerical(num(0.8)), &AggregateLogic::All, num(0.5));
    assert_eq!(res.unwrap_err().0, "effect cannot be read as a probability");
}

#[test]
fn test_deterministic_rejects_other_effects() {
    let mut col = collection(echo_fn, 2);
    let res = col.evaluate_deterministic(&PropagatingEffect::Numerical(num(0.8)), &AggregateLogic::All);
    assert_eq!(res.unwrap_err().0, "effect is not deterministic");
}

#[test]
fn test_deterministic_stops_at_first_false() {
    let mut col = collection(threshold_fn, 3);
    let res = col.evaluate_deterministic(&PropagatingEffect::Numerical(num(0.1)), &AggregateLogic::All);
    assert_eq!(res.unwrap(), PropagatingEffect::Deterministic(false));
    let items = col.into_vec();
    assert_eq!(items[0].effect(), Some(PropagatingEffect::Deterministic(false)));
    assert_eq!(items[1].effect(), None);
}

#[test]
fn test_node_error_is_passed_on() {
    let mut col = collection(threshold_fn, 2);
    let res = col.evaluate_deterministic(&PropagatingEffect::Numerical(-5), &AggregateLogic::All);
    assert_eq!(res.unwrap_err().to_string(), "CausalityError: Observation is negative");
}

#[test]
fn test_mixed_thresholds_probabilities() {
    let mut col = collection(probability_fn, 2);
    let res = col.evaluate_mixed(&PropagatingEffect::Numerical(num(0.6)), &AggregateLogic::All, num(0.5));
    assert_eq!(res.unwrap(), PropagatingEffect::Deterministic(true));
    let res = col.evaluate_mixed(&PropagatingEffect::Numerical(num(0.4)), &AggregateLogic::All, num(0.5));
    assert_eq!(res.unwrap(), PropagatingEffect::Deterministic(false));
}

#[test]
fn test_explanation_is_stable_and_needs_evaluation() {
    let mut col = collection(threshold_fn, 2);
    assert!(col.explain().is_err());
    col.evaluate_deterministic(&PropagatingEffect::Numerical(num(0.99)), &AggregateLogic::All).unwrap();
    let first = col.explain().unwrap();
    let second = col.explain().unwrap();
    assert_eq!(first, second);
    assert_eq!(first, "\n * Causaloid: 7 'test node' evaluated to: PropagatingEffect::Deterministic(true)\n".repeat(2));

    // A node that is not active cannot be explained, evaluated or not.
    let mut c = causaloid(echo_fn);
    c.evaluate(&PropagatingEffect::Numerical(-42)).unwrap();
    assert_eq!(c.effect(), Some(PropagatingEffect::Numerical(-42)));
    assert_eq!(
        c.explain().unwrap_err().to_string(),
        "CausalityError: Causaloid: 7 has not been evaluated. Call verify() to activate it"
    );
}

#[test]
fn test_percent_active_formula() {
    let mut g = chain_graph(3);
    g.freeze();
    g.reason_single_cause(1, &[num(0.9)]).unwrap();
    assert_eq!(g.number_active(), 1);
    assert_eq!(g.percent_active(), 33_333_333);
    assert!(!g.all_active());
}

#[test]
fn test_reasoning_errors() {
    let mut empty: BaseCausalGraph = CausaloidGraph::new(0);
    assert_eq!(empty.reason_all_causes(&[], None).unwrap_err().to_string(), "CausalityError: graph is empty");
    assert_eq!(empty.percent_active(), 0);
    assert!(empty.all_active());

    let mut g = chain_graph(3);
    assert_eq!(
        g.reason_subgraph_from_cause(0, &[num(0.9); 3], None).unwrap_err().to_string(),
        "CausalityError: graph is not frozen"
    );
    assert_eq!(
        g.reason_shortest_path_between_causes(0, 2, &[num(0.9); 3], None).unwrap_err().to_string(),
        "CausalityError: graph is not frozen"
    );
    g.freeze();
    assert_eq!(
        g.reason_shortest_path_between_causes(2, 0, &[num(0.9); 3], None).unwrap_err().to_string(),
        "CausalityError: no path between the causaloids"
    );
    assert_eq!(g.reason_single_cause(0, &[]).unwrap_err().to_string(), "CausalityError: data are empty");
    assert_eq!(
        g.reason_subgraph_from_cause(9, &[num(0.9); 3], None).unwrap_err().to_string(),
        "CausalityError: Causaloid with index 9 not found in graph"
    );

    // Too little data: nothing is evaluated.
    assert!(g.reason_all_causes(&[num(0.9); 2], None).is_err());
    assert_eq!(g.number_active(), 0);
}

#[test]
fn test_reasoning_with_index_map() {
    let mut g = chain_graph(3);
    g.freeze();
    // Node i reads its observation at position 2 - i.
    let mut map: HashMap<usize, usize> = HashMap::new();
    map.insert(0, 2);
    map.insert(1, 1);
    map.insert(2, 0);
    let data = [num(0.1), num(0.9), num(0.9)];
    // Node 0 and 1 hold, node 2 reads 0.1 and fails.
    assert_eq!(g.reason_all_causes(&data, Some(&map)).unwrap(), false);
    assert_eq!(g.number_active(), 2);

    // Node 0 now reads 0.1 at position 2 and fails first; node 1 keeps its state.
    let data = [num(0.9), num(0.9), num(0.1)];
    assert_eq!(g.reason_all_causes(&data, Some(&map)).unwrap(), false);
    assert_eq!(g.number_active(), 1);

    let data = [num(0.9), num(0.9), num(0.9)];
    assert_eq!(g.reason_all_causes(&data, Some(&map)).unwrap(), true);
    assert!(g.all_active());
}

#[test]
fn test_reason_all_causes_stops_at_first_inactive() {
    let mut g = chain_graph(4);
    g.freeze();
    let data = [num(0.9), num(0.1), num(0.9), num(0.9)];
    assert_eq!(g.reason_all_causes(&data, None).unwrap(), false);
    // Node 0 became active, node 1 inactive, nodes 2 and 3 were not visited.
    assert_eq!(g.number_active(), 1);
}

#[test]
fn test_shortest_path_reasoning_visits_only_the_path() {
    // 0 -> 1 -> 2 -> 3 and 0 -> 3
    let mut g = chain_graph(4);
    g.add_edge(0, 3).unwrap();
    g.freeze();
    let data = [num(0.9); 4];
    assert_eq!(g.reason_shortest_path_between_causes(0, 3, &data, None).unwrap(), true);
    assert_eq!(g.number_active(), 2);
}

#[test]
fn test_causaloid_graph_structure() {
    let mut g = chain_graph(3);
    assert_eq!(g.size(), 3);
    assert_eq!(g.number_nodes(), 3);
    assert_eq!(g.number_edges(), 2);
    assert!(g.contains_edge(0, 1));
    assert!(g.contains_causaloid(2));
    assert!(g.contains_root_causaloid());
    assert_eq!(g.get_root_index(), Some(0));
    assert_eq!(g.get_last_index(), Ok(2));
    assert!(g.get_causaloid(1).is_some());
    g.remove_edge(0, 1).unwrap();
    assert_eq!(g.number_edges(), 1);
    g.add_edg_with_weight(0, 2, 9).unwrap();
    assert_eq!(g.get_graph().get_edges(0), Some(vec![(2, 9)]));
    g.remove_causaloid(2).unwrap();
    assert_eq!(g.get_last_index(), Ok(1));
    assert!(!g.is_empty());
    g.clear().unwrap();
    assert!(g.is_empty());
    assert!(g.get_last_index().is_err());
}

#[test]
fn test_collection_as_graph_node() {
    let mut g: CausaloidGraph<CausalCollection<BaseCausaloid>> = CausaloidGraph::new(5);
    let a = g
        .add_root_causaloid(CausalCollection::with_id(1, vec![causaloid(threshold_fn), causaloid(threshold_fn)]))
        .unwrap();
    let b = g.add_causaloid(CausalCollection::with_id(2, vec![causaloid(threshold_fn)])).unwrap();
    g.add_edge(a, b).unwrap();
    g.freeze();
    assert!(g.explain_all_causes().is_err());
    assert_eq!(g.reason_all_causes(&[num(0.9), num(0.9)], None).unwrap(), true);
    assert!(g.all_active());
    let text = g.explain_all_causes().unwrap();
    let line = "\n * Causaloid: 7 'test node' evaluated to: PropagatingEffect::Deterministic(true)\n";
    assert_eq!(text, format!("\n * {}{}\n\n * {}\n", line, line, line));
    // `b`'s member is now inactive: the graph cannot be explained, and the
    // failure is that of the first node that cannot be.
    assert_eq!(g.reason_single_cause(b, &[num(0.1)]).unwrap(), false);
    assert_eq!(g.number_active(), 1);
    assert_eq!(
        g.explain_all_causes().unwrap_err().to_string(),
        "CausalityError: Causaloid: 7 has not been evaluated. Call verify() to activate it"
    );
    assert!(g.get_causaloid(a).unwrap().is_singleton() == false);
    assert!(causaloid(threshold_fn).is_singleton());
}

#[test]
fn test_graph_as_graph_node() {
    let mut inner = chain_graph(2);
    inner.freeze();
    let mut outer: CausaloidGraph<BaseCausalGraph> = CausaloidGraph::new(9);
    let i = outer.add_root_causaloid(inner).unwrap();
    outer.freeze();
    assert_eq!(outer.reason_single_cause(i, &[num(0.9)]).unwrap(), true);
    assert_eq!(outer.number_active(), 1);
    assert!(outer.get_causaloid(i).unwrap().all_active());
    // The inner chain stops at its first node; the second keeps its activation,
    // so the inner graph still counts as active.
    assert_eq!(outer.reason_single_cause(i, &[num(0.2)]).unwrap(), false);
    assert_eq!(outer.number_active(), 1);
    assert_eq!(outer.get_causaloid(i).unwrap().number_active(), 1);
    assert_eq!(outer.get_causaloid(i).unwrap().id(), 1);
}

#[test]
fn test_collection_reasons_over_data() {
    let mut col = collection(threshold_fn, 3);
    assert!(col.reason_all_causes(&[num(0.9), num(0.9)]).is_err());
    assert!(col.explain().is_err());
    assert_eq!(col.reason_all_causes(&[num(0.9), num(0.1), num(0.9)]).unwrap(), false);
    let items = col.into_vec();
    assert!(items[0].is_active());
    assert!(!items[1].is_active());
    assert!(items[2].explain().is_err());

    let mut col = collection(threshold_fn, 3);
    assert_eq!(col.reason_all_causes(&[num(0.9), num(0.8), num(0.7)]).unwrap(), true);
    assert!(col.is_active());
}

#[test]
fn test_probabilistic_collection_node() {
    let members = vec![causaloid(probability_fn), causaloid(probability_fn)];
    let mut node = CausalCollection::with_mode(3, members, Aggregation::Probabilistic(num(0.5)));
    let r = node.evaluate(&PropagatingEffect::Numerical(num(0.8))).unwrap();
    assert_eq!(r, PropagatingEffect::Probabilistic(num(0.64)));
    // Active when some member is: members hold probabilities, not definite outcomes.
    assert!(!node.is_active());
    assert_eq!(node.id(), 3);
}

#[test]
fn test_collection_explains_active_members_only() {
    let mut col = collection(threshold_fn, 2);
    col.reason_all_causes(&[num(0.9), num(0.1)]).unwrap();
    // The second node came out inactive, so the collection cannot be explained.
    assert!(col.explain().is_err());
    col.reason_all_causes(&[num(0.9), num(0.9)]).unwrap();
    assert_eq!(
        col.explain().unwrap(),
        "\n * Causaloid: 7 'test node' evaluated to: PropagatingEffect::Deterministic(true)\n".repeat(2)
    );
}

fn above_context(effect: PropagatingEffect, limit: &NumericalValue) -> Result<PropagatingEffect, CausalityError> {
    match effect {
        PropagatingEffect::Numerical(obs) => Ok(PropagatingEffect::Deterministic(obs >= *limit)),
        _ => Err(CausalityError("Expected a numerical observation".to_string())),
    }
}

type ContextFn = fn(PropagatingEffect, &NumericalValue) -> Result<PropagatingEffect, CausalityError>;

#[test]
fn test_contextual_causaloid() {
    let mut c: ContextualCausaloid<ContextFn, NumericalValue> =
        ContextualCausaloid::new(4, Some(above_context as ContextFn), Some(num(0.5)), "above the context's limit");
    assert_eq!(c.evaluate(&PropagatingEffect::Numerical(num(0.7))).unwrap(), PropagatingEffect::Deterministic(true));
    assert!(c.is_active());
    assert_eq!(
        c.explain().unwrap(),
        "Causaloid: 4 'above the context's limit' evaluated to: PropagatingEffect::Deterministic(true)"
    );

    let mut no_fn: ContextualCausaloid<ContextFn, NumericalValue> = ContextualCausaloid::new(5, None, Some(num(0.5)), "no rule");
    let e = no_fn.evaluate(&PropagatingEffect::Numerical(num(0.7))).unwrap_err();
    assert_eq!(e.to_string(), "CausalityError: contextual causal function is missing");
    assert!(!no_fn.is_active());

    let mut no_ctx: ContextualCausaloid<ContextFn, NumericalValue> =
        ContextualCausaloid::new(6, Some(above_context as ContextFn), None, "no context");
    let e = no_ctx.evaluate(&PropagatingEffect::Numerical(num(0.7))).unwrap_err();
    assert_eq!(e.to_string(), "CausalityError: context is missing");
}
