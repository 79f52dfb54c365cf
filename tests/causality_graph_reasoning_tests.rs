// Reasoning over small causal graphs. Observations are fixed-point numbers:
// `num(0.99)` is 0.99 in the library's units.
use deep_causality::{Causaloid, CausalityError, CausaloidGraph, NumericalValue, PropagatingEffect, UNIT};

type TestFn = fn(PropagatingEffect) -> Result<PropagatingEffect, CausalityError>;
type BaseCausaloid = Causaloid<TestFn>;
type BaseCausalGraph = CausaloidGraph<BaseCausaloid>;

fn num(x: f64) -> NumericalValue {
    (x * UNIT as f64).round() as NumericalValue
}

fn causal_fn(effect: PropagatingEffect) -> Result<PropagatingEffect, CausalityError> {
    match effect {
        PropagatingEffect::Numerical(obs) => {
            if obs < 0 {
                return Err(CausalityError("Observation is negative".to_string()));
            }
            Ok(PropagatingEffect::Deterministic(obs >= num(0.55)))
        }
        _ => Err(CausalityError("Expected a numerical observation".to_string())),
    }
}

fn get_test_causaloid() -> BaseCausaloid {
    Causaloid::new(1, causal_fn as TestFn, "tests whether data exceeds threshold of 0.55")
}

fn sample_data(n: usize) -> Vec<NumericalValue> {
    vec![num(0.99); n]
}

// root -> a -> b -> ... (k nodes after the root)
fn get_small_linear_graph_and_data() -> (BaseCausalGraph, Vec<NumericalValue>) {
    let k = 10;
    let mut g = CausaloidGraph::new(0);
    let root_index = g.add_root_causaloid(get_test_causaloid()).expect("Failed to add root causaloid");
    let mut previous_idx = root_index;
    for _ in 0..k {
        let current_idx = g.add_causaloid(get_test_causaloid()).expect("Failed to add causaloid");
        g.add_edge(previous_idx, current_idx).expect("Failed to add edge");
        previous_idx = current_idx;
    }
    g.freeze();
    (g, sample_data(k + 1))
}

//  root
//  /  \
// A    B
//  \  /
//   C
fn get_small_multi_cause_graph_and_data() -> (BaseCausalGraph, Vec<NumericalValue>) {
    let mut g = CausaloidGraph::new(0);
    let root = g.add_root_causaloid(get_test_causaloid()).expect("Failed to add root causaloid");
    let a = g.add_causaloid(get_test_causaloid()).expect("Failed to add causaloid");
    g.add_edge(root, a).expect("Failed to add edge between root and A");
    let b = g.add_causaloid(get_test_causaloid()).expect("Failed to add causaloid");
    g.add_edge(root, b).expect("Failed to add edge between root and B");
    let c = g.add_causaloid(get_test_causaloid()).expect("Failed to add causaloid");
    g.add_edge(a, c).expect("Failed to add edge between A and C");
    g.add_edge(b, c).expect("Failed to add edge between B and C");
    g.freeze();
    (g, sample_data(4))
}

//    root(0)
//  /   |   \
// A(1) B(2) C(3)
// / \  / \  / \
// D(4) E(5) F(6) G(7)
fn get_small_multi_layer_cause_graph_and_data() -> (BaseCausalGraph, Vec<NumericalValue>) {
    let mut g = CausaloidGraph::new(0);
    let root = g.add_root_causaloid(get_test_causaloid()).unwrap();
    let a = g.add_causaloid(get_test_causaloid()).unwrap();
    let b = g.add_causaloid(get_test_causaloid()).unwrap();
    let c = g.add_causaloid(get_test_causaloid()).unwrap();
    g.add_edge(root, a).unwrap();
    g.add_edge(root, b).unwrap();
    g.add_edge(root, c).unwrap();
    let d = g.add_causaloid(get_test_causaloid()).unwrap();
    let e = g.add_causaloid(get_test_causaloid()).unwrap();
    let f = g.add_causaloid(get_test_causaloid()).unwrap();
    let gg = g.add_causaloid(get_test_causaloid()).unwrap();
    g.add_edge(a, d).unwrap();
    g.add_edge(a, e).unwrap();
    g.add_edge(b, e).unwrap();
    g.add_edge(b, f).unwrap();
    g.add_edge(c, f).unwrap();
    g.add_edge(c, gg).unwrap();
    g.freeze();
    (g, sample_data(8))
}

//    root(0)
//  /   |   \
// A(1) B(2) C(3)
// / \
// D(4) E(5)
fn get_left_imbalanced_cause_graph() -> (BaseCausalGraph, Vec<NumericalValue>) {
    let mut g = CausaloidGraph::new(0);
    let root = g.add_root_causaloid(get_test_causaloid()).unwrap();
    let a = g.add_causaloid(get_test_causaloid()).unwrap();
    let b = g.add_causaloid(get_test_causaloid()).unwrap();
    let c = g.add_causaloid(get_test_causaloid()).unwrap();
    g.add_edge(root, a).unwrap();
    g.add_edge(root, b).unwrap();
    g.add_edge(root, c).unwrap();
    let d = g.add_causaloid(get_test_causaloid()).unwrap();
    let e = g.add_causaloid(get_test_causaloid()).unwrap();
    g.add_edge(a, d).unwrap();
    g.add_edge(a, e).unwrap();
    g.freeze();
    (g, sample_data(6))
}

//    root(0)
//  /   |   \
// A(1) B(2) C(3)
//           / \
//         D(4) E(5)
fn get_right_imbalanced_cause_graph() -> (BaseCausalGraph, Vec<NumericalValue>) {
    let mut g = CausaloidGraph::new(0);
    let root = g.add_root_causaloid(get_test_causaloid()).unwrap();
    let a = g.add_causaloid(get_test_causaloid()).unwrap();
    let b = g.add_causaloid(get_test_causaloid()).unwrap();
    let c = g.add_causaloid(get_test_causaloid()).unwrap();
    g.add_edge(root, a).unwrap();
    g.add_edge(root, b).unwrap();
    g.add_edge(root, c).unwrap();
    let d = g.add_causaloid(get_test_causaloid()).unwrap();
    let e = g.add_causaloid(get_test_causaloid()).unwrap();
    g.add_edge(c, d).unwrap();
    g.add_edge(c, e).unwrap();
    g.freeze();
    (g, sample_data(6))
}

#[test]
fn test_linear_graph() {
    let (mut g, data) = get_small_linear_graph_and_data();

    assert_eq!(g.percent_active(), num(0.0));
    let number_active = g.number_active() as f64;
    assert_eq!(number_active, 0.0);
    let all_true = g.all_active();
    assert_eq!(all_true, false);

    let res = g.reason_all_causes(&data, None).unwrap();
    assert_eq!(res, true);

    let all_true = g.all_active();
    assert_eq!(all_true, true);
    assert_eq!(g.percent_active(), num(100.0));
    let total_nodes = g.count_nodes() as f64;
    let number_active = g.number_active() as f64;
    assert_eq!(number_active, total_nodes);
}

#[test]
fn test_multi_cause_graph() {
    let (mut g, data) = get_small_multi_cause_graph_and_data();

    assert_eq!(g.percent_active(), num(0.0));
    let number_active = g.number_active() as f64;
    assert_eq!(number_active, 0.0);

    // Single reasoning over B.
    let obs = num(0.99);
    let res = g.reason_single_cause(2, &[obs]).unwrap();
    assert_eq!(res, true);
    assert_eq!(g.number_active() as f64, 1.0);

    // Partial reasoning from B: B and C.
    let res = g.reason_subgraph_from_cause(2, &data, None).unwrap();
    assert_eq!(res, true);
    assert_eq!(g.number_active() as f64, 2.0);

    // Single reasoning over C with a low observation deactivates it.
    let obs = num(0.02);
    let res = g.reason_single_cause(3, &[obs]).unwrap();
    assert_eq!(res, false);
    assert_eq!(g.number_active() as f64, 1.0);

    let all_true = g.all_active();
    assert_eq!(all_true, false);

    let res = g.reason_all_causes(&data, None).unwrap();
    assert_eq!(res, true);

    let all_true = g.all_active();
    assert_eq!(all_true, true);
    assert_eq!(g.percent_active(), num(100.0));
    let total_nodes = g.count_nodes() as f64;
    let number_active = g.number_active() as f64;
    assert_eq!(number_active, total_nodes);
}

#[test]
fn test_multi_layer_cause_graph() {
    let (mut g, data) = get_small_multi_layer_cause_graph_and_data();

    assert_eq!(g.percent_active(), num(0.0));
    assert_eq!(g.number_active() as f64, 0.0);
    assert_eq!(g.all_active(), false);

    // Single reasoning over C.
    let res = g.reason_single_cause(3, &[num(0.99)]).unwrap();
    assert_eq!(res, true);
    assert_eq!(g.number_active() as f64, 1.0);

    // From C: C, F and G.
    let res = g.reason_subgraph_from_cause(3, &data, None).unwrap();
    assert_eq!(res, true);
    assert_eq!(g.number_active() as f64, 3.0);

    // From B: B, E and F, with F already active.
    let res = g.reason_subgraph_from_cause(2, &data, None).unwrap();
    assert_eq!(res, true);
    assert_eq!(g.number_active() as f64, 5.0);

    // G deactivated.
    let res = g.reason_single_cause(7, &[num(0.02)]).unwrap();
    assert_eq!(res, false);
    assert_eq!(g.number_active() as f64, 4.0);

    let res = g.reason_all_causes(&data, None).unwrap();
    assert_eq!(res, true);

    let total_nodes = g.count_nodes() as f64;
    let number_active = g.number_active() as f64;
    assert_eq!(number_active, total_nodes);
    assert_eq!(g.all_active(), true);
    assert_eq!(g.percent_active(), num(100.0));
}

#[test]
fn test_left_imbalanced_cause_graph() {
    let (mut g, data) = get_left_imbalanced_cause_graph();

    assert_eq!(g.percent_active(), num(0.0));
    assert_eq!(g.number_active() as f64, 0.0);
    assert_eq!(g.all_active(), false);

    let res = g.reason_single_cause(3, &[num(0.99)]).unwrap();
    assert_eq!(res, true);
    assert_eq!(g.number_active() as f64, 1.0);

    // From A: A, D and E.
    let res = g.reason_subgraph_from_cause(1, &data, None).unwrap();
    assert_eq!(res, true);
    assert_eq!(g.number_active() as f64, 4.0);

    // Shortest path from A to D: both already active.
    let res = g.reason_shortest_path_between_causes(1, 4, &data, None).unwrap();
    assert_eq!(res, true);
    assert_eq!(g.number_active() as f64, 4.0);

    // A deactivated.
    let res = g.reason_single_cause(1, &[num(0.02)]).unwrap();
    assert_eq!(res, false);
    assert_eq!(g.number_active() as f64, 3.0);

    let res = g.reason_all_causes(&data, None).unwrap();
    assert_eq!(res, true);
    assert_eq!(g.all_active(), true);
    assert_eq!(g.percent_active(), num(100.0));
    let total_nodes = g.count_nodes() as f64;
    let number_active = g.number_active() as f64;
    assert_eq!(number_active, total_nodes);
}

#[test]
fn test_right_imbalanced_cause_graph() {
    let (mut g, data) = get_right_imbalanced_cause_graph();

    assert_eq!(g.percent_active(), num(0.0));
    assert_eq!(g.number_active() as f64, 0.0);
    assert_eq!(g.all_active(), false);

    let res = g.reason_single_cause(3, &[num(0.99)]).unwrap();
    assert_eq!(res, true);
    assert_eq!(g.number_active() as f64, 1.0);

    // From C: C, D and E.
    let res = g.reason_subgraph_from_cause(3, &data, None).unwrap();
    assert_eq!(res, true);
    assert_eq!(g.number_active() as f64, 3.0);

    // B stays inactive.
    let res = g.reason_single_cause(2, &[num(0.02)]).unwrap();
    assert_eq!(res, false);
    assert_eq!(g.number_active() as f64, 3.0);

    let res = g.reason_all_causes(&data, None).unwrap();
    assert_eq!(res, true);
    assert_eq!(g.all_active(), true);
    assert_eq!(g.percent_active(), num(100.0));
    let total_nodes = g.count_nodes() as f64;
    let number_active = g.number_active() as f64;
    assert_eq!(number_active, total_nodes);
}
