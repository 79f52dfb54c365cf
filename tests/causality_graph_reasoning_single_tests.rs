use deep_causality::{Causaloid, CausalityError, CausaloidGraph, NumericalValue, PropagatingEffect, UNIT};

type TestFn = fn(PropagatingEffect) -> Result<PropagatingEffect, CausalityError>;
type BaseCausaloid = Causaloid<TestFn>;
type BaseCausalGraph = CausaloidGraph<BaseCausaloid>;

fn num(x: f64) -> NumericalValue {
    (x * UNIT as f64).round() as NumericalValue
}

fn deterministic_fn(effect: PropagatingEffect) -> Result<PropagatingEffect, CausalityError> {
    match effect {
        PropagatingEffect::Numerical(obs) => Ok(PropagatingEffect::Deterministic(obs >= num(0.55))),
        _ => Err(CausalityError("Expected a numerical observation".to_string())),
    }
}

fn error_fn(_effect: PropagatingEffect) -> Result<PropagatingEffect, CausalityError> {
    Err(CausalityError("Test error".to_string()))
}

fn get_test_causaloid_deterministic() -> BaseCausaloid {
    Causaloid::new(1, deterministic_fn as TestFn, "tests whether data exceeds threshold of 0.55")
}

fn get_test_error_causaloid() -> BaseCausaloid {
    Causaloid::new(2, error_fn as TestFn, "always fails")
}

#[test]
fn test_evaluate_single_cause_success() {
    let mut g = CausaloidGraph::new(0);
    let causaloid = get_test_causaloid_deterministic();
    let index = g.add_causaloid(causaloid).expect("Failed to add causaloid");
    g.freeze();
    let effect = PropagatingEffect::Numerical(num(0.99));
    let res = g.evaluate_single_cause(index, &effect);

    assert!(res.is_ok());
    assert_eq!(res.unwrap(), PropagatingEffect::Deterministic(true));
}

#[test]
fn test_evaluate_single_cause_error_conditions() {
    let effect = PropagatingEffect::Numerical(num(0.99));

    // Node does not exist in the graph.
    let mut g: BaseCausalGraph = CausaloidGraph::new(0);
    let non_existent_index = 99;
    let res = g.evaluate_single_cause(non_existent_index, &effect);

    assert!(res.is_err());
    assert_eq!(
        res.unwrap_err().to_string(),
        "CausalityError: Causaloid with index 99 not found in graph"
    );

    // The causaloid itself fails.
    let mut g = CausaloidGraph::new(0);
    let error_causaloid = get_test_error_causaloid();
    let index = g.add_causaloid(error_causaloid).expect("Failed to add causaloid");
    g.freeze();

    let res = g.evaluate_single_cause(index, &effect);

    assert!(res.is_err());
    assert_eq!(res.unwrap_err().to_string(), "CausalityError: Test error");
}
