use deep_causality::{
    AggregateLogic, Causable, Causaloid, CausalCollection, CausalityError, NumericalValue, PropagatingEffect, UNIT,
};

type TestFn = fn(PropagatingEffect) -> Result<PropagatingEffect, CausalityError>;
type BaseCausaloid = Causaloid<TestFn>;

fn num(x: f64) -> NumericalValue {
    (x * UNIT as f64).round() as NumericalValue
}

fn deterministic_fn(effect: PropagatingEffect) -> Result<PropagatingEffect, CausalityError> {
    match effect {
        PropagatingEffect::Numerical(obs) => Ok(PropagatingEffect::Deterministic(obs >= num(0.55))),
        _ => Err(CausalityError("Expected a numerical observation".to_string())),
    }
}

fn get_test_causaloid_deterministic() -> BaseCausaloid {
    Causaloid::new(1, deterministic_fn as TestFn, "tests whether data exceeds threshold of 0.55")
}

fn get_deterministic_test_causality_vec() -> Vec<BaseCausaloid> {
    vec![
        get_test_causaloid_deterministic(),
        get_test_causaloid_deterministic(),
        get_test_causaloid_deterministic(),
    ]
}

fn get_probabilistic_test_causality_vec() -> Vec<BaseCausaloid> {
    get_deterministic_test_causality_vec()
}

fn get_deterministic_test_causality_vec_deque() -> CausalCollection<BaseCausaloid> {
    CausalCollection::from_vec(get_deterministic_test_causality_vec())
}

fn get_probabilistic_test_causality_vec_deque() -> CausalCollection<BaseCausaloid> {
    CausalCollection::from_vec(get_probabilistic_test_causality_vec())
}

// Evaluates every cause once so that each holds an effect.
fn activate_all_causes(col: &mut Vec<BaseCausaloid>) {
    let effect = PropagatingEffect::Numerical(num(0.99));
    for cause in col.iter_mut() {
        let _ = cause.evaluate(&effect);
    }
}

#[test]
fn test_add() {
    let mut col = get_deterministic_test_causality_vec_deque();
    assert_eq!(3, col.len());

    let q = get_test_causaloid_deterministic();
    col.push(q);
    assert_eq!(4, col.len());
}

#[test]
fn test_get_all_items() {
    let col = get_deterministic_test_causality_vec_deque();
    let all_items = col.get_all_items();

    let exp_len = col.len();
    let actual_len = all_items.len();
    assert_eq!(exp_len, actual_len);
}

#[test]
fn test_evaluate_deterministic_propagation() {
    let mut col = get_deterministic_test_causality_vec_deque();

    let effect_success = PropagatingEffect::Numerical(num(0.99));
    let res = col.evaluate_deterministic(&effect_success, &AggregateLogic::All);
    assert!(res.is_ok());
    let res_success = res.unwrap();
    assert_eq!(res_success, PropagatingEffect::Deterministic(true));

    let effect_fail = PropagatingEffect::Numerical(num(0.1));
    let res = col.evaluate_deterministic(&effect_fail, &AggregateLogic::All);
    assert!(res.is_ok());
    let res_fail = res.unwrap();
    assert_eq!(res_fail, PropagatingEffect::Deterministic(false));
}

#[test]
fn test_evaluate_probabilistic_propagation() {
    let mut col = get_probabilistic_test_causality_vec_deque();

    let effect_success = PropagatingEffect::Numerical(num(0.99));
    let res = col.evaluate_probabilistic(&effect_success, &AggregateLogic::All, num(0.5));
    assert!(res.is_ok());
    let res_success = res.unwrap();
    assert_eq!(res_success, PropagatingEffect::Probabilistic(num(1.0)));

    let effect_fail = PropagatingEffect::Numerical(num(0.1));
    let res = col.evaluate_probabilistic(&effect_fail, &AggregateLogic::All, num(0.5));
    assert!(res.is_ok());
    let res_fail = res.unwrap();
    assert_eq!(res_fail, PropagatingEffect::Probabilistic(num(0.0)));
}

#[test]
fn test_evaluate_mixed_propagation() {
    let mut col = get_deterministic_test_causality_vec_deque();

    let effect_success = PropagatingEffect::Numerical(num(0.99));
    let res = col.evaluate_mixed(&effect_success, &AggregateLogic::All, num(0.5));
    assert!(res.is_ok());
    let res_success = res.unwrap();
    assert_eq!(res_success, PropagatingEffect::Deterministic(true));

    let effect_fail = PropagatingEffect::Numerical(num(0.1));
    let res = col.evaluate_mixed(&effect_fail, &AggregateLogic::All, num(0.5));
    assert!(res.is_ok());
    let res_fail = res.unwrap();
    assert_eq!(res_fail, PropagatingEffect::Deterministic(false));
}

#[test]
fn test_explain() {
    let mut items = get_deterministic_test_causality_vec();
    activate_all_causes(&mut items);
    let col = CausalCollection::from_vec(items);

    let single_explanation = "\n * Causaloid: 1 'tests whether data exceeds threshold of 0.55' evaluated to: PropagatingEffect::Deterministic(true)\n";
    let expected = single_explanation.repeat(3);
    let res = col.explain();
    assert!(res.is_ok());
    let actual = res.unwrap();
    assert_eq!(expected, actual);
}

#[test]
fn test_len() {
    let col = get_deterministic_test_causality_vec_deque();
    assert_eq!(3, col.len());
}

#[test]
fn test_is_empty() {
    let col = get_deterministic_test_causality_vec_deque();
    assert!(!col.is_empty());
}

#[test]
fn test_to_vec() {
    let col = get_deterministic_test_causality_vec_deque();
    assert_eq!(3, col.into_vec().len());
}
