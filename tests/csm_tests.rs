use deep_causality::{
    ActionError, Causaloid, CausalAction, CausalState, CausalityError, NumericalValue, PropagatingEffect, CSM, UNIT,
};

type TestFn = fn(PropagatingEffect) -> Result<PropagatingEffect, CausalityError>;
type ActionFn = fn() -> Result<(), ActionError>;

fn num(x: f64) -> NumericalValue {
    (x * UNIT as f64).round() as NumericalValue
}

fn threshold_fn(effect: PropagatingEffect) -> Result<PropagatingEffect, CausalityError> {
    match effect {
        PropagatingEffect::Numerical(obs) => Ok(PropagatingEffect::Deterministic(obs >= num(0.55))),
        _ => Err(CausalityError("Expected a numerical observation".to_string())),
    }
}

fn ok_action() -> Result<(), ActionError> {
    Ok(())
}

fn failing_action() -> Result<(), ActionError> {
    Err(ActionError("boom".to_string()))
}

fn state(id: usize, obs: f64) -> CausalState<Causaloid<TestFn>> {
    CausalState::new(id, 1, PropagatingEffect::Numerical(num(obs)), Causaloid::new(id as u64, threshold_fn as TestFn, "state"))
}

fn action(f: ActionFn) -> CausalAction<ActionFn> {
    CausalAction::new(f, "action", 1)
}

#[test]
fn test_csm_add_remove_update() {
    let mut csm = CSM::new(vec![(state(1, 0.9), action(ok_action))]);
    assert_eq!(csm.len(), 1);
    assert!(!csm.is_empty());
    assert!(csm.add_single_state(1, (state(1, 0.9), action(ok_action))).is_err());
    assert!(csm.add_single_state(2, (state(2, 0.9), action(ok_action))).is_ok());
    assert_eq!(csm.len(), 2);
    assert!(csm.update_single_state(3, (state(3, 0.9), action(ok_action))).is_err());
    assert!(csm.update_single_state(2, (state(2, 0.1), action(failing_action))).is_ok());
    assert!(csm.remove_single_state(3).is_err());
    assert!(csm.remove_single_state(1).is_ok());
    assert_eq!(csm.len(), 1);
}

#[test]
fn test_csm_fires_only_active_states() {
    let mut csm = CSM::new(vec![(state(1, 0.9), action(failing_action))]);
    // Active state: the failing action fires and its failure is reported.
    assert!(csm.eval_single_state(1, &PropagatingEffect::Numerical(num(0.9))).is_err());
    // Inactive state: nothing fires.
    assert!(csm.eval_single_state(1, &PropagatingEffect::Numerical(num(0.1))).is_ok());
    // Unknown state.
    assert!(csm.eval_single_state(5, &PropagatingEffect::Numerical(num(0.9))).is_err());
    // All states on their own data: the state's data (0.9) makes it fire.
    assert!(csm.eval_all_states().is_err());
    csm.update_all_states(vec![(state(1, 0.1), action(failing_action)), (state(2, 0.9), action(ok_action))]);
    assert_eq!(csm.len(), 2);
    assert!(csm.eval_all_states().is_ok());
}

#[test]
fn test_csm_later_pair_wins() {
    let csm = CSM::new(vec![
        (state(1, 0.9), action(failing_action)),
        (state(1, 0.1), action(ok_action)),
    ]);
    assert_eq!(csm.len(), 1);
}

#[test]
fn test_causal_state_eval() {
    let mut s = state(1, 0.9);
    assert_eq!(s.eval().unwrap(), PropagatingEffect::Deterministic(true));
    assert_eq!(s.eval_with_data(&PropagatingEffect::Numerical(num(0.2))).unwrap(), PropagatingEffect::Deterministic(false));
}
