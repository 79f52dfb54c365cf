use deep_causality::{Assumption, NumericalValue, UNIT};

fn num(x: f64) -> NumericalValue {
    (x * UNIT as f64).round() as NumericalValue
}

fn all_non_negative(data: &[NumericalValue]) -> bool {
    data.iter().all(|x| *x >= 0)
}

fn get_test_assumption() -> Assumption<fn(&[NumericalValue]) -> bool> {
    Assumption::new(1, "all observations are non-negative", all_non_negative as fn(&[NumericalValue]) -> bool)
}

fn get_test_num_array() -> Vec<NumericalValue> {
    vec![num(8.4), num(8.1), num(8.3), num(8.7), num(8.9)]
}

#[test]
fn test_assumption_tested() {
    let mut assumption = get_test_assumption();

    let tested = assumption.assumption_tested();
    assert!(!tested);

    let data = get_test_num_array();
    assumption.verify_assumption(&data);

    let tested = assumption.assumption_tested();
    assert!(tested);
}

#[test]
fn test_verify_assumption() {
    let mut assumption = get_test_assumption();

    let tested = assumption.assumption_tested();
    assert!(!tested);

    let valid = assumption.assumption_tested();
    assert!(!valid);

    let data = get_test_num_array();
    let valid = assumption.verify_assumption(&data);
    assert!(valid);
}

#[test]
fn test_assumption_valid() {
    let mut assumption = get_test_assumption();

    let tested = assumption.assumption_tested();
    assert!(!tested);

    let valid = assumption.assumption_tested();
    assert!(!valid);

    let data = get_test_num_array();
    let valid = assumption.verify_assumption(&data);
    assert!(valid);

    let tested = assumption.assumption_tested();
    assert!(tested);

    let valid = assumption.assumption_valid();
    assert!(valid);
}
