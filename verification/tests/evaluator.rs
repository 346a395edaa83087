use sirs_solver::EvalError;
use sirs_solver::Evaluator;
use sirs_solver::VariablesContext;

type Rule32 = fn(&VariablesContext<f32>) -> Result<f32, String>;

fn read(data: &VariablesContext<f32>, name: &str) -> Result<f32, String> {
    match data.get(name) {
        Some(v) => Ok(v),
        None => Err(name.to_string()),
    }
}

fn test_rule(data: &VariablesContext<f32>) -> Result<f32, String> {
    Ok(read(data, "TEST")? * 2f32)
}

fn create_test_evaluator() -> Evaluator<f32, Rule32> {
    let mut e: Evaluator<f32, Rule32> = Evaluator::new();
    e.add_start_value("TEST".to_string(), 1f32);
    e.add_function("TEST".to_string(), test_rule);
    e
}

#[test]
fn creation_check() {
    let _e = create_test_evaluator();
}

#[test]
fn step_check() {
    let mut e = create_test_evaluator();
    assert!(e.next_step().is_ok());
    assert_eq!(e.variables.get("TEST"), Some(2f32));
}

fn double_x(data: &VariablesContext<f32>) -> Result<f32, String> {
    Ok(read(data, "x")? * 2f32)
}

fn sum_x_y(data: &VariablesContext<f32>) -> Result<f32, String> {
    Ok(read(data, "x")? + read(data, "y")?)
}

#[test]
fn simultaneity_of_updates() {
    // y's rule reads x; it must see the pre-step x == 1, never the freshly
    // written x == 2, in either registration order.
    let mut e: Evaluator<f32, Rule32> = Evaluator::new();
    e.add_start_value("x".to_string(), 1f32);
    e.add_start_value("y".to_string(), 10f32);
    e.add_function("x".to_string(), double_x);
    e.add_function("y".to_string(), sum_x_y);
    assert!(e.next_step().is_ok());
    assert_eq!(e.variables.get("x"), Some(2f32));
    assert_eq!(e.variables.get("y"), Some(11f32));

    let mut e2: Evaluator<f32, Rule32> = Evaluator::new();
    e2.add_start_value("x".to_string(), 1f32);
    e2.add_start_value("y".to_string(), 10f32);
    e2.add_function("y".to_string(), sum_x_y);
    e2.add_function("x".to_string(), double_x);
    assert!(e2.next_step().is_ok());
    assert_eq!(e2.variables.get("x"), Some(2f32));
    assert_eq!(e2.variables.get("y"), Some(11f32));
}

#[test]
fn single_step_determinism() {
    // Two evaluators with identical state and rules take identical steps.
    let mut e1 = create_test_evaluator();
    let mut e2 = create_test_evaluator();
    assert!(e1.next_step().is_ok());
    assert!(e2.next_step().is_ok());
    assert_eq!(e1.variables.get("TEST"), e2.variables.get("TEST"));
    assert_eq!(e1.variables.get("TEST"), Some(2f32));
}

#[test]
fn history_length_three_entries() {
    // The cursor positions of the range [0, 1] at stride 0.5 are 0, 0.5 and
    // 1.0: three steps, hence exactly three recorded snapshots.
    let time_begin = 0f32;
    let time_end = 1f32;
    let time_delta = 0.5f32;
    let mut steps: usize = 0;
    let mut cursor = time_begin;
    while cursor <= time_end {
        steps += 1;
        cursor += time_delta;
    }
    assert_eq!(steps, 3);

    let mut e = create_test_evaluator();
    assert!(e.evaluate(steps).is_ok());
    assert_eq!(e.history.len(), 3);
    let data = e.get_data_vec("TEST").unwrap();
    assert_eq!(data.len(), 3);
}

#[test]
fn known_closed_form_doubling() {
    let mut e = create_test_evaluator();
    assert!(e.next_step().is_ok());
    assert_eq!(e.variables.get("TEST"), Some(2.0f32));
}

#[test]
fn history_records_each_step() {
    let mut e = create_test_evaluator();
    assert!(e.evaluate(3).is_ok());
    assert_eq!(e.get_data_vec("TEST").unwrap(), vec![2f32, 4f32, 8f32]);
    assert_eq!(e.variables.get("TEST"), Some(8f32));
}

#[test]
fn missing_dataset_query() {
    let mut e = create_test_evaluator();
    assert!(e.evaluate(2).is_ok());
    let r = e.get_data_vec("NEVER_REGISTERED");
    assert_eq!(
        r,
        Err(EvalError::DatasetNotFound("NEVER_REGISTERED".to_string()))
    );
}

#[test]
fn dataset_registered_after_steps_is_not_found() {
    // A variable registered mid-run is absent from the earlier snapshots, so
    // the whole column is reported as not found rather than padded.
    let mut e = create_test_evaluator();
    assert!(e.evaluate(2).is_ok());
    e.add_start_value("LATE".to_string(), 7f32);
    assert_eq!(
        e.get_data_vec("LATE"),
        Err(EvalError::DatasetNotFound("LATE".to_string()))
    );
    // The value itself is present going forward.
    assert_eq!(e.variables.get("LATE"), Some(7f32));
}

fn needs_absent_variable(data: &VariablesContext<f32>) -> Result<f32, String> {
    Ok(read(data, "ABSENT")? + read(data, "x")?)
}

#[test]
fn unknown_variable_fails_step_and_commits_nothing() {
    let mut e: Evaluator<f32, Rule32> = Evaluator::new();
    e.add_start_value("x".to_string(), 5f32);
    e.add_function("x".to_string(), needs_absent_variable);
    let r = e.next_step();
    assert_eq!(r, Err(EvalError::UnknownVariable("ABSENT".to_string())));
    // Nothing was committed and the history is untouched.
    assert_eq!(e.variables.get("x"), Some(5f32));
    assert_eq!(e.history.len(), 0);
}

fn double_until_four(data: &VariablesContext<f32>) -> Result<f32, String> {
    let v = read(data, "x")?;
    if v >= 4f32 {
        Err("LIMIT".to_string())
    } else {
        Ok(v * 2f32)
    }
}

#[test]
fn failed_run_keeps_earlier_snapshots() {
    let mut e: Evaluator<f32, Rule32> = Evaluator::new();
    e.add_start_value("x".to_string(), 1f32);
    e.add_function("x".to_string(), double_until_four);
    let r = e.evaluate(5);
    assert_eq!(r, Err(EvalError::UnknownVariable("LIMIT".to_string())));
    assert_eq!(e.get_data_vec("x").unwrap(), vec![2f32, 4f32]);
    assert_eq!(e.variables.get("x"), Some(4f32));
}

#[test]
fn start_value_can_be_overwritten() {
    let mut e: Evaluator<f32, Rule32> = Evaluator::new();
    e.add_start_value("TEST".to_string(), 1f32);
    e.add_start_value("TEST".to_string(), 9f32);
    assert_eq!(e.variables.get("TEST"), Some(9f32));
}

fn constant_one(_data: &VariablesContext<f32>) -> Result<f32, String> {
    Ok(1f32)
}

#[test]
fn function_can_be_overwritten() {
    let mut e = create_test_evaluator();
    e.add_function("TEST".to_string(), constant_one);
    assert!(e.next_step().is_ok());
    assert_eq!(e.variables.get("TEST"), Some(1f32));
}

#[test]
fn function_without_value_is_inert() {
    let mut e: Evaluator<f32, Rule32> = Evaluator::new();
    e.add_start_value("x".to_string(), 3f32);
    e.add_function("x".to_string(), double_x);
    e.add_function("GHOSTLY".to_string(), constant_one);
    assert!(e.next_step().is_ok());
    assert_eq!(e.variables.get("x"), Some(6f32));
    assert_eq!(e.variables.get("GHOSTLY"), None);
}

#[test]
fn variable_without_function_is_unchanged() {
    let mut e: Evaluator<f32, Rule32> = Evaluator::new();
    e.add_start_value("x".to_string(), 3f32);
    e.add_start_value("frozen".to_string(), 42f32);
    e.add_function("x".to_string(), double_x);
    assert!(e.evaluate(4).is_ok());
    assert_eq!(e.variables.get("frozen"), Some(42f32));
    assert_eq!(e.get_data_vec("frozen").unwrap(), vec![42f32; 4]);
}

#[test]
fn zero_steps_record_nothing() {
    let mut e = create_test_evaluator();
    assert!(e.evaluate(0).is_ok());
    assert_eq!(e.history.len(), 0);
    // An empty history has every registered variable in all (zero) snapshots.
    assert_eq!(e.get_data_vec("TEST").unwrap(), Vec::<f32>::new());
    assert_eq!(e.variables.get("TEST"), Some(1f32));
}
