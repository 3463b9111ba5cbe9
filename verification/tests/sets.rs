use ready_set_boole::operator::FormulaError;
use ready_set_boole::set_evaluation::eval_set;

#[test]
fn incorrect_sets_for_formula_gives_arity_error() {
    let sets = vec![vec![1]];
    assert_eq!(
        eval_set("A|B", sets.clone()),
        Err(FormulaError::ArityMismatch)
    );
}

#[test]
fn empty_formula_with_a_set_gives_arity_error() {
    let sets = vec![vec![1]];
    assert_eq!(eval_set("", sets.clone()), Err(FormulaError::ArityMismatch));
}

#[test]
fn empty_formula_without_sets_gives_error() {
    assert_eq!(eval_set("", vec![]), Err(FormulaError::InvalidInput));
}

#[test]
fn eval_set_works_with_disjunction() {
    let sets = vec![vec![1], vec![2]];
    let result = eval_set("AB|B|", sets.clone()).unwrap();
    assert_eq!(result, vec![1, 2]);
}

#[test]
fn eval_set_works_with_conjunction() {
    let sets = vec![vec![1], vec![2]];
    let result = eval_set("AB&", sets.clone()).unwrap();
    assert_eq!(result, vec![]);

    let sets = vec![vec![1], vec![1]];
    let result = eval_set("AB&", sets.clone()).unwrap();
    assert_eq!(result, vec![1]);
}

#[test]
fn eval_set_works_with_negation() {
    let sets = vec![vec![1]];
    let result = eval_set("A!", sets.clone()).unwrap();
    assert_eq!(result, vec![]);

    let sets = vec![vec![1, 3], vec![1, 2]];
    let result = eval_set("AB|!", sets.clone()).unwrap();
    assert_eq!(result, vec![]);

    let sets = vec![vec![1, 3], vec![1, 2]];
    let mut result = eval_set("AB!|", sets.clone()).unwrap();
    result.sort();
    assert_eq!(result, vec![1, 3]);
}

#[test]
fn eval_set_works_with_equals() {
    let sets = vec![vec![1], vec![2]];
    let result = eval_set("AB=", sets.clone()).unwrap();
    assert_eq!(result, vec![]);

    let sets = vec![vec![1], vec![1]];
    let result = eval_set("AB=", sets.clone()).unwrap();
    assert_eq!(result, vec![1]);
}

#[test]
fn eval_set_works_with_xor() {
    let sets = vec![vec![1], vec![2]];
    let mut result = eval_set("AB^", sets.clone()).unwrap();
    result.sort();
    assert_eq!(result, vec![1, 2]);

    let sets = vec![vec![1], vec![1]];
    let result = eval_set("AB^", sets.clone()).unwrap();
    assert_eq!(result, vec![]);
}

#[test]
fn eval_set_xor_is_symmetric_difference() {
    let sets = vec![vec![1, 2], vec![2, 3]];
    let result = eval_set("AB^", sets.clone()).unwrap();
    assert_eq!(result, vec![1, 3]);

    let sets = vec![vec![1, 2], vec![1, 2]];
    let result = eval_set("AB^", sets.clone()).unwrap();
    assert_eq!(result, vec![]);
}

#[test]
fn eval_set_works_with_implies() {
    let sets = vec![vec![1], vec![2]];
    let result = eval_set("AB>", sets.clone()).unwrap();
    assert_eq!(result, vec![]);

    let sets = vec![vec![1, 2], vec![1]];
    let result = eval_set("AB>", sets.clone()).unwrap();
    assert_eq!(result, vec![]);

    let sets = vec![vec![1], vec![1, 2]];
    let result = eval_set("AB>", sets.clone()).unwrap();
    assert_eq!(result, vec![1]);
}

#[test]
fn eval_set_complement_stays_within_the_universe() {
    let result = eval_set("A!", vec![vec![1]]).unwrap();
    assert_eq!(result, vec![]);

    let result = eval_set("AB&", vec![vec![1], vec![1]]).unwrap();
    assert_eq!(result, vec![1]);
}

#[test]
fn eval_set_reports_unbound_variables() {
    let sets = vec![vec![1], vec![2]];
    assert_eq!(
        eval_set("ab&", sets.clone()),
        Err(FormulaError::UnboundVariable)
    );
}

#[test]
fn eval_set_binds_sets_in_sorted_variable_order() {
    let sets = vec![vec![1], vec![2]];
    let result = eval_set("BA|", sets.clone()).unwrap();
    assert_eq!(result, vec![2, 1]);
}
