use ready_set_boole::operator::{FormulaError, Operator};
use ready_set_boole::truth_table::{operands_in_formula, solve, truth_table};

#[test]
fn getting_operands_from_formula_works() {
    let operands = operands_in_formula("AB&");

    assert_eq!(operands, vec!['A', 'B',]);
}

#[test]
fn getting_operands_from_formula_does_not_count_doubles() {
    let operands = operands_in_formula("ABB&");

    assert_eq!(operands, vec!['A', 'B',]);
}

#[test]
fn getting_operands_from_formula_works_for_complicated_formulas() {
    let operands = operands_in_formula("ABCD||=E");

    assert_eq!(operands, vec!['A', 'B', 'C', 'D', 'E',]);
}

#[test]
fn can_solve_for_correct_values_1() {
    let tree = Operator::from_formula("AB&").unwrap().unwrap();
    let values = vec![('A', true), ('B', false)];

    assert_eq!(solve(&tree, &values).unwrap(), false);
}

#[test]
fn can_solve_for_correct_values_2() {
    let tree = Operator::from_formula("AB|").unwrap().unwrap();
    let values = vec![('A', true), ('B', false)];

    assert_eq!(solve(&tree, &values).unwrap(), true);
}

#[test]
fn can_solve_for_correct_values_3() {
    let tree = Operator::from_formula("ABCD||=").unwrap().unwrap();
    let values = vec![('A', true), ('B', false), ('C', true), ('D', true)];

    assert_eq!(solve(&tree, &values).unwrap(), true);
}

#[test]
fn can_solve_for_correct_values_4() {
    let tree = Operator::from_formula("A").unwrap().unwrap();
    let values = vec![('A', true)];

    assert_eq!(solve(&tree, &values).unwrap(), true);
}

#[test]
fn can_solve_for_correct_values_5() {
    let tree = Operator::from_formula("A!!").unwrap().unwrap();
    let values = vec![('A', true)];

    assert_eq!(solve(&tree, &values).unwrap(), true);
}

#[test]
fn can_solve_for_correct_values_6() {
    let tree = Operator::from_formula("AB&!").unwrap().unwrap();
    let values = vec![('A', true), ('B', true)];

    assert_eq!(solve(&tree, &values).unwrap(), false);
}

#[test]
fn solving_an_unbound_variable_gives_error() {
    let tree = Operator::from_formula("AB&").unwrap().unwrap();
    let values = vec![('A', true)];

    assert_eq!(solve(&tree, &values), Err(FormulaError::UnboundVariable));
}

#[test]
fn truth_table_orders_rows_by_true_count() {
    let tree = Operator::from_formula("AB&").unwrap().unwrap();
    let table = truth_table(&tree, &['A', 'B']).unwrap();

    assert_eq!(table.len(), 4);
    assert_eq!(table[0], (vec![('A', false), ('B', false)], false));
    assert_eq!(table[1], (vec![('A', true), ('B', false)], false));
    assert_eq!(table[2], (vec![('A', false), ('B', true)], false));
    assert_eq!(table[3], (vec![('A', true), ('B', true)], true));
}

#[test]
fn truth_table_of_single_variable() {
    let tree = Operator::from_formula("A!").unwrap().unwrap();
    let table = truth_table(&tree, &['A']).unwrap();

    assert_eq!(table, vec![(vec![('A', false)], true), (vec![('A', true)], false)]);
}

#[test]
fn truth_table_reports_unbound_variables() {
    let tree = Operator::from_formula("AB&").unwrap().unwrap();

    assert_eq!(
        truth_table(&tree, &['A']),
        Err(FormulaError::UnboundVariable)
    );
}
