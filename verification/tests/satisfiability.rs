use ready_set_boole::operator::Operator;
use ready_set_boole::sat::sat;
use ready_set_boole::truth_table::{operands_in_formula, truth_table};

#[test]
fn empty_clause_is_satisfiable() {
    assert_eq!(sat("").unwrap(), true);
}

#[test]
fn base_case() {
    assert_eq!(sat("A").unwrap(), true);
}

#[test]
fn test_sat() {
    assert_eq!(sat("AB|").unwrap(), true);
}

#[test]
fn sat_works_with_other_operators() {
    assert_eq!(sat("AA^").unwrap(), false);
}

#[test]
fn single_literal_and_negation() {
    assert_eq!(sat("AA!&").unwrap(), false);
}

#[test]
fn disjunction_of_literals() {
    assert_eq!(sat("AB|").unwrap(), true);
}

#[test]
fn conjunction_of_literals_and_negations() {
    assert_eq!(sat("AB!&").unwrap(), true);
}

#[test]
fn complex_cnf_expression() {
    assert_eq!(sat("AB|AC|&").unwrap(), true);
}

#[test]
fn sat_agrees_with_the_truth_table() {
    let cases = ["AB&", "AA!&", "AB|C&", "AB^AB=&", "AB=", "AA^", "AA>!", "AB>!"];
    for formula in cases {
        let tree = Operator::from_formula(formula).unwrap().unwrap();
        let operands = operands_in_formula(formula);
        let table = truth_table(&tree, &operands).unwrap();
        let some_row_true = table.iter().any(|row| row.1);
        assert_eq!(sat(formula).unwrap(), some_row_true);
    }
}

#[test]
fn negated_implication_of_a_variable_with_itself_is_unsatisfiable() {
    assert_eq!(sat("AA>!").unwrap(), false);
    assert_eq!(sat("AB>!").unwrap(), true);
}

#[test]
fn sat_rejects_malformed_formulas() {
    assert!(sat("AB").is_err());
    assert!(sat("&").is_err());
}
