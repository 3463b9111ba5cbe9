use ready_set_boole::conjunctive_normal_form::conjunctive_normal_form;
use ready_set_boole::negation_normal_form::negation_normal_form;
use ready_set_boole::operator::{FormulaError, Operator};
use ready_set_boole::truth_table::{operands_in_formula, solve, truth_table};

/// The two formulas must agree on every assignment of the first one's
/// variables.
fn truth_tables_equal(a: &str, b: &str) {
    let a_operator = Operator::from_formula(a).unwrap().unwrap();
    let b_operator = Operator::from_formula(b).unwrap().unwrap();
    let a_operands = operands_in_formula(a);
    let a_table = truth_table(&a_operator, &a_operands).unwrap();
    for a_row in a_table.iter() {
        let b_value = solve(&b_operator, &a_row.0).unwrap();
        assert_eq!(a_row.1, b_value, "{} vs {} at {:?}", a, b, a_row.0);
    }
}

#[test]
fn negation_normal_form_works_with_empty_string() {
    let result = negation_normal_form("").unwrap();

    assert_eq!(result, "");
}

#[test]
fn negation_normal_form_works_with_and() {
    let result = negation_normal_form("AB&").unwrap();

    assert_eq!(result, "AB&");
}

#[test]
fn negation_normal_form_works_when_negating_conjunction() {
    let result = negation_normal_form("AB&!").unwrap();

    assert_eq!(result, "A!B!|");
}

#[test]
fn negation_normal_form_works_with_deep_and() {
    let result = negation_normal_form("AB&BC&|!").unwrap();

    assert_eq!(result, "A!B!|B!C!|&");
}

#[test]
fn negation_normal_form_works_with_deep_negation() {
    let result = negation_normal_form("AB&!AB&&").unwrap();

    assert_eq!(result, "A!B!|AB&&");
}

#[test]
fn negation_normal_form_works_with_or() {
    let result = negation_normal_form("AB|").unwrap();

    assert_eq!(result, "AB|");
}

#[test]
fn negation_normal_form_works_with_negation() {
    let result = negation_normal_form("A!").unwrap();
    assert_eq!(result, "A!");
}

#[test]
fn negation_normal_form_works_with_double_negation() {
    let result = negation_normal_form("A!!").unwrap();

    assert_eq!(result, "A");
}

#[test]
fn negation_normal_form_works_with_triple_negation() {
    let result = negation_normal_form("A!!!").unwrap();

    assert_eq!(result, "A!");
}

#[test]
fn negation_normal_form_works_when_negating_disjunction() {
    let result = negation_normal_form("AB|!").unwrap();

    assert_eq!(result, "A!B!&");
}

#[test]
fn negation_normal_form_works_with_equals() {
    let result = negation_normal_form("AB=").unwrap();

    assert_eq!(result, "AB&A!B!&|");
}

#[test]
fn negation_normal_form_works_with_negated_equals() {
    let result = negation_normal_form("AB=!").unwrap();

    assert_eq!(result, "A!B&AB!&|");
}

#[test]
fn negation_normal_form_works_with_xor() {
    let result = negation_normal_form("AB^").unwrap();

    assert_eq!(result, "A!B&AB!&|");
}

#[test]
fn negation_normal_form_works_with_negated_xor() {
    let result = negation_normal_form("AB^!").unwrap();

    assert_eq!(result, "AB&A!B!&|");
}

#[test]
fn negation_normal_form_works_with_implies() {
    let result = negation_normal_form("AB>").unwrap();

    assert_eq!(result, "A!B|");
}

#[test]
fn negation_normal_form_works_with_negated_implies() {
    let result = negation_normal_form("AB>!").unwrap();

    assert_eq!(result, "AB!&");
}

#[test]
fn negation_normal_form_works_with_complicated_things() {
    let operators = Operator::from_formula("AB|C&!").unwrap().unwrap();
    let expected_operator_tree = Operator::with_two(
        '|',
        Operator::with_two(
            '&',
            Operator::not(Operator::operand('A')),
            Operator::not(Operator::operand('B')),
        )
        .unwrap(),
        Operator::not(Operator::operand('C')),
    )
    .unwrap();
    assert_eq!(operators.to_negation_normal_form(), expected_operator_tree);
}

#[test]
fn conjunctive_normal_form_works_with_empty_string() {
    let result = conjunctive_normal_form("").unwrap();

    assert_eq!(result, "");
}

#[test]
fn conjunctive_normal_form_works_with_negated_and() {
    let original = "AB&!";
    let expected = "A!B!|";
    let result = conjunctive_normal_form(original).unwrap();

    assert_eq!(result, expected);
    truth_tables_equal(original, &result);
}

#[test]
fn conjunctive_normal_form_works_with_negated_or() {
    let original = "AB|!";
    let expected = "A!B!&";
    let result = conjunctive_normal_form(original).unwrap();

    assert_eq!(result, expected);
    truth_tables_equal(original, &result);
}

#[test]
fn conjunctive_normal_form_works_with_deep_and() {
    let original = "AB|C&D&";
    let expected = "AB|CD&&";
    let result = conjunctive_normal_form(original).unwrap();

    assert_eq!(result, expected);
    truth_tables_equal(original, &result);
}

#[test]
fn conjunctive_normal_form_works_with_1() {
    let original = "ABCD&|&";
    let expected = "ABC|BD|&&";
    let result = conjunctive_normal_form(original).unwrap();

    assert_eq!(result, expected);
    truth_tables_equal(original, &result);
}

#[test]
fn conjunctive_normal_form_works_with_many_ors() {
    let original = "AB|C|D|";
    let expected = "AB|C|D|";
    let result = conjunctive_normal_form(original).unwrap();

    assert_eq!(result, expected);
    truth_tables_equal(original, &result);
}

#[test]
fn conjunctive_normal_form_works_with_many_ands() {
    let original = "AB&C&D&";
    let expected = "ABCD&&&";
    let result = conjunctive_normal_form(original).unwrap();

    assert_eq!(result, expected);
    truth_tables_equal(original, &result);
}

#[test]
fn conjunctive_normal_form_works_complicated() {
    let original = "AB&!C!|";
    let expected = "A!B!|C!|";
    let result = conjunctive_normal_form(original).unwrap();

    assert_eq!(result, expected);
    truth_tables_equal(original, &result);
}

#[test]
fn last_subject_test() {
    let original = "AB|!C!&";
    let expected = "A!B!C!&&";
    let result = conjunctive_normal_form(original).unwrap();

    truth_tables_equal(original, expected);
    truth_tables_equal(original, &result);
    assert_eq!(result, expected);
}

#[test]
fn normal_forms_are_idempotent() {
    let cases = ["AB&!", "AB=C^", "AB|C&!", "AB>D|"];
    for formula in cases {
        let once = negation_normal_form(formula).unwrap();
        let twice = negation_normal_form(&once).unwrap();
        assert_eq!(once, twice);

        let cnf_once = conjunctive_normal_form(formula).unwrap();
        let cnf_twice = conjunctive_normal_form(&cnf_once).unwrap();
        assert_eq!(cnf_once, cnf_twice);
    }
}

#[test]
fn conjunctive_normal_form_refuses_unnormalized_trees() {
    let implication = Operator::from_formula("AB>").unwrap().unwrap();
    assert_eq!(
        implication.to_conjunctive_normal_form(),
        Err(FormulaError::InvalidInput)
    );
    let negated_pair = Operator::not(Operator::from_formula("AB&").unwrap().unwrap());
    assert_eq!(
        negated_pair.to_conjunctive_normal_form(),
        Err(FormulaError::InvalidInput)
    );
}

#[test]
fn extracted_clauses_hold_only_literals() {
    let formula = "AB=C&D!&";
    let cnf = Operator::from_formula(formula)
        .unwrap()
        .unwrap()
        .to_negation_normal_form()
        .to_conjunctive_normal_form()
        .unwrap();
    let clauses = cnf.extract_clauses();
    assert!(clauses.len() > 0);
    for clause in clauses.iter() {
        for literal in clause.iter() {
            let ok = match literal {
                Operator::Operand(_) => true,
                Operator::Not(inner) => matches!(**inner, Operator::Operand(_)),
                _ => false,
            };
            assert!(ok);
        }
    }
}

#[test]
fn normal_forms_keep_the_truth_tables() {
    let cases = ["AB&!", "AB=", "AB^", "AB>", "AB>!", "AA>!", "AB|C&!", "ABC&^"];
    for formula in cases {
        let nnf = negation_normal_form(formula).unwrap();
        truth_tables_equal(formula, &nnf);
        let cnf = conjunctive_normal_form(formula).unwrap();
        truth_tables_equal(formula, &cnf);
    }
}
