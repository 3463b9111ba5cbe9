use ready_set_boole::evaluation::eval_formula;
use ready_set_boole::operator::{FormulaError, Operator};

#[test]
fn operator_evaluating_basic_formulas_works() {
    let nodes = Operator::from_formula("AB&").unwrap();

    assert_eq!(
        nodes.unwrap(),
        Operator::with_two('&', Operator::operand('A'), Operator::operand('B')).unwrap()
    );
}

#[test]
fn evaluating_not_works() {
    let nodes = Operator::from_formula("A!").unwrap();

    assert_eq!(nodes.unwrap(), Operator::not(Operator::Operand('A')));
}

#[test]
fn evaluating_double_not_works() {
    let nodes = Operator::from_formula("A!!").unwrap();

    assert_eq!(
        nodes.unwrap(),
        Operator::not(Operator::not(Operator::Operand('A')))
    );
}

#[test]
fn evaluating_empty_string_works() {
    let nodes = Operator::from_formula("").unwrap();

    assert_eq!(nodes, None);
}

#[test]
fn evaluating_simple_formula_works() {
    let nodes = Operator::from_formula("A").unwrap().unwrap();

    assert_eq!(nodes, Operator::operand('A'));
}

#[test]
fn evaluating_string_with_too_many_operands_gives_error() {
    let nodes = Operator::from_formula("ABB&");

    assert_eq!(nodes, Err(FormulaError::TooManyOperands));
}

#[test]
fn evaluationg_formula_with_multiple_operators_works() {
    let tree = Operator::from_formula("AB&C|").unwrap().unwrap();

    assert_eq!(
        tree,
        Operator::with_two(
            '|',
            Operator::with_two('&', Operator::operand('A'), Operator::operand('B')).unwrap(),
            Operator::operand('C')
        )
        .unwrap()
    );
}

#[test]
fn evalauting_complicated_formula_works() {
    let tree = Operator::from_formula("ABC|&").unwrap().unwrap();

    assert_eq!(
        tree,
        Operator::with_two(
            '&',
            Operator::operand('A'),
            Operator::with_two('|', Operator::operand('B'), Operator::operand('C')).unwrap(),
        )
        .unwrap()
    );
}

#[test]
fn evaluate_another_formula() {
    let tree = Operator::from_formula("ABCD||=").unwrap().unwrap();

    assert_eq!(
        tree,
        Operator::with_two(
            '=',
            Operator::Operand('A'),
            Operator::with_two(
                '|',
                Operator::operand('B'),
                Operator::with_two('|', Operator::operand('C'), Operator::operand('D'),).unwrap(),
            )
            .unwrap(),
        )
        .unwrap()
    );
}

#[test]
fn lowercase_variables_are_uppercased() {
    let rendered = Operator::from_formula("ab&").unwrap().unwrap().to_string();
    assert_eq!(rendered, "AB&");
}

#[test]
fn round_trip_spells_the_formula_back() {
    let cases = ["AB&", "AB|C&D^", "A!!", "ABCD||=", "AB>C="];
    for formula in cases {
        let tree = Operator::from_formula(formula).unwrap().unwrap();
        assert_eq!(tree.to_string(), formula);
    }
}

#[test]
fn parser_reports_each_error() {
    assert_eq!(
        Operator::from_formula("!"),
        Err(FormulaError::StackUnderflow)
    );
    assert_eq!(
        Operator::from_formula("A&"),
        Err(FormulaError::StackUnderflow)
    );
    assert_eq!(
        Operator::from_formula("AB#"),
        Err(FormulaError::InvalidOperatorToken)
    );
    assert_eq!(
        Operator::from_formula("AB"),
        Err(FormulaError::TooManyOperands)
    );
}

#[test]
fn digits_are_not_variables() {
    assert_eq!(
        Operator::from_formula("1"),
        Err(FormulaError::StackUnderflow)
    );
}

fn evaluate_formula(formula: &str, expected: bool) {
    let result = eval_formula(formula).unwrap();
    assert_eq!(result, expected);
}

#[test]
fn evaluation_evaluating_basic_formulas_works() {
    evaluate_formula("10&", false);
    evaluate_formula("10|", true);
    evaluate_formula("10|1&", true);
    evaluate_formula("101|&", true);
    evaluate_formula("11>", true);
    evaluate_formula("10=", false);
    evaluate_formula("101|&", true);
    evaluate_formula("1011||=", true);
}

#[test]
fn evaluating_empty_formulas_works() {
    evaluate_formula("", true);
}

#[test]
fn evaluating_negation_works() {
    evaluate_formula("1!", false);
}

#[test]
fn evaluating_double_negation_works() {
    evaluate_formula("1!!", true);
}

#[test]
fn evaluating_closed_formula_reports_errors() {
    assert_eq!(eval_formula("!"), Err(FormulaError::StackUnderflow));
    assert_eq!(eval_formula("1A"), Err(FormulaError::InvalidOperatorToken));
    assert_eq!(eval_formula("1&"), Err(FormulaError::StackUnderflow));
}
