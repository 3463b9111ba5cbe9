//! A stack evaluator for closed postfix formulas over the constants `1`
//! and `0`.

use vstd::prelude::*;

use crate::operator::FormulaError;

verus! {

/// A token of a closed formula: a truth constant or a connective.
#[derive(PartialEq, Debug, Clone, Copy, Eq, Structural)]
pub enum Operator {
    True,
    False,
    Not,
    And,
    Or,
    Xor,
    Implies,
    Equals,
}

/// The token a character stands for, or the error for an unrecognized
/// character.
pub open spec fn spec_from_char(c: char) -> Result<Operator, FormulaError> {
    if c == '1' {
        Ok(Operator::True)
    } else if c == '0' {
        Ok(Operator::False)
    } else if c == '!' {
        Ok(Operator::Not)
    } else if c == '&' {
        Ok(Operator::And)
    } else if c == '|' {
        Ok(Operator::Or)
    } else if c == '^' {
        Ok(Operator::Xor)
    } else if c == '>' {
        Ok(Operator::Implies)
    } else if c == '=' {
        Ok(Operator::Equals)
    } else {
        Err(FormulaError::InvalidOperatorToken)
    }
}

/// Reads one character as a token.
fn from_char(c: char) -> (r: Result<Operator, FormulaError>)
    ensures
        r == spec_from_char(c),
{
    match c {
        '1' => Ok(Operator::True),
        '0' => Ok(Operator::False),
        '!' => Ok(Operator::Not),
        '&' => Ok(Operator::And),
        '|' => Ok(Operator::Or),
        '^' => Ok(Operator::Xor),
        '>' => Ok(Operator::Implies),
        '=' => Ok(Operator::Equals),
        _ => Err(FormulaError::InvalidOperatorToken),
    }
}

impl Operator {
    /// Whether the token is a truth constant.
    pub fn is_operand(&self) -> (r: bool)
        ensures
            r == (*self == Operator::True || *self == Operator::False),
    {
        match self {
            Operator::True => true,
            Operator::False => true,
            _ => false,
        }
    }

    /// Whether the token is the negation connective.
    pub fn is_not(&self) -> (r: bool)
        ensures
            r == (*self == Operator::Not),
    {
        *self == Operator::Not
    }
}

/// What a binary connective yields on the two popped truth values; `a` is
/// the value popped first, that is, the upper one.
pub open spec fn spec_apply(operator: Operator, a: bool, b: bool) -> bool {
    match operator {
        Operator::And => a && b,
        Operator::Or => a || b,
        Operator::Xor => a != b,
        Operator::Implies => !(a && !b),
        Operator::Equals => a == b,
        _ => arbitrary(),
    }
}

/// Applies a binary connective to two truth constants; `a` was popped
/// first.
fn evaluate_two(a: Operator, b: Operator, operator: Operator) -> (r: Operator)
    requires
        operator != Operator::True && operator != Operator::False && operator != Operator::Not,
        a == Operator::True || a == Operator::False,
        b == Operator::True || b == Operator::False,
    ensures
        r == (if spec_apply(operator, a == Operator::True, b == Operator::True) {
            Operator::True
        } else {
            Operator::False
        }),
{
    match operator {
        Operator::And => {
            if a == Operator::True && b == Operator::True {
                Operator::True
            } else {
                Operator::False
            }
        },
        Operator::Or => {
            if a == Operator::True || b == Operator::True {
                Operator::True
            } else {
                Operator::False
            }
        },
        Operator::Xor => {
            if (a == Operator::True) != (b == Operator::True) {
                Operator::True
            } else {
                Operator::False
            }
        },
        Operator::Implies => {
            if a == Operator::True && b == Operator::False {
                Operator::False
            } else {
                Operator::True
            }
        },
        Operator::Equals => {
            if (a == Operator::True) == (b == Operator::True) {
                Operator::True
            } else {
                Operator::False
            }
        },
        _ => Operator::False,
    }
}

/// Negates a truth constant.
pub fn evaluate_not(a: Operator) -> (r: Operator)
    ensures
        r == (if a == Operator::True {
            Operator::False
        } else {
            Operator::True
        }),
{
    if a == Operator::True {
        Operator::False
    } else {
        Operator::True
    }
}

/// One step of the evaluation: push a constant, or pop what the
/// connective needs and push its value.
pub open spec fn spec_eval_step(stack: Seq<bool>, c: char) -> Result<Seq<bool>, FormulaError> {
    match spec_from_char(c) {
        Err(e) => Err(e),
        Ok(op) => if op == Operator::True {
            Ok(stack.push(true))
        } else if op == Operator::False {
            Ok(stack.push(false))
        } else if op == Operator::Not {
            if stack.len() == 0 {
                Err(FormulaError::StackUnderflow)
            } else {
                Ok(stack.drop_last().push(!stack.last()))
            }
        } else {
            if stack.len() < 2 {
                Err(FormulaError::StackUnderflow)
            } else {
                Ok(
                    stack.drop_last().drop_last().push(
                        spec_apply(op, stack.last(), stack[stack.len() - 2]),
                    ),
                )
            }
        },
    }
}

/// The value stack after reading a whole token sequence.
pub open spec fn spec_eval_tokens(s: Seq<char>) -> Result<Seq<bool>, FormulaError>
    decreases s.len(),
{
    if s.len() == 0 {
        Ok(Seq::empty())
    } else {
        match spec_eval_tokens(s.drop_last()) {
            Ok(stack) => spec_eval_step(stack, s.last()),
            Err(e) => Err(e),
        }
    }
}

/// The value of a closed formula: true for the empty formula, else the
/// top of the final stack; left-over values below it are ignored.
pub open spec fn spec_eval_formula(s: Seq<char>) -> Result<bool, FormulaError> {
    if s.len() == 0 {
        Ok(true)
    } else {
        match spec_eval_tokens(s) {
            Ok(stack) => if stack.len() == 0 {
                Err(FormulaError::StackUnderflow)
            } else {
                Ok(stack.last())
            },
            Err(e) => Err(e),
        }
    }
}

/// Once a prefix fails to evaluate, the whole string fails the same way.
proof fn lemma_eval_error_persists(s: Seq<char>, j: int)
    requires
        0 <= j <= s.len(),
        spec_eval_tokens(s.subrange(0, j)) is Err,
    ensures
        spec_eval_tokens(s) == spec_eval_tokens(s.subrange(0, j)),
    decreases s.len() - j,
{
    if j == s.len() {
        assert(s.subrange(0, j) =~= s);
    } else {
        assert(s.subrange(0, j + 1).drop_last() =~= s.subrange(0, j));
        lemma_eval_error_persists(s, j + 1);
    }
}

/// The truth values the operand stack stands for.
pub open spec fn stack_values(stack: Seq<Operator>) -> Seq<bool> {
    stack.map_values(|o: Operator| o == Operator::True)
}

/// Evaluates a closed postfix formula over `1` and `0`; the empty formula
/// is true by convention.
pub fn eval_formula(formula: &str) -> (r: Result<bool, FormulaError>)
    ensures
        r == spec_eval_formula(formula@),
{
    let n = formula.unicode_len();
    if n == 0 {
        return Ok(true);
    }
    let mut operands: Vec<Operator> = Vec::new();
    let mut i: usize = 0;
    proof {
        assert(formula@.subrange(0, 0) =~= Seq::<char>::empty());
        assert(stack_values(operands@) =~= Seq::<bool>::empty());
    }
    while i < n
        invariant
            0 <= i <= n,
            n == formula@.len(),
            spec_eval_tokens(formula@.subrange(0, i as int)) == Ok::<_, FormulaError>(
                stack_values(operands@),
            ),
            forall|j: int|
                0 <= j < operands@.len() ==> (#[trigger] operands@[j]) == Operator::True
                    || operands@[j] == Operator::False,
        decreases n - i,
    {
        let c = formula.get_char(i);
        proof {
            assert(formula@.subrange(0, i + 1).drop_last() =~= formula@.subrange(0, i as int));
            assert(formula@.subrange(0, i + 1).last() == c);
        }
        let ghost before = stack_values(operands@);
        let operator = match from_char(c) {
            Ok(op) => op,
            Err(e) => {
                proof {
                    lemma_eval_error_persists(formula@, i + 1);
                }
                return Err(e);
            },
        };
        if operator.is_operand() {
            operands.push(operator);
            proof {
                assert(stack_values(operands@) =~= before.push(operator == Operator::True));
            }
        } else if operator.is_not() {
            match operands.pop() {
                Some(a) => {
                    let result = evaluate_not(a);
                    let ghost popped = stack_values(operands@);
                    operands.push(result);
                    proof {
                        assert(popped =~= before.drop_last());
                        assert(stack_values(operands@) =~= popped.push(result == Operator::True));
                    }
                },
                None => {
                    proof {
                        lemma_eval_error_persists(formula@, i + 1);
                    }
                    return Err(FormulaError::StackUnderflow);
                },
            }
        } else {
            if operands.len() < 2 {
                proof {
                    lemma_eval_error_persists(formula@, i + 1);
                }
                return Err(FormulaError::StackUnderflow);
            }
            let a = operands.pop().unwrap();
            let b = operands.pop().unwrap();
            let result = evaluate_two(a, b, operator);
            let ghost popped = stack_values(operands@);
            operands.push(result);
            proof {
                assert(popped =~= before.drop_last().drop_last());
                assert(before.last() == (a == Operator::True));
                assert(before[before.len() - 2] == (b == Operator::True));
                assert(stack_values(operands@) =~= popped.push(result == Operator::True));
            }
        }
        i = i + 1;
    }
    proof {
        assert(formula@.subrange(0, n as int) =~= formula@);
    }
    match operands.pop() {
        Some(top) => {
            proof {
                assert(stack_values(operands@.push(top)).last() == (top == Operator::True));
            }
            Ok(top == Operator::True)
        },
        None => Err(FormulaError::StackUnderflow),
    }
}

} // verus!
