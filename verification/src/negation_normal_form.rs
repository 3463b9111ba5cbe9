//! Rewriting a formula into negation normal form: negations are pushed down
//! to the variables and `Implies`, `Xor` and `Equals` are expanded away.

use vstd::prelude::*;

use crate::operator::{FormulaError, Operator};

verus! {

impl Operator {
    /// A variable or a negated variable.
    pub open spec fn is_literal(self) -> bool {
        match self {
            Operator::Operand(_) => true,
            Operator::Not(c) => *c matches Operator::Operand(_),
            _ => false,
        }
    }

    /// Negation normal form: only `And`, `Or` and literals.
    pub open spec fn is_nnf(self) -> bool
        decreases self,
    {
        match self {
            Operator::And(a, b) => a.is_nnf() && b.is_nnf(),
            Operator::Or(a, b) => a.is_nnf() && b.is_nnf(),
            _ => self.is_literal(),
        }
    }

    /// The negation normal form of the tree.
    pub open spec fn spec_nnf(self) -> Operator
        decreases self,
    {
        match self {
            Operator::Operand(_) => self,
            Operator::Not(c) => c.spec_nnf_neg(),
            Operator::And(a, b) => Operator::And(
                Box::new(a.spec_nnf()),
                Box::new(b.spec_nnf()),
            ),
            Operator::Or(a, b) => Operator::Or(Box::new(a.spec_nnf()), Box::new(b.spec_nnf())),
            Operator::Implies(a, b) => Operator::Or(
                Box::new(a.spec_nnf_neg()),
                Box::new(b.spec_nnf()),
            ),
            Operator::Xor(a, b) => Operator::Or(
                Box::new(Operator::And(Box::new(a.spec_nnf_neg()), Box::new(b.spec_nnf()))),
                Box::new(Operator::And(Box::new(a.spec_nnf()), Box::new(b.spec_nnf_neg()))),
            ),
            Operator::Equals(a, b) => Operator::Or(
                Box::new(Operator::And(Box::new(a.spec_nnf()), Box::new(b.spec_nnf()))),
                Box::new(Operator::And(Box::new(a.spec_nnf_neg()), Box::new(b.spec_nnf_neg()))),
            ),
        }
    }

    /// The negation normal form of the tree's negation.  An exclusive-or
    /// under the negation expands as an equivalence and the other way
    /// round; a negated implication becomes the conjunction of its left
    /// child and its negated right child.
    pub open spec fn spec_nnf_neg(self) -> Operator
        decreases self,
    {
        match self {
            Operator::Operand(_) => Operator::Not(Box::new(self)),
            Operator::Not(c) => c.spec_nnf(),
            Operator::And(a, b) => Operator::Or(
                Box::new(a.spec_nnf_neg()),
                Box::new(b.spec_nnf_neg()),
            ),
            Operator::Or(a, b) => Operator::And(
                Box::new(a.spec_nnf_neg()),
                Box::new(b.spec_nnf_neg()),
            ),
            Operator::Implies(a, b) => Operator::And(
                Box::new(a.spec_nnf()),
                Box::new(b.spec_nnf_neg()),
            ),
            Operator::Xor(a, b) => Operator::Or(
                Box::new(Operator::And(Box::new(a.spec_nnf()), Box::new(b.spec_nnf()))),
                Box::new(Operator::And(Box::new(a.spec_nnf_neg()), Box::new(b.spec_nnf_neg()))),
            ),
            Operator::Equals(a, b) => Operator::Or(
                Box::new(Operator::And(Box::new(a.spec_nnf_neg()), Box::new(b.spec_nnf()))),
                Box::new(Operator::And(Box::new(a.spec_nnf()), Box::new(b.spec_nnf_neg()))),
            ),
        }
    }

    /// The rewrite always lands in negation normal form.
    pub proof fn lemma_nnf_shape(self)
        ensures
            self.spec_nnf().is_nnf(),
            self.spec_nnf_neg().is_nnf(),
        decreases self,
    {
        reveal_with_fuel(Operator::is_nnf, 3);
        match self {
            Operator::Operand(_) => {},
            Operator::Not(c) => {
                c.lemma_nnf_shape();
            },
            Operator::And(a, b) => {
                a.lemma_nnf_shape();
                b.lemma_nnf_shape();
            },
            Operator::Or(a, b) => {
                a.lemma_nnf_shape();
                b.lemma_nnf_shape();
            },
            Operator::Xor(a, b) => {
                a.lemma_nnf_shape();
                b.lemma_nnf_shape();
            },
            Operator::Implies(a, b) => {
                a.lemma_nnf_shape();
                b.lemma_nnf_shape();
            },
            Operator::Equals(a, b) => {
                a.lemma_nnf_shape();
                b.lemma_nnf_shape();
            },
        }
    }

    /// A tree already in negation normal form is left unchanged, so the
    /// rewrite is idempotent.
    pub proof fn lemma_nnf_of_nnf_is_identity(self)
        requires
            self.is_nnf(),
        ensures
            self.spec_nnf() == self,
        decreases self,
    {
        match self {
            Operator::And(a, b) => {
                a.lemma_nnf_of_nnf_is_identity();
                b.lemma_nnf_of_nnf_is_identity();
            },
            Operator::Or(a, b) => {
                a.lemma_nnf_of_nnf_is_identity();
                b.lemma_nnf_of_nnf_is_identity();
            },
            Operator::Not(c) => {
                assert(self.spec_nnf() == c.spec_nnf_neg());
            },
            _ => {},
        }
    }

    /// Rewriting a second time changes nothing.
    pub proof fn lemma_nnf_idempotent(self)
        ensures
            self.spec_nnf().spec_nnf() == self.spec_nnf(),
    {
        self.lemma_nnf_shape();
        self.spec_nnf().lemma_nnf_of_nnf_is_identity();
    }

    /// The rewrite keeps the truth value on every assignment.
    pub proof fn lemma_nnf_preserves_eval(self, m: Map<char, bool>)
        ensures
            self.spec_nnf().spec_eval(m) == self.spec_eval(m),
            self.spec_nnf_neg().spec_eval(m) == !self.spec_eval(m),
        decreases self,
    {
        reveal_with_fuel(Operator::spec_eval, 3);
        match self {
            Operator::Operand(_) => {},
            Operator::Not(c) => {
                c.lemma_nnf_preserves_eval(m);
            },
            Operator::And(a, b) => {
                a.lemma_nnf_preserves_eval(m);
                b.lemma_nnf_preserves_eval(m);
            },
            Operator::Or(a, b) => {
                a.lemma_nnf_preserves_eval(m);
                b.lemma_nnf_preserves_eval(m);
            },
            Operator::Implies(a, b) => {
                a.lemma_nnf_preserves_eval(m);
                b.lemma_nnf_preserves_eval(m);
            },
            Operator::Xor(a, b) => {
                a.lemma_nnf_preserves_eval(m);
                b.lemma_nnf_preserves_eval(m);
            },
            Operator::Equals(a, b) => {
                a.lemma_nnf_preserves_eval(m);
                b.lemma_nnf_preserves_eval(m);
            },
        }
    }

    /// Rewrites the tree into negation normal form.
    pub fn to_negation_normal_form(self) -> (r: Operator)
        ensures
            r == self.spec_nnf(),
        decreases self,
    {
        match self {
            Operator::Operand(_) => self,
            Operator::Not(c) => nnf_of_negation(*c),
            Operator::And(a, b) => Operator::and(
                a.to_negation_normal_form(),
                b.to_negation_normal_form(),
            ),
            Operator::Or(a, b) => Operator::or(
                a.to_negation_normal_form(),
                b.to_negation_normal_form(),
            ),
            Operator::Implies(a, b) => Operator::or(
                nnf_of_negation(*a),
                b.to_negation_normal_form(),
            ),
            Operator::Xor(a, b) => {
                let a2 = a.clone();
                let b2 = b.clone();
                Operator::or(
                    Operator::and(nnf_of_negation(*a), b.to_negation_normal_form()),
                    Operator::and(a2.to_negation_normal_form(), nnf_of_negation(*b2)),
                )
            },
            Operator::Equals(a, b) => {
                let a2 = a.clone();
                let b2 = b.clone();
                Operator::or(
                    Operator::and(a.to_negation_normal_form(), b.to_negation_normal_form()),
                    Operator::and(nnf_of_negation(*a2), nnf_of_negation(*b2)),
                )
            },
        }
    }
}

/// Rewrites the negation of the tree into negation normal form.
fn nnf_of_negation(f: Operator) -> (r: Operator)
    ensures
        r == f.spec_nnf_neg(),
    decreases f,
{
    match f {
        Operator::Operand(_) => Operator::not(f),
        Operator::Not(c) => c.to_negation_normal_form(),
        Operator::And(a, b) => Operator::or(nnf_of_negation(*a), nnf_of_negation(*b)),
        Operator::Or(a, b) => Operator::and(nnf_of_negation(*a), nnf_of_negation(*b)),
        Operator::Implies(a, b) => Operator::and(a.to_negation_normal_form(), nnf_of_negation(*b)),
        Operator::Xor(a, b) => {
            let a2 = a.clone();
            let b2 = b.clone();
            Operator::or(
                Operator::and(a.to_negation_normal_form(), b.to_negation_normal_form()),
                Operator::and(nnf_of_negation(*a2), nnf_of_negation(*b2)),
            )
        },
        Operator::Equals(a, b) => {
            let a2 = a.clone();
            let b2 = b.clone();
            Operator::or(
                Operator::and(nnf_of_negation(*a), b.to_negation_normal_form()),
                Operator::and(a2.to_negation_normal_form(), nnf_of_negation(*b2)),
            )
        },
    }
}

/// Parses a formula, rewrites it into negation normal form and renders it
/// back; the empty formula stays empty.
pub fn negation_normal_form(formula: &str) -> (r: Result<String, FormulaError>)
    ensures
        r matches Ok(s) ==> match Operator::spec_from_formula(formula@) {
            Ok(Some(t)) => s@ == Operator::spec_to_string(t.spec_nnf()),
            Ok(None) => s@ == Seq::<char>::empty(),
            Err(_) => false,
        },
        r matches Err(e) ==> Operator::spec_from_formula(formula@) == Err::<
            Option<Operator>,
            _,
        >(e),
{
    match Operator::from_formula(formula)? {
        Some(tree) => Ok(tree.to_negation_normal_form().to_string()),
        None => Ok(String::new()),
    }
}

} // verus!
