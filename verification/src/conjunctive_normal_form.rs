//! Rewriting a negation-normal-form tree into conjunctive normal form by
//! distributing disjunctions over conjunctions.

use vstd::prelude::*;

use crate::operator::{push_char, FormulaError, Operator};

verus! {

impl Operator {
    /// A disjunction of literals (a single literal counts).
    pub open spec fn is_disjunction(self) -> bool
        decreases self,
    {
        match self {
            Operator::Or(a, b) => a.is_disjunction() && b.is_disjunction(),
            _ => self.is_literal(),
        }
    }

    /// Conjunctive normal form: a conjunction of disjunctions of literals.
    pub open spec fn is_cnf(self) -> bool
        decreases self,
    {
        match self {
            Operator::And(a, b) => a.is_cnf() && b.is_cnf(),
            _ => self.is_disjunction(),
        }
    }

    /// The disjunction of two converted sides: while one of them is a
    /// conjunction, the disjunction is pushed into its branches, the left
    /// side first.
    pub open spec fn spec_distribute_or(a: Operator, b: Operator) -> Operator
        decreases a.size() + b.size(),
    {
        match a {
            Operator::And(c, d) => Operator::And(
                Box::new(Operator::spec_distribute_or(*c, b)),
                Box::new(Operator::spec_distribute_or(*d, b)),
            ),
            _ => match b {
                Operator::And(c, d) => Operator::And(
                    Box::new(Operator::spec_distribute_or(a, *c)),
                    Box::new(Operator::spec_distribute_or(a, *d)),
                ),
                _ => Operator::Or(Box::new(a), Box::new(b)),
            },
        }
    }

    /// The conjunctive normal form of a tree, or `InvalidInput` where the
    /// tree is not in negation normal form.
    pub open spec fn spec_cnf(self) -> Result<Operator, FormulaError>
        decreases self,
    {
        match self {
            Operator::Operand(_) => Ok(self),
            Operator::Not(c) => if *c matches Operator::Operand(_) {
                Ok(self)
            } else {
                Err(FormulaError::InvalidInput)
            },
            Operator::And(a, b) => match (a.spec_cnf(), b.spec_cnf()) {
                (Ok(x), Ok(y)) => Ok(Operator::And(Box::new(x), Box::new(y))),
                (Err(e), _) => Err(e),
                (_, Err(e)) => Err(e),
            },
            Operator::Or(a, b) => match (a.spec_cnf(), b.spec_cnf()) {
                (Ok(x), Ok(y)) => Ok(Operator::spec_distribute_or(x, y)),
                (Err(e), _) => Err(e),
                (_, Err(e)) => Err(e),
            },
            _ => Err(FormulaError::InvalidInput),
        }
    }

    /// The conversion succeeds exactly on negation-normal-form input.
    pub proof fn lemma_cnf_ok_iff_nnf(self)
        ensures
            self.spec_cnf() is Ok <==> self.is_nnf(),
        decreases self,
    {
        match self {
            Operator::And(a, b) => {
                a.lemma_cnf_ok_iff_nnf();
                b.lemma_cnf_ok_iff_nnf();
            },
            Operator::Or(a, b) => {
                a.lemma_cnf_ok_iff_nnf();
                b.lemma_cnf_ok_iff_nnf();
            },
            _ => {},
        }
    }

    /// Distributing a disjunction over conjunctive normal forms lands in
    /// conjunctive normal form.
    pub proof fn lemma_distribute_or_shape(a: Operator, b: Operator)
        requires
            a.is_cnf(),
            b.is_cnf(),
        ensures
            Operator::spec_distribute_or(a, b).is_cnf(),
        decreases a.size() + b.size(),
    {
        match a {
            Operator::And(c, d) => {
                Operator::lemma_distribute_or_shape(*c, b);
                Operator::lemma_distribute_or_shape(*d, b);
            },
            _ => match b {
                Operator::And(c, d) => {
                    Operator::lemma_distribute_or_shape(a, *c);
                    Operator::lemma_distribute_or_shape(a, *d);
                },
                _ => {},
            },
        }
    }

    /// A successful conversion lands in conjunctive normal form.
    pub proof fn lemma_cnf_shape(self)
        ensures
            self.spec_cnf() matches Ok(g) ==> g.is_cnf(),
        decreases self,
    {
        match self {
            Operator::And(a, b) => {
                a.lemma_cnf_shape();
                b.lemma_cnf_shape();
            },
            Operator::Or(a, b) => {
                a.lemma_cnf_shape();
                b.lemma_cnf_shape();
                if a.spec_cnf() is Ok && b.spec_cnf() is Ok {
                    Operator::lemma_distribute_or_shape(
                        a.spec_cnf()->Ok_0,
                        b.spec_cnf()->Ok_0,
                    );
                }
            },
            _ => {},
        }
    }

    /// A tree already in conjunctive normal form converts to itself, so the
    /// conversion is idempotent on its own output.
    pub proof fn lemma_cnf_of_cnf_is_identity(self)
        requires
            self.is_cnf(),
        ensures
            self.spec_cnf() == Ok::<Operator, FormulaError>(self),
        decreases self,
    {
        match self {
            Operator::And(a, b) => {
                a.lemma_cnf_of_cnf_is_identity();
                b.lemma_cnf_of_cnf_is_identity();
            },
            Operator::Or(a, b) => {
                assert(a.is_disjunction() && b.is_disjunction());
                a.lemma_cnf_of_cnf_is_identity();
                b.lemma_cnf_of_cnf_is_identity();
                assert(!(a.spec_cnf()->Ok_0 matches Operator::And(_, _)));
                assert(!(b.spec_cnf()->Ok_0 matches Operator::And(_, _)));
            },
            Operator::Not(c) => {
                assert(self.is_literal());
            },
            _ => {},
        }
    }

    /// Distribution keeps the truth value of the disjunction.
    pub proof fn lemma_distribute_or_eval(a: Operator, b: Operator, m: Map<char, bool>)
        ensures
            Operator::spec_distribute_or(a, b).spec_eval(m) == (a.spec_eval(m) || b.spec_eval(m)),
        decreases a.size() + b.size(),
    {
        match a {
            Operator::And(c, d) => {
                Operator::lemma_distribute_or_eval(*c, b, m);
                Operator::lemma_distribute_or_eval(*d, b, m);
            },
            _ => match b {
                Operator::And(c, d) => {
                    Operator::lemma_distribute_or_eval(a, *c, m);
                    Operator::lemma_distribute_or_eval(a, *d, m);
                },
                _ => {},
            },
        }
    }

    /// A successful conversion keeps the truth value on every assignment.
    pub proof fn lemma_cnf_preserves_eval(self, m: Map<char, bool>)
        ensures
            self.spec_cnf() matches Ok(g) ==> g.spec_eval(m) == self.spec_eval(m),
        decreases self,
    {
        match self {
            Operator::And(a, b) => {
                a.lemma_cnf_preserves_eval(m);
                b.lemma_cnf_preserves_eval(m);
            },
            Operator::Or(a, b) => {
                a.lemma_cnf_preserves_eval(m);
                b.lemma_cnf_preserves_eval(m);
                if a.spec_cnf() is Ok && b.spec_cnf() is Ok {
                    Operator::lemma_distribute_or_eval(
                        a.spec_cnf()->Ok_0,
                        b.spec_cnf()->Ok_0,
                        m,
                    );
                }
            },
            _ => {},
        }
    }

    /// Rewrites a negation-normal-form tree into conjunctive normal form;
    /// on a tree that is not in negation normal form it reports
    /// `InvalidInput`.
    pub fn to_conjunctive_normal_form(self) -> (r: Result<Operator, FormulaError>)
        ensures
            r == self.spec_cnf(),
        decreases self,
    {
        match self {
            Operator::Operand(_) => Ok(self),
            Operator::Not(c) => match &*c {
                Operator::Operand(_) => Ok(Operator::Not(c)),
                _ => Err(FormulaError::InvalidInput),
            },
            Operator::And(a, b) => {
                let x = a.to_conjunctive_normal_form()?;
                let y = b.to_conjunctive_normal_form()?;
                Ok(Operator::and(x, y))
            },
            Operator::Or(a, b) => {
                let x = a.to_conjunctive_normal_form()?;
                let y = b.to_conjunctive_normal_form()?;
                Ok(distribute_or(x, y))
            },
            _ => Err(FormulaError::InvalidInput),
        }
    }
}

/// Pushes a disjunction into whichever side is a conjunction, left first.
fn distribute_or(a: Operator, b: Operator) -> (r: Operator)
    ensures
        r == Operator::spec_distribute_or(a, b),
    decreases a.size() + b.size(),
{
    match a {
        Operator::And(c, d) => {
            let b2 = b.clone();
            Operator::and(distribute_or(*c, b), distribute_or(*d, b2))
        },
        a => match b {
            Operator::And(c, d) => {
                let a2 = a.clone();
                Operator::and(distribute_or(a, *c), distribute_or(a2, *d))
            },
            b => Operator::or(a, b),
        },
    }
}

/// The serialized conjunctive normal form is rearranged so that every `&`
/// stands at the end: the conjunction spine reads as one right-leaning run.
pub open spec fn spec_shift_ands(s: Seq<char>) -> Seq<char> {
    s.filter(|c: char| c != '&') + Seq::new(s.filter(|c: char| c == '&').len(), |i: int| '&')
}

/// Moves every `&` of the rendering to the end, keeping the other
/// characters in order.
fn shift_ands(s: &str) -> (r: String)
    ensures
        r@ == spec_shift_ands(s@),
{
    let n = s.unicode_len();
    let mut kept = String::new();
    let mut ands: usize = 0;
    let mut i: usize = 0;
    proof {
        reveal(Seq::filter);
        assert(s@.subrange(0, 0) =~= Seq::<char>::empty());
    }
    while i < n
        invariant
            0 <= i <= n,
            n == s@.len(),
            kept@ == s@.subrange(0, i as int).filter(|c: char| c != '&'),
            ands == s@.subrange(0, i as int).filter(|c: char| c == '&').len(),
        decreases n - i,
    {
        let c = s.get_char(i);
        proof {
            reveal(Seq::filter);
            assert(s@.subrange(0, i + 1).drop_last() =~= s@.subrange(0, i as int));
            assert(s@.subrange(0, i + 1).last() == c);
        }
        if c == '&' {
            ands = ands + 1;
            proof {
                s@.subrange(0, i as int).lemma_filter_len(|c: char| c == '&');
            }
        } else {
            push_char(&mut kept, c);
        }
        i = i + 1;
    }
    proof {
        assert(s@.subrange(0, n as int) =~= s@);
    }
    let mut j: usize = 0;
    let ghost tail = Seq::new(s@.filter(|c: char| c == '&').len(), |i: int| '&');
    while j < ands
        invariant
            0 <= j <= ands,
            ands == s@.filter(|c: char| c == '&').len(),
            tail == Seq::new(s@.filter(|c: char| c == '&').len(), |i: int| '&'),
            kept@ == s@.filter(|c: char| c != '&') + tail.subrange(0, j as int),
        decreases ands - j,
    {
        push_char(&mut kept, '&');
        proof {
            assert(tail.subrange(0, j + 1) =~= tail.subrange(0, j as int).push('&'));
        }
        j = j + 1;
    }
    proof {
        assert(tail.subrange(0, ands as int) =~= tail);
        assert(kept@ =~= spec_shift_ands(s@));
    }
    kept
}

/// Parses a formula, rewrites it through negation normal form into
/// conjunctive normal form and renders it back with the conjunction run at
/// the end; the empty formula stays empty.
pub fn conjunctive_normal_form(formula: &str) -> (r: Result<String, FormulaError>)
    ensures
        r matches Ok(s) ==> match Operator::spec_from_formula(formula@) {
            Ok(Some(t)) => t.spec_nnf().spec_cnf() matches Ok(g) && s@ == spec_shift_ands(
                Operator::spec_to_string(g),
            ),
            Ok(None) => s@ == Seq::<char>::empty(),
            Err(_) => false,
        },
        r matches Err(e) ==> Operator::spec_from_formula(formula@) == Err::<
            Option<Operator>,
            _,
        >(e),
{
    match Operator::from_formula(formula)? {
        Some(tree) => {
            let nnf = tree.to_negation_normal_form();
            proof {
                tree.lemma_nnf_shape();
                nnf.lemma_cnf_ok_iff_nnf();
            }
            match nnf.to_conjunctive_normal_form() {
                Ok(cnf) => Ok(shift_ands(cnf.to_string().as_str())),
                Err(_) => {
                    proof {
                        assert(false);
                    }
                    Err(FormulaError::InvalidInput)
                },
            }
        },
        None => Ok(String::new()),
    }
}

impl Operator {
    /// Semantic preservation: the negation normal form and, through it,
    /// the conjunctive normal form keep the truth value on every
    /// assignment.
    pub proof fn lemma_normal_forms_preserve_eval(self, m: Map<char, bool>)
        ensures
            self.spec_nnf().spec_eval(m) == self.spec_eval(m),
            self.spec_nnf().spec_cnf() matches Ok(g) && g.spec_eval(m) == self.spec_eval(m),
    {
        self.lemma_nnf_preserves_eval(m);
        self.lemma_nnf_shape();
        self.spec_nnf().lemma_cnf_ok_iff_nnf();
        self.spec_nnf().lemma_cnf_preserves_eval(m);
    }
}

} // verus!
