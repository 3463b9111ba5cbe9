//! The shared recursive formula tree, its constructors, the postfix parser
//! and the postfix serializer.

use vstd::prelude::*;

verus! {

/// A boolean formula over single-character variables.
///
/// Each binary node exclusively owns its two children; rewrites that need a
/// subtree on both sides of a new node duplicate it by value.
#[derive(Debug)]
pub enum Operator {
    And(Box<Operator>, Box<Operator>),
    Or(Box<Operator>, Box<Operator>),
    Xor(Box<Operator>, Box<Operator>),
    Implies(Box<Operator>, Box<Operator>),
    Equals(Box<Operator>, Box<Operator>),
    Not(Box<Operator>),
    Operand(char),
}

/// The failures the engine can report: the parser popping an empty stack,
/// a parse ending with several loose operands, a token that is neither a
/// variable nor an operator, a rewrite or evaluation applied to a tree of
/// the wrong shape, a variable with no bound value, and a set evaluation
/// given the wrong number of sets.
#[derive(Debug, Clone, Copy, PartialEq, Eq, Structural)]
pub enum FormulaError {
    StackUnderflow,
    TooManyOperands,
    InvalidOperatorToken,
    InvalidInput,
    UnboundVariable,
    ArityMismatch,
}

/// What `char::is_alphabetic` returns; it depends on the character alone.
pub uninterp spec fn is_alpha(c: char) -> bool;

/// Relies on char::is_alphabetic: true exactly on characters with the
/// Unicode `Alphabetic` property; within ASCII those are the letters.
pub assume_specification[ char::is_alphabetic ](c: char) -> (r: bool)
    ensures
        r == is_alpha(c),
        ('A' <= c && c <= 'Z') || ('a' <= c && c <= 'z') ==> r,
        (c as u32) < 128 && !(('A' <= c && c <= 'Z') || ('a' <= c && c <= 'z')) ==> !r,
;

/// The first character of `char::to_uppercase`; it depends on the
/// character alone.
pub uninterp spec fn upper_of(c: char) -> char;

/// Relies on char::to_uppercase: its iterator yields at least one character,
/// ASCII lowercase letters map to the corresponding capital, and every other
/// ASCII character maps to itself.
#[verifier::external_body]
fn to_upper_char(c: char) -> (r: char)
    ensures
        r == upper_of(c),
        'a' <= c && c <= 'z' ==> r as u32 == c as u32 - 32,
        (c as u32) < 128 && !('a' <= c && c <= 'z') ==> r == c,
{
    c.to_uppercase().next().unwrap()
}

/// Relies on String::push: appends exactly the given character.
#[verifier::external_body]
pub(crate) fn push_char(s: &mut String, c: char)
    ensures
        final(s)@ == old(s)@.push(c),
{
    s.push(c);
}

impl Operator {
    /// Number of nodes in the tree; the measure for the rewrites.
    pub open spec fn size(self) -> nat
        decreases self,
    {
        match self {
            Operator::And(a, b) => 1 + a.size() + b.size(),
            Operator::Or(a, b) => 1 + a.size() + b.size(),
            Operator::Xor(a, b) => 1 + a.size() + b.size(),
            Operator::Implies(a, b) => 1 + a.size() + b.size(),
            Operator::Equals(a, b) => 1 + a.size() + b.size(),
            Operator::Not(a) => 1 + a.size(),
            Operator::Operand(_) => 1,
        }
    }

    /// The truth value of the tree once each variable is read from `m`.
    /// `Implies` is material implication and `Xor` is inequality.
    pub open spec fn spec_eval(self, m: Map<char, bool>) -> bool
        decreases self,
    {
        match self {
            Operator::And(a, b) => a.spec_eval(m) && b.spec_eval(m),
            Operator::Or(a, b) => a.spec_eval(m) || b.spec_eval(m),
            Operator::Xor(a, b) => a.spec_eval(m) != b.spec_eval(m),
            Operator::Implies(a, b) => !a.spec_eval(m) || b.spec_eval(m),
            Operator::Equals(a, b) => a.spec_eval(m) == b.spec_eval(m),
            Operator::Not(a) => !a.spec_eval(m),
            Operator::Operand(c) => m[c],
        }
    }

    /// The set of variable symbols occurring in the tree.
    pub open spec fn spec_vars(self) -> Set<char>
        decreases self,
    {
        match self {
            Operator::And(a, b) => a.spec_vars().union(b.spec_vars()),
            Operator::Or(a, b) => a.spec_vars().union(b.spec_vars()),
            Operator::Xor(a, b) => a.spec_vars().union(b.spec_vars()),
            Operator::Implies(a, b) => a.spec_vars().union(b.spec_vars()),
            Operator::Equals(a, b) => a.spec_vars().union(b.spec_vars()),
            Operator::Not(a) => a.spec_vars(),
            Operator::Operand(c) => set![c],
        }
    }

    /// The truth value of the tree depends only on the variables it
    /// mentions.
    pub proof fn lemma_eval_depends_on_vars(self, m1: Map<char, bool>, m2: Map<char, bool>)
        requires
            forall|c: char| self.spec_vars().contains(c) ==> m1[c] == m2[c],
        ensures
            self.spec_eval(m1) == self.spec_eval(m2),
        decreases self,
    {
        match self {
            Operator::And(a, b) => {
                a.lemma_eval_depends_on_vars(m1, m2);
                b.lemma_eval_depends_on_vars(m1, m2);
            },
            Operator::Or(a, b) => {
                a.lemma_eval_depends_on_vars(m1, m2);
                b.lemma_eval_depends_on_vars(m1, m2);
            },
            Operator::Xor(a, b) => {
                a.lemma_eval_depends_on_vars(m1, m2);
                b.lemma_eval_depends_on_vars(m1, m2);
            },
            Operator::Implies(a, b) => {
                a.lemma_eval_depends_on_vars(m1, m2);
                b.lemma_eval_depends_on_vars(m1, m2);
            },
            Operator::Equals(a, b) => {
                a.lemma_eval_depends_on_vars(m1, m2);
                b.lemma_eval_depends_on_vars(m1, m2);
            },
            Operator::Not(a) => {
                a.lemma_eval_depends_on_vars(m1, m2);
            },
            Operator::Operand(_) => {},
        }
    }

    /// A variable leaf; the symbol is case-normalized to uppercase.
    pub open spec fn spec_operand(a: char) -> Operator {
        Operator::Operand(upper_of(a))
    }

    /// Builds a variable leaf; besides the symbol's uppercased form, the
    /// contract records how the case fold acts on ASCII, so callers can
    /// pin the symbol of any ASCII variable.
    pub fn operand(a: char) -> (r: Operator)
        ensures
            r == Operator::spec_operand(a),
            'a' <= a && a <= 'z' ==> upper_of(a) as u32 == a as u32 - 32,
            (a as u32) < 128 && !('a' <= a && a <= 'z') ==> upper_of(a) == a,
    {
        Operator::Operand(to_upper_char(a))
    }

    /// The binary node a given operator token builds, or the error for an
    /// unrecognized token.
    pub open spec fn spec_with_two(new: char, a: Operator, b: Operator) -> Result<
        Operator,
        FormulaError,
    > {
        if new == '&' {
            Ok(Operator::And(Box::new(a), Box::new(b)))
        } else if new == '|' {
            Ok(Operator::Or(Box::new(a), Box::new(b)))
        } else if new == '^' {
            Ok(Operator::Xor(Box::new(a), Box::new(b)))
        } else if new == '>' {
            Ok(Operator::Implies(Box::new(a), Box::new(b)))
        } else if new == '=' {
            Ok(Operator::Equals(Box::new(a), Box::new(b)))
        } else {
            Err(FormulaError::InvalidOperatorToken)
        }
    }

    pub fn with_two(new: char, a: Operator, b: Operator) -> (r: Result<Operator, FormulaError>)
        ensures
            r == Operator::spec_with_two(new, a, b),
    {
        match new {
            '&' => Ok(Operator::And(Box::new(a), Box::new(b))),
            '|' => Ok(Operator::Or(Box::new(a), Box::new(b))),
            '^' => Ok(Operator::Xor(Box::new(a), Box::new(b))),
            '>' => Ok(Operator::Implies(Box::new(a), Box::new(b))),
            '=' => Ok(Operator::Equals(Box::new(a), Box::new(b))),
            _ => Err(FormulaError::InvalidOperatorToken),
        }
    }

    pub fn and(a: Operator, b: Operator) -> (r: Operator)
        ensures
            r == Operator::And(Box::new(a), Box::new(b)),
    {
        Operator::And(Box::new(a), Box::new(b))
    }

    pub fn or(a: Operator, b: Operator) -> (r: Operator)
        ensures
            r == Operator::Or(Box::new(a), Box::new(b)),
    {
        Operator::Or(Box::new(a), Box::new(b))
    }

    pub fn not(a: Operator) -> (r: Operator)
        ensures
            r == Operator::Not(Box::new(a)),
    {
        Operator::Not(Box::new(a))
    }

    /// One step of the postfix parse: push a variable, or pop what the
    /// token's node needs and push the node.
    pub open spec fn spec_push_token(stack: Seq<Operator>, t: char) -> Result<
        Seq<Operator>,
        FormulaError,
    > {
        if is_alpha(t) {
            Ok(stack.push(Operator::spec_operand(t)))
        } else if t == '!' {
            if stack.len() == 0 {
                Err(FormulaError::StackUnderflow)
            } else {
                Ok(stack.drop_last().push(Operator::Not(Box::new(stack.last()))))
            }
        } else {
            if stack.len() < 2 {
                Err(FormulaError::StackUnderflow)
            } else {
                match Operator::spec_with_two(t, stack[stack.len() - 2], stack.last()) {
                    Ok(node) => Ok(stack.drop_last().drop_last().push(node)),
                    Err(e) => Err(e),
                }
            }
        }
    }

    /// The parse stack after reading a whole token sequence.
    pub open spec fn spec_parse_tokens(s: Seq<char>) -> Result<Seq<Operator>, FormulaError>
        decreases s.len(),
    {
        if s.len() == 0 {
            Ok(Seq::empty())
        } else {
            match Operator::spec_parse_tokens(s.drop_last()) {
                Ok(stack) => Operator::spec_push_token(stack, s.last()),
                Err(e) => Err(e),
            }
        }
    }

    /// The parse of a whole formula: `None` for the empty formula, the tree
    /// when exactly one remains, and the error otherwise.
    pub open spec fn spec_from_formula(s: Seq<char>) -> Result<Option<Operator>, FormulaError> {
        match Operator::spec_parse_tokens(s) {
            Ok(stack) => if stack.len() > 1 {
                Err(FormulaError::TooManyOperands)
            } else if stack.len() == 1 {
                Ok(Some(stack[0]))
            } else {
                Ok(None)
            },
            Err(e) => Err(e),
        }
    }

    /// Once a prefix fails to parse, the whole string fails the same way.
    proof fn lemma_parse_error_persists(s: Seq<char>, j: int)
        requires
            0 <= j <= s.len(),
            Operator::spec_parse_tokens(s.subrange(0, j)) is Err,
        ensures
            Operator::spec_parse_tokens(s) == Operator::spec_parse_tokens(s.subrange(0, j)),
        decreases s.len() - j,
    {
        if j == s.len() {
            assert(s.subrange(0, j) =~= s);
        } else {
            assert(s.subrange(0, j + 1).drop_last() =~= s.subrange(0, j));
            Operator::lemma_parse_error_persists(s, j + 1);
        }
    }

    /// Parses a postfix formula into a tree, `Ok(None)` for the empty
    /// formula.
    pub fn from_formula(formula: &str) -> (r: Result<Option<Operator>, FormulaError>)
        ensures
            r == Operator::spec_from_formula(formula@),
    {
        let n = formula.unicode_len();
        let mut stack: Vec<Operator> = Vec::new();
        let mut i: usize = 0;
        while i < n
            invariant
                0 <= i <= n,
                n == formula@.len(),
                Operator::spec_parse_tokens(formula@.subrange(0, i as int)) == Ok::<_,
                FormulaError>(stack@),
            decreases n - i,
        {
            let token = formula.get_char(i);
            assert(formula@.subrange(0, i + 1).drop_last() =~= formula@.subrange(0, i as int));
            assert(formula@.subrange(0, i + 1).last() == token);
            if token.is_alphabetic() {
                stack.push(Operator::operand(token));
            } else if token == '!' {
                match stack.pop() {
                    Some(top) => {
                        stack.push(Operator::not(top));
                    },
                    None => {
                        proof {
                            Operator::lemma_parse_error_persists(formula@, i + 1);
                        }
                        return Err(FormulaError::StackUnderflow);
                    },
                }
            } else {
                if stack.len() < 2 {
                    proof {
                        Operator::lemma_parse_error_persists(formula@, i + 1);
                    }
                    return Err(FormulaError::StackUnderflow);
                }
                let right = stack.pop().unwrap();
                let left = stack.pop().unwrap();
                match Operator::with_two(token, left, right) {
                    Ok(node) => {
                        stack.push(node);
                    },
                    Err(e) => {
                        proof {
                            Operator::lemma_parse_error_persists(formula@, i + 1);
                        }
                        return Err(e);
                    },
                }
            }
            proof {
                assert(Operator::spec_parse_tokens(formula@.subrange(0, i + 1)) == Ok::<_,
                FormulaError>(stack@));
            }
            i = i + 1;
        }
        assert(formula@.subrange(0, n as int) =~= formula@);
        if stack.len() > 1 {
            return Err(FormulaError::TooManyOperands);
        }
        match stack.pop() {
            Some(tree) => Ok(Some(tree)),
            None => Ok(None),
        }
    }

    /// The postfix rendering of a tree: children first, then the node's
    /// token.
    pub open spec fn spec_to_string(f: Operator) -> Seq<char>
        decreases f,
    {
        match f {
            Operator::And(a, b) => Operator::spec_to_string(*a) + Operator::spec_to_string(*b)
                + seq!['&'],
            Operator::Or(a, b) => Operator::spec_to_string(*a) + Operator::spec_to_string(*b)
                + seq!['|'],
            Operator::Xor(a, b) => Operator::spec_to_string(*a) + Operator::spec_to_string(*b)
                + seq!['^'],
            Operator::Implies(a, b) => Operator::spec_to_string(*a) + Operator::spec_to_string(*b)
                + seq!['>'],
            Operator::Equals(a, b) => Operator::spec_to_string(*a) + Operator::spec_to_string(*b)
                + seq!['='],
            Operator::Not(a) => Operator::spec_to_string(*a) + seq!['!'],
            Operator::Operand(c) => seq![c],
        }
    }

    /// Renders the tree back to postfix notation.
    pub fn to_string(&self) -> (r: String)
        ensures
            r@ == Operator::spec_to_string(*self),
        decreases self.size(),
    {
        match self {
            Operator::And(a, b) => {
                let mut s = a.to_string();
                s.append(b.to_string().as_str());
                push_char(&mut s, '&');
                s
            },
            Operator::Or(a, b) => {
                let mut s = a.to_string();
                s.append(b.to_string().as_str());
                push_char(&mut s, '|');
                s
            },
            Operator::Xor(a, b) => {
                let mut s = a.to_string();
                s.append(b.to_string().as_str());
                push_char(&mut s, '^');
                s
            },
            Operator::Implies(a, b) => {
                let mut s = a.to_string();
                s.append(b.to_string().as_str());
                push_char(&mut s, '>');
                s
            },
            Operator::Equals(a, b) => {
                let mut s = a.to_string();
                s.append(b.to_string().as_str());
                push_char(&mut s, '=');
                s
            },
            Operator::Not(a) => {
                let mut s = a.to_string();
                push_char(&mut s, '!');
                s
            },
            Operator::Operand(c) => {
                let mut s = String::new();
                push_char(&mut s, *c);
                s
            },
        }
    }
}

impl PartialEq for Operator {
    /// Structural equality, usable in verified code.
    fn eq(&self, other: &Self) -> bool
        decreases self.size(),
    {
        match (self, other) {
            (Operator::And(a, b), Operator::And(c, d)) => **a == **c && **b == **d,
            (Operator::Or(a, b), Operator::Or(c, d)) => **a == **c && **b == **d,
            (Operator::Xor(a, b), Operator::Xor(c, d)) => **a == **c && **b == **d,
            (Operator::Implies(a, b), Operator::Implies(c, d)) => **a == **c && **b == **d,
            (Operator::Equals(a, b), Operator::Equals(c, d)) => **a == **c && **b == **d,
            (Operator::Not(a), Operator::Not(c)) => **a == **c,
            (Operator::Operand(a), Operator::Operand(c)) => *a == *c,
            _ => false,
        }
    }
}

impl vstd::std_specs::cmp::PartialEqSpecImpl for Operator {
    open spec fn obeys_eq_spec() -> bool {
        true
    }

    open spec fn eq_spec(&self, other: &Operator) -> bool {
        *self == *other
    }
}

impl Clone for Operator {
    /// A deep structural copy.
    fn clone(&self) -> (res: Self)
        ensures
            res == *self,
        decreases self.size(),
    {
        match self {
            Operator::And(a, b) => Operator::And(Box::new((**a).clone()), Box::new((**b).clone())),
            Operator::Or(a, b) => Operator::Or(Box::new((**a).clone()), Box::new((**b).clone())),
            Operator::Xor(a, b) => Operator::Xor(Box::new((**a).clone()), Box::new((**b).clone())),
            Operator::Implies(a, b) => Operator::Implies(
                Box::new((**a).clone()),
                Box::new((**b).clone()),
            ),
            Operator::Equals(a, b) => Operator::Equals(
                Box::new((**a).clone()),
                Box::new((**b).clone()),
            ),
            Operator::Not(a) => Operator::Not(Box::new((**a).clone())),
            Operator::Operand(c) => Operator::Operand(*c),
        }
    }
}

/// The serializations of the parse stack, in stack order.
pub open spec fn spec_stack_strings(stack: Seq<Operator>) -> Seq<char>
    decreases stack.len(),
{
    if stack.len() == 0 {
        Seq::empty()
    } else {
        spec_stack_strings(stack.drop_last()) + Operator::spec_to_string(stack.last())
    }
}

impl Operator {
    /// While parsing a formula whose variables are already uppercase, the
    /// serializations of the stacked trees, read left to right, always
    /// spell the part of the formula read so far.
    proof fn lemma_parse_stack_spells_input(s: Seq<char>)
        requires
            forall|i: int| 0 <= i < s.len() && is_alpha(#[trigger] s[i]) ==> upper_of(s[i]) == s[i],
        ensures
            Operator::spec_parse_tokens(s) matches Ok(stack) ==> spec_stack_strings(stack) == s,
        decreases s.len(),
    {
        if s.len() == 0 {
            if Operator::spec_parse_tokens(s) is Ok {
                let stack = Operator::spec_parse_tokens(s)->Ok_0;
                assert(spec_stack_strings(stack) =~= s);
            }
        } else {
            let prefix = s.drop_last();
            let c = s.last();
            assert forall|i: int|
                0 <= i < prefix.len() && is_alpha(#[trigger] prefix[i]) implies upper_of(prefix[i])
                == prefix[i] by {
                assert(prefix[i] == s[i]);
            }
            Operator::lemma_parse_stack_spells_input(prefix);
            if Operator::spec_parse_tokens(s) is Ok {
                let stack = Operator::spec_parse_tokens(s)->Ok_0;
                let prev = Operator::spec_parse_tokens(prefix)->Ok_0;
                assert(spec_stack_strings(prev) == prefix);
                if is_alpha(c) {
                    assert(s[s.len() - 1] == c);
                    assert(upper_of(c) == c);
                    assert(stack == prev.push(Operator::spec_operand(c)));
                    assert(stack.drop_last() =~= prev);
                    assert(Operator::spec_to_string(Operator::spec_operand(c)) =~= seq![c]);
                    assert(spec_stack_strings(stack) =~= prefix + seq![c]);
                    assert(prefix + seq![c] =~= s);
                } else if c == '!' {
                    let top = prev.last();
                    assert(stack == prev.drop_last().push(Operator::Not(Box::new(top))));
                    assert(stack.drop_last() =~= prev.drop_last());
                    assert(spec_stack_strings(prev) == spec_stack_strings(prev.drop_last())
                        + Operator::spec_to_string(top));
                    assert(spec_stack_strings(stack) =~= prefix + seq!['!']);
                    assert(prefix + seq!['!'] =~= s);
                } else {
                    let right = prev.last();
                    let left = prev[prev.len() - 2];
                    let node = Operator::spec_with_two(c, left, right)->Ok_0;
                    assert(stack == prev.drop_last().drop_last().push(node));
                    assert(stack.drop_last() =~= prev.drop_last().drop_last());
                    assert(prev.drop_last().last() == left);
                    assert(prev.drop_last().drop_last() =~= prev.drop_last().drop_last());
                    assert(spec_stack_strings(prev) == spec_stack_strings(prev.drop_last())
                        + Operator::spec_to_string(right));
                    assert(spec_stack_strings(prev.drop_last()) == spec_stack_strings(
                        prev.drop_last().drop_last(),
                    ) + Operator::spec_to_string(left));
                    assert(Operator::spec_to_string(node) == Operator::spec_to_string(left)
                        + Operator::spec_to_string(right) + seq![c]);
                    assert(spec_stack_strings(stack) =~= prefix + seq![c]);
                    assert(prefix + seq![c] =~= s);
                }
            }
        }
    }


    /// Every variable of a parsed tree is the uppercased form of some
    /// alphabetic character of the input.
    pub proof fn lemma_parse_stack_vars(s: Seq<char>)
        ensures
            Operator::spec_parse_tokens(s) is Ok ==> forall|k: int, c: char|
                #![trigger Operator::spec_parse_tokens(s)->Ok_0[k].spec_vars().contains(c)]
                0 <= k < Operator::spec_parse_tokens(s)->Ok_0.len() && Operator::spec_parse_tokens(
                    s,
                )->Ok_0[k].spec_vars().contains(c) ==> exists|i: int|
                    0 <= i < s.len() && is_alpha(#[trigger] s[i]) && upper_of(s[i]) == c,
        decreases s.len(),
    {
        if s.len() == 0 {
        } else {
            let prefix = s.drop_last();
            let tok = s.last();
            Operator::lemma_parse_stack_vars(prefix);
            if Operator::spec_parse_tokens(s) is Ok {
                let stack = Operator::spec_parse_tokens(s)->Ok_0;
                let prev = Operator::spec_parse_tokens(prefix)->Ok_0;
                assert forall|k: int, c: char|
                    #![trigger stack[k].spec_vars().contains(c)]
                    0 <= k < stack.len() && stack[k].spec_vars().contains(c) implies exists|i: int|
                    0 <= i < s.len() && is_alpha(#[trigger] s[i]) && upper_of(s[i]) == c by {
                    if is_alpha(tok) {
                        if k < stack.len() - 1 {
                            assert(stack[k] == prev[k]);
                            let i = choose|i: int|
                                0 <= i < prefix.len() && is_alpha(#[trigger] prefix[i]) && upper_of(
                                    prefix[i],
                                ) == c;
                            assert(s[i] == prefix[i]);
                        } else {
                            assert(stack[k] == Operator::spec_operand(tok));
                            assert(stack[k].spec_vars() == set![upper_of(tok)]);
                            assert(c == upper_of(tok));
                            assert(s[s.len() - 1] == tok);
                        }
                    } else if tok == '!' {
                        if k < stack.len() - 1 {
                            assert(stack[k] == prev[k]);
                            let i = choose|i: int|
                                0 <= i < prefix.len() && is_alpha(#[trigger] prefix[i]) && upper_of(
                                    prefix[i],
                                ) == c;
                            assert(s[i] == prefix[i]);
                        } else {
                            let top = prev.last();
                            assert(stack[k] == Operator::Not(Box::new(top)));
                            assert(stack[k].spec_vars() == top.spec_vars());
                            assert(prev[prev.len() - 1] == top);
                            let i = choose|i: int|
                                0 <= i < prefix.len() && is_alpha(#[trigger] prefix[i]) && upper_of(
                                    prefix[i],
                                ) == c;
                            assert(s[i] == prefix[i]);
                        }
                    } else {
                        let right = prev.last();
                        let left = prev[prev.len() - 2];
                        let node = Operator::spec_with_two(tok, left, right)->Ok_0;
                        if k < stack.len() - 1 {
                            assert(stack[k] == prev[k]);
                            let i = choose|i: int|
                                0 <= i < prefix.len() && is_alpha(#[trigger] prefix[i]) && upper_of(
                                    prefix[i],
                                ) == c;
                            assert(s[i] == prefix[i]);
                        } else {
                            assert(stack[k] == node);
                            assert(node.spec_vars() == left.spec_vars().union(right.spec_vars()));
                            assert(prev[prev.len() - 1] == right);
                            if left.spec_vars().contains(c) {
                                let i = choose|i: int|
                                    0 <= i < prefix.len() && is_alpha(#[trigger] prefix[i])
                                        && upper_of(prefix[i]) == c;
                                assert(s[i] == prefix[i]);
                            } else {
                                assert(right.spec_vars().contains(c));
                                let i = choose|i: int|
                                    0 <= i < prefix.len() && is_alpha(#[trigger] prefix[i])
                                        && upper_of(prefix[i]) == c;
                                assert(s[i] == prefix[i]);
                            }
                        }
                    }
                }
            }
        }
    }

    /// Round trip: a formula that parses to a tree is spelled back by the
    /// serializer, character for character, provided its variables are
    /// already uppercase (parsing uppercases every variable).
    pub proof fn lemma_round_trip(s: Seq<char>, t: Operator)
        requires
            Operator::spec_from_formula(s) == Ok::<Option<Operator>, FormulaError>(Some(t)),
            forall|i: int| 0 <= i < s.len() && is_alpha(#[trigger] s[i]) ==> upper_of(s[i]) == s[i],
        ensures
            Operator::spec_to_string(t) == s,
    {
        Operator::lemma_parse_stack_spells_input(s);
        let stack = Operator::spec_parse_tokens(s)->Ok_0;
        assert(stack.len() == 1 && stack[0] == t);
        assert(stack.drop_last() =~= Seq::<Operator>::empty());
        assert(stack.last() == t);
        assert(spec_stack_strings(Seq::<Operator>::empty()) =~= Seq::<char>::empty());
        assert(spec_stack_strings(stack) == spec_stack_strings(Seq::<Operator>::empty())
            + Operator::spec_to_string(t));
        assert(Seq::<char>::empty() + Operator::spec_to_string(t) =~= Operator::spec_to_string(t));
    }
}

} // verus!
