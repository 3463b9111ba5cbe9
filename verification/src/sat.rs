//! Satisfiability: clause extraction from a conjunctive-normal-form tree
//! and a DPLL backtracking search with unit propagation.

use vstd::prelude::*;

use crate::operator::{FormulaError, Operator};

verus! {

/// The clause sequences a vector of clause vectors stands for.
pub open spec fn clauses_of(v: Seq<Vec<Operator>>) -> Seq<Seq<Operator>> {
    v.map_values(|c: Vec<Operator>| c@)
}

/// Some literal of the clause is true under `m`.
pub open spec fn clause_sat(m: Map<char, bool>, c: Seq<Operator>) -> bool {
    exists|i: int| 0 <= i < c.len() && (#[trigger] c[i]).spec_eval(m)
}

/// Every clause has a true literal under `m`.
pub open spec fn clauses_sat(m: Map<char, bool>, cs: Seq<Seq<Operator>>) -> bool {
    forall|i: int| 0 <= i < cs.len() ==> clause_sat(m, #[trigger] cs[i])
}

/// Some assignment makes every clause true.
pub open spec fn spec_satisfiable(cs: Seq<Seq<Operator>>) -> bool {
    exists|m: Map<char, bool>| clauses_sat(m, cs)
}

/// Every entry of the clause is a variable or a negated variable.
pub open spec fn clause_literals_ok(c: Seq<Operator>) -> bool {
    forall|i: int| 0 <= i < c.len() ==> (#[trigger] c[i]).is_literal()
}

/// Every entry of every clause is a variable or a negated variable.
pub open spec fn clauses_literals_ok(cs: Seq<Seq<Operator>>) -> bool {
    forall|i: int| 0 <= i < cs.len() ==> clause_literals_ok(#[trigger] cs[i])
}

/// The number of literal occurrences over all clauses; the measure of the
/// search.
pub open spec fn total_lits(cs: Seq<Seq<Operator>>) -> nat
    decreases cs.len(),
{
    if cs.len() == 0 {
        0
    } else {
        total_lits(cs.drop_last()) + cs.last().len()
    }
}

/// The clause with every occurrence of `bad` removed.
pub open spec fn spec_strip(c: Seq<Operator>, bad: Operator) -> Seq<Operator> {
    c.filter(|x: Operator| x != bad)
}

/// What stripping keeps: elements of the clause other than `bad`, all of
/// them, and strictly fewer entries when `bad` occurred.
pub proof fn lemma_strip_props(c: Seq<Operator>, bad: Operator)
    ensures
        spec_strip(c, bad).len() <= c.len(),
        forall|i: int|
            0 <= i < spec_strip(c, bad).len() ==> c.contains(#[trigger] spec_strip(c, bad)[i])
                && spec_strip(c, bad)[i] != bad,
        forall|i: int| 0 <= i < c.len() && c[i] != bad ==> spec_strip(c, bad).contains(
            #[trigger] c[i],
        ),
        c.contains(bad) ==> spec_strip(c, bad).len() < c.len(),
    decreases c.len(),
{
    reveal(Seq::filter);
    if c.len() > 0 {
        let prev = c.drop_last();
        lemma_strip_props(prev, bad);
        assert forall|i: int|
            0 <= i < spec_strip(c, bad).len() implies c.contains(#[trigger] spec_strip(c, bad)[i])
            && spec_strip(c, bad)[i] != bad by {
            if i < spec_strip(prev, bad).len() {
                assert(spec_strip(c, bad)[i] == spec_strip(prev, bad)[i]);
                let j = choose|j: int| 0 <= j < prev.len() && prev[j] == spec_strip(prev, bad)[i];
                assert(c[j] == spec_strip(c, bad)[i]);
            } else {
                assert(spec_strip(c, bad)[i] == c.last());
            }
        }
        assert forall|i: int| 0 <= i < c.len() && c[i] != bad implies spec_strip(c, bad).contains(
            #[trigger] c[i],
        ) by {
            if i < c.len() - 1 {
                assert(prev[i] == c[i]);
                assert(spec_strip(prev, bad).contains(c[i]));
                let j = choose|j: int|
                    0 <= j < spec_strip(prev, bad).len() && spec_strip(prev, bad)[j] == c[i];
                assert(spec_strip(c, bad)[j] == c[i]);
            } else {
                assert(spec_strip(c, bad)[spec_strip(c, bad).len() - 1] == c.last());
            }
        }
        if c.contains(bad) {
            let j = choose|j: int| 0 <= j < c.len() && c[j] == bad;
            if j < c.len() - 1 {
                assert(prev[j] == bad);
                assert(prev.contains(bad));
            }
        }
    }
}

impl Operator {
    /// The complementary literal: `Not` is removed from a negation and put
    /// around anything else.
    pub open spec fn spec_negate(self) -> Operator {
        match self {
            Operator::Not(inner) => *inner,
            _ => Operator::Not(Box::new(self)),
        }
    }

    /// Builds the complementary literal.
    pub fn negate(&self) -> (r: Operator)
        ensures
            r == self.spec_negate(),
    {
        match self {
            Operator::Not(inner) => (**inner).clone(),
            _ => Operator::not(self.clone()),
        }
    }

    /// The variable a literal speaks of.
    pub open spec fn spec_atom(self) -> char
        recommends
            self.is_literal(),
    {
        match self {
            Operator::Operand(ch) => ch,
            Operator::Not(c) => match *c {
                Operator::Operand(ch) => ch,
                _ => arbitrary(),
            },
            _ => arbitrary(),
        }
    }

    /// Whether the literal asks its variable to be true.
    pub open spec fn spec_polarity(self) -> bool {
        self matches Operator::Operand(_)
    }

    /// The literals of a disjunction spine, left to right; any other node
    /// is a single entry.
    pub open spec fn spec_literals(self) -> Seq<Operator>
        decreases self,
    {
        match self {
            Operator::Or(a, b) => a.spec_literals() + b.spec_literals(),
            _ => seq![self],
        }
    }

    /// The clauses of a conjunction spine, left to right; any other node is
    /// a single clause of its literals.
    pub open spec fn spec_clauses(self) -> Seq<Seq<Operator>>
        decreases self,
    {
        match self {
            Operator::And(a, b) => a.spec_clauses() + b.spec_clauses(),
            _ => seq![self.spec_literals()],
        }
    }

    /// Splits a disjunction spine into its literals.
    pub fn extract_literals(&self) -> (r: Vec<Operator>)
        ensures
            r@ == self.spec_literals(),
        decreases self.size(),
    {
        match self {
            Operator::Or(a, b) => {
                let mut left = a.extract_literals();
                let mut right = b.extract_literals();
                left.append(&mut right);
                left
            },
            _ => vec![self.clone()],
        }
    }

    /// Splits a conjunction spine into its clauses.
    pub fn extract_clauses(&self) -> (r: Vec<Vec<Operator>>)
        ensures
            clauses_of(r@) == self.spec_clauses(),
        decreases self.size(),
    {
        match self {
            Operator::And(a, b) => {
                let mut left = a.extract_clauses();
                let mut right = b.extract_clauses();
                proof {
                    assert(clauses_of(left@ + right@) =~= clauses_of(left@) + clauses_of(right@));
                }
                left.append(&mut right);
                left
            },
            _ => {
                let r = vec![self.extract_literals()];
                proof {
                    assert(clauses_of(r@) =~= seq![self.spec_literals()]);
                }
                r
            },
        }
    }

    /// From a disjunction of literals, every extracted entry is a literal.
    pub proof fn lemma_disjunction_literals(self)
        requires
            self.is_disjunction(),
        ensures
            clause_literals_ok(self.spec_literals()),
        decreases self,
    {
        match self {
            Operator::Or(a, b) => {
                a.lemma_disjunction_literals();
                b.lemma_disjunction_literals();
                assert forall|i: int| 0 <= i < self.spec_literals().len() implies (
                #[trigger] self.spec_literals()[i]).is_literal() by {
                    if i < a.spec_literals().len() {
                        assert(self.spec_literals()[i] == a.spec_literals()[i]);
                    } else {
                        assert(self.spec_literals()[i] == b.spec_literals()[i
                            - a.spec_literals().len()]);
                    }
                }
            },
            _ => {},
        }
    }

    /// From a conjunctive-normal-form tree, clause extraction yields only
    /// clauses of literals: variables and negated variables, never nested
    /// structure.
    pub proof fn lemma_cnf_clauses_are_literal(self)
        requires
            self.is_cnf(),
        ensures
            clauses_literals_ok(self.spec_clauses()),
        decreases self,
    {
        match self {
            Operator::And(a, b) => {
                a.lemma_cnf_clauses_are_literal();
                b.lemma_cnf_clauses_are_literal();
                assert forall|i: int| 0 <= i < self.spec_clauses().len() implies clause_literals_ok(
                    #[trigger] self.spec_clauses()[i],
                ) by {
                    if i < a.spec_clauses().len() {
                        assert(self.spec_clauses()[i] == a.spec_clauses()[i]);
                    } else {
                        assert(self.spec_clauses()[i] == b.spec_clauses()[i
                            - a.spec_clauses().len()]);
                    }
                }
            },
            _ => {
                self.lemma_disjunction_literals();
            },
        }
    }
}

/// The assignment `m` with the literal's own variable set the way the
/// literal asks.
pub open spec fn with_literal(m: Map<char, bool>, l: Operator) -> Map<char, bool> {
    m.insert(l.spec_atom(), l.spec_polarity())
}

/// The complementary literal always has the opposite truth value.
pub proof fn lemma_negate_eval(l: Operator, m: Map<char, bool>)
    ensures
        l.spec_negate().spec_eval(m) == !l.spec_eval(m),
{
}

/// Facts about complementing a literal: the complement is a literal of the
/// same variable and opposite polarity, distinct from the original, and
/// complementing twice gives the original back.
pub proof fn lemma_literal_negate(l: Operator)
    requires
        l.is_literal(),
    ensures
        l.spec_negate().is_literal(),
        l.spec_negate().spec_negate() == l,
        l.spec_negate().spec_atom() == l.spec_atom(),
        l.spec_negate().spec_polarity() == !l.spec_polarity(),
        l.spec_negate() != l,
{
}

/// A literal is true exactly when its variable carries its polarity.
pub proof fn lemma_literal_eval(l: Operator, m: Map<char, bool>)
    requires
        l.is_literal(),
    ensures
        l.spec_eval(m) == (m[l.spec_atom()] == l.spec_polarity()),
{
    match l {
        Operator::Operand(_) => {},
        Operator::Not(c) => {
            assert(l.spec_atom() == c.spec_atom());
            assert(l.spec_eval(m) == !c.spec_eval(m));
        },
        _ => {},
    }
}

/// Two literals of the same variable are equal or complementary.
pub proof fn lemma_same_atom(x: Operator, l: Operator)
    requires
        x.is_literal(),
        l.is_literal(),
        x.spec_atom() == l.spec_atom(),
    ensures
        x == l || x == l.spec_negate(),
{
}

/// A concatenated clause has a true literal exactly when one part does.
pub proof fn lemma_clause_sat_concat(m: Map<char, bool>, x: Seq<Operator>, y: Seq<Operator>)
    ensures
        clause_sat(m, x + y) == (clause_sat(m, x) || clause_sat(m, y)),
{
    if clause_sat(m, x + y) {
        let i = choose|i: int| 0 <= i < (x + y).len() && (#[trigger] (x + y)[i]).spec_eval(m);
        if i < x.len() {
            assert((x + y)[i] == x[i]);
        } else {
            assert((x + y)[i] == y[i - x.len()]);
        }
    }
    if clause_sat(m, x) {
        let i = choose|i: int| 0 <= i < x.len() && (#[trigger] x[i]).spec_eval(m);
        assert((x + y)[i] == x[i]);
    }
    if clause_sat(m, y) {
        let i = choose|i: int| 0 <= i < y.len() && (#[trigger] y[i]).spec_eval(m);
        assert((x + y)[i + x.len()] == y[i]);
    }
}

/// Concatenated clause lists are satisfied exactly when both parts are.
pub proof fn lemma_clauses_sat_concat(
    m: Map<char, bool>,
    x: Seq<Seq<Operator>>,
    y: Seq<Seq<Operator>>,
)
    ensures
        clauses_sat(m, x + y) == (clauses_sat(m, x) && clauses_sat(m, y)),
{
    if clauses_sat(m, x + y) {
        assert forall|i: int| 0 <= i < x.len() implies clause_sat(m, #[trigger] x[i]) by {
            assert((x + y)[i] == x[i]);
        }
        assert forall|i: int| 0 <= i < y.len() implies clause_sat(m, #[trigger] y[i]) by {
            assert((x + y)[i + x.len()] == y[i]);
        }
    }
    if clauses_sat(m, x) && clauses_sat(m, y) {
        assert forall|i: int| 0 <= i < (x + y).len() implies clause_sat(m, #[trigger] (x + y)[i]) by {
            if i < x.len() {
                assert((x + y)[i] == x[i]);
            } else {
                assert((x + y)[i] == y[i - x.len()]);
            }
        }
    }
}

impl Operator {
    /// A disjunction of literals is true exactly when one of its extracted
    /// literals is.
    pub proof fn lemma_literals_match_eval(self, m: Map<char, bool>)
        requires
            self.is_disjunction(),
        ensures
            clause_sat(m, self.spec_literals()) == self.spec_eval(m),
        decreases self,
    {
        match self {
            Operator::Or(a, b) => {
                a.lemma_literals_match_eval(m);
                b.lemma_literals_match_eval(m);
                lemma_clause_sat_concat(m, a.spec_literals(), b.spec_literals());
            },
            _ => {
                assert(self.spec_literals() == seq![self]);
                assert(self.spec_literals()[0] == self);
            },
        }
    }

    /// A conjunctive-normal-form tree is true exactly when each of its
    /// extracted clauses has a true literal.
    pub proof fn lemma_clauses_match_eval(self, m: Map<char, bool>)
        requires
            self.is_cnf(),
        ensures
            clauses_sat(m, self.spec_clauses()) == self.spec_eval(m),
        decreases self,
    {
        match self {
            Operator::And(a, b) => {
                a.lemma_clauses_match_eval(m);
                b.lemma_clauses_match_eval(m);
                lemma_clauses_sat_concat(m, a.spec_clauses(), b.spec_clauses());
            },
            _ => {
                self.lemma_literals_match_eval(m);
                assert(self.spec_clauses() == seq![self.spec_literals()]);
                assert(self.spec_clauses()[0] == self.spec_literals());
            },
        }
    }
}

/// Conditioning the clauses on a literal that is true under `m` keeps
/// satisfaction: every reduced clause still has a true literal.
proof fn lemma_reduce_preserves_sat(cs: Seq<Seq<Operator>>, l: Operator, m: Map<char, bool>)
    requires
        clauses_sat(m, cs),
        l.spec_eval(m),
    ensures
        clauses_sat(m, spec_reduce(cs, l)),
    decreases cs.len(),
{
    if cs.len() > 0 {
        let prev = cs.drop_last();
        let last = cs.last();
        let rest = spec_reduce(prev, l);
        let red = spec_reduce(cs, l);
        assert forall|i: int| 0 <= i < prev.len() implies clause_sat(m, #[trigger] prev[i]) by {
            assert(prev[i] == cs[i]);
        }
        lemma_reduce_preserves_sat(prev, l, m);
        if !last.contains(l) {
            assert(red == rest.push(spec_strip(last, l.spec_negate())));
            let stripped = spec_strip(last, l.spec_negate());
            assert(clause_sat(m, last)) by {
                assert(cs[cs.len() - 1] == last);
            }
            let i = choose|i: int| 0 <= i < last.len() && (#[trigger] last[i]).spec_eval(m);
            lemma_negate_eval(l, m);
            lemma_strip_props(last, l.spec_negate());
            assert(last[i] != l.spec_negate());
            assert(stripped.contains(last[i]));
            let i2 = choose|i2: int| 0 <= i2 < stripped.len() && stripped[i2] == last[i];
            assert(clause_sat(m, stripped)) by {
                assert(stripped[i2].spec_eval(m));
            }
            assert forall|k: int| 0 <= k < red.len() implies clause_sat(m, #[trigger] red[k]) by {
                if k < rest.len() {
                    assert(red[k] == rest[k]);
                } else {
                    assert(red[k] == stripped);
                }
            }
        }
    }
}

/// Undoing the conditioning: an assignment for the reduced clauses extends,
/// by the conditioned literal itself, to one for the original clauses.
proof fn lemma_reduce_sat_back(cs: Seq<Seq<Operator>>, l: Operator, m: Map<char, bool>)
    requires
        l.is_literal(),
        clauses_literals_ok(cs),
        clauses_sat(m, spec_reduce(cs, l)),
    ensures
        clauses_sat(with_literal(m, l), cs),
    decreases cs.len(),
{
    let m2 = with_literal(m, l);
    if cs.len() > 0 {
        let prev = cs.drop_last();
        let last = cs.last();
        let rest = spec_reduce(prev, l);
        let red = spec_reduce(cs, l);
        if last.contains(l) {
            assert(red == rest);
        } else {
            assert(red == rest.push(spec_strip(last, l.spec_negate())));
            assert forall|k: int| 0 <= k < rest.len() implies clause_sat(m, #[trigger] rest[k]) by {
                assert(rest[k] == red[k]);
            }
        }
        assert forall|i: int| 0 <= i < prev.len() implies clause_literals_ok(
            #[trigger] prev[i],
        ) by {
            assert(prev[i] == cs[i]);
        }
        lemma_reduce_sat_back(prev, l, m);
        assert forall|j: int| 0 <= j < cs.len() implies clause_sat(m2, #[trigger] cs[j]) by {
            if j < cs.len() - 1 {
                assert(cs[j] == prev[j]);
                assert(clause_sat(m2, prev[j]));
            } else {
                assert(cs[j] == last);
                if last.contains(l) {
                    let i = choose|i: int| 0 <= i < last.len() && last[i] == l;
                    lemma_literal_eval(l, m2);
                    assert((#[trigger] last[i]).spec_eval(m2));
                } else {
                    let stripped = spec_strip(last, l.spec_negate());
                    assert(clause_sat(m, stripped)) by {
                        assert(red[red.len() - 1] == stripped);
                    }
                    let i = choose|i: int|
                        0 <= i < stripped.len() && (#[trigger] stripped[i]).spec_eval(m);
                    lemma_strip_props(last, l.spec_negate());
                    let x = stripped[i];
                    assert(last.contains(x) && x != l.spec_negate());
                    let i2 = choose|i2: int| 0 <= i2 < last.len() && last[i2] == x;
                    assert(clause_literals_ok(last)) by {
                        assert(cs[cs.len() - 1] == last);
                    }
                    assert(x.is_literal()) by {
                        assert(last[i2].is_literal());
                    }
                    if x.spec_atom() == l.spec_atom() {
                        lemma_same_atom(x, l);
                        assert(false);
                    }
                    lemma_literal_eval(x, m);
                    lemma_literal_eval(x, m2);
                    assert((#[trigger] last[i2]).spec_eval(m2));
                }
            }
        }
    }
}

/// Clauses of literals stay clauses of literals under conditioning.
proof fn lemma_reduce_literals_ok(cs: Seq<Seq<Operator>>, l: Operator)
    requires
        clauses_literals_ok(cs),
    ensures
        clauses_literals_ok(spec_reduce(cs, l)),
    decreases cs.len(),
{
    if cs.len() > 0 {
        let prev = cs.drop_last();
        let last = cs.last();
        let rest = spec_reduce(prev, l);
        let red = spec_reduce(cs, l);
        assert forall|i: int| 0 <= i < prev.len() implies clause_literals_ok(
            #[trigger] prev[i],
        ) by {
            assert(prev[i] == cs[i]);
        }
        lemma_reduce_literals_ok(prev, l);
        if !last.contains(l) {
            let stripped = spec_strip(last, l.spec_negate());
            lemma_strip_props(last, l.spec_negate());
            assert(clause_literals_ok(last)) by {
                assert(cs[cs.len() - 1] == last);
            }
            assert(clause_literals_ok(stripped)) by {
                assert forall|x: int| 0 <= x < stripped.len() implies (
                #[trigger] stripped[x]).is_literal() by {
                    assert(last.contains(stripped[x]));
                    let y = choose|y: int| 0 <= y < last.len() && last[y] == stripped[x];
                    assert(last[y].is_literal());
                }
            }
            assert forall|k: int| 0 <= k < red.len() implies clause_literals_ok(
                #[trigger] red[k],
            ) by {
                if k < rest.len() {
                    assert(red[k] == rest[k]);
                } else {
                    assert(red[k] == stripped);
                }
            }
        }
    }
}

/// Conditioning never adds literal occurrences, and removes some when the
/// literal or its complement occurred.
proof fn lemma_reduce_total_lits(cs: Seq<Seq<Operator>>, l: Operator)
    ensures
        total_lits(spec_reduce(cs, l)) <= total_lits(cs),
        (exists|j: int|
            0 <= j < cs.len() && ((#[trigger] cs[j]).contains(l) || cs[j].contains(
                l.spec_negate(),
            ))) ==> total_lits(spec_reduce(cs, l)) < total_lits(cs),
    decreases cs.len(),
{
    if cs.len() > 0 {
        let prev = cs.drop_last();
        let last = cs.last();
        let rest = spec_reduce(prev, l);
        let red = spec_reduce(cs, l);
        lemma_reduce_total_lits(prev, l);
        lemma_strip_props(last, l.spec_negate());
        if last.contains(l) {
            assert(red == rest);
        } else {
            lemma_total_lits_push(rest, spec_strip(last, l.spec_negate()));
        }
        assert(total_lits(cs) == total_lits(prev) + last.len());
        if exists|j: int|
            0 <= j < cs.len() && ((#[trigger] cs[j]).contains(l) || cs[j].contains(
                l.spec_negate(),
            )) {
            let j = choose|j: int|
                0 <= j < cs.len() && ((#[trigger] cs[j]).contains(l) || cs[j].contains(
                    l.spec_negate(),
                ));
            if j < cs.len() - 1 {
                assert(prev[j] == cs[j]);
                assert(0 <= j < prev.len() && ((#[trigger] prev[j]).contains(l)
                    || prev[j].contains(l.spec_negate())));
                assert(total_lits(rest) < total_lits(prev));
            } else {
                if last.contains(l) {
                    assert(last.len() >= 1);
                } else {
                    assert(last.contains(l.spec_negate()));
                    assert(spec_strip(last, l.spec_negate()).len() < last.len());
                }
            }
        }
    }
}

/// Appending one clause adds its length to the literal count.
proof fn lemma_total_lits_push(s: Seq<Seq<Operator>>, c: Seq<Operator>)
    ensures
        total_lits(s.push(c)) == total_lits(s) + c.len(),
{
    assert(s.push(c).drop_last() =~= s);
}

/// Whether the clause holds the literal, by structural equality.
fn clause_contains(c: &Vec<Operator>, l: &Operator) -> (r: bool)
    ensures
        r == c@.contains(*l),
{
    let mut i: usize = 0;
    while i < c.len()
        invariant
            0 <= i <= c@.len(),
            forall|j: int| 0 <= j < i ==> c@[j] != *l,
        decreases c@.len() - i,
    {
        if c[i] == *l {
            return true;
        }
        i = i + 1;
    }
    false
}

/// Copies the clause without any occurrence of `bad`.
fn strip_clause(c: &Vec<Operator>, bad: &Operator) -> (r: Vec<Operator>)
    ensures
        r@ == spec_strip(c@, *bad),
{
    let mut out: Vec<Operator> = Vec::new();
    let mut i: usize = 0;
    proof {
        reveal(Seq::filter);
        assert(c@.subrange(0, 0) =~= Seq::<Operator>::empty());
    }
    while i < c.len()
        invariant
            0 <= i <= c@.len(),
            out@ == spec_strip(c@.subrange(0, i as int), *bad),
        decreases c@.len() - i,
    {
        proof {
            reveal(Seq::filter);
            assert(c@.subrange(0, i + 1).drop_last() =~= c@.subrange(0, i as int));
            assert(c@.subrange(0, i + 1).last() == c@[i as int]);
        }
        if !(c[i] == *bad) {
            out.push(c[i].clone());
        }
        i = i + 1;
    }
    proof {
        assert(c@.subrange(0, c@.len() as int) =~= c@);
    }
    out
}

/// Conditioning the clause set on a literal, one clause at a time: a
/// clause holding `l` is dropped, any other loses every occurrence of the
/// complement of `l`.
pub open spec fn spec_reduce(cs: Seq<Seq<Operator>>, l: Operator) -> Seq<Seq<Operator>>
    decreases cs.len(),
{
    if cs.len() == 0 {
        Seq::empty()
    } else {
        let rest = spec_reduce(cs.drop_last(), l);
        if cs.last().contains(l) {
            rest
        } else {
            rest.push(spec_strip(cs.last(), l.spec_negate()))
        }
    }
}

/// Conditions the clause set on `l` being true: clauses holding `l` are
/// dropped and the complement of `l` is struck from the rest.
fn reduce(cs: &Vec<Vec<Operator>>, l: &Operator) -> (r: Vec<Vec<Operator>>)
    ensures
        clauses_of(r@) == spec_reduce(clauses_of(cs@), *l),
{
    let neg = l.negate();
    let mut out: Vec<Vec<Operator>> = Vec::new();
    let mut i: usize = 0;
    proof {
        assert(clauses_of(cs@.subrange(0, 0)) =~= Seq::<Seq<Operator>>::empty());
        assert(clauses_of(out@) =~= spec_reduce(clauses_of(cs@.subrange(0, 0)), *l));
    }
    while i < cs.len()
        invariant
            0 <= i <= cs@.len(),
            neg == l.spec_negate(),
            clauses_of(out@) == spec_reduce(clauses_of(cs@.subrange(0, i as int)), *l),
        decreases cs@.len() - i,
    {
        let ghost prevseq = clauses_of(cs@.subrange(0, i as int));
        let ghost nextseq = clauses_of(cs@.subrange(0, i + 1));
        proof {
            assert(nextseq =~= prevseq.push(cs@[i as int]@));
            assert(nextseq.drop_last() =~= prevseq);
            assert(nextseq.last() == cs@[i as int]@);
        }
        if !clause_contains(&cs[i], l) {
            let stripped = strip_clause(&cs[i], &neg);
            let ghost before = clauses_of(out@);
            out.push(stripped);
            proof {
                assert(clauses_of(out@) =~= before.push(stripped@));
            }
        }
        i = i + 1;
    }
    proof {
        assert(cs@.subrange(0, cs@.len() as int) =~= cs@);
    }
    out
}

impl Operator {
    /// Decides whether some assignment satisfies every clause: textbook
    /// DPLL with unit propagation and literal-level backtracking.
    #[verifier::rlimit(100)]
    #[verifier::spinoff_prover]
    pub fn dpll(clauses: &Vec<Vec<Operator>>) -> (r: bool)
        requires
            clauses_literals_ok(clauses_of(clauses@)),
        ensures
            r == spec_satisfiable(clauses_of(clauses@)),
        decreases total_lits(clauses_of(clauses@)),
    {
        let ghost cs = clauses_of(clauses@);
        if clauses.len() == 0 {
            proof {
                assert(clauses_sat(Map::<char, bool>::empty(), cs));
            }
            return true;
        }
        let mut i: usize = 0;
        while i < clauses.len()
            invariant
                0 <= i <= clauses@.len(),
                cs == clauses_of(clauses@),
                forall|j: int| 0 <= j < i ==> (#[trigger] cs[j]).len() != 0,
            decreases clauses@.len() - i,
        {
            if clauses[i].len() == 0 {
                proof {
                    assert forall|m: Map<char, bool>| !clauses_sat(m, cs) by {
                        assert(!clause_sat(m, cs[i as int]));
                    }
                }
                return false;
            }
            i = i + 1;
        }
        let mut u: usize = 0;
        while u < clauses.len()
            invariant
                0 <= u <= clauses@.len(),
                cs == clauses_of(clauses@),
                clauses_literals_ok(cs),
                forall|j: int| 0 <= j < cs.len() ==> (#[trigger] cs[j]).len() != 0,
            decreases clauses@.len() - u,
        {
            if clauses[u].len() == 1 {
                let lit = clauses[u][0].clone();
                proof {
                    assert(cs[u as int][0].is_literal());
                    assert(cs[u as int].contains(lit)) by {
                        assert(cs[u as int][0] == lit);
                    }
                }
                let reduced = reduce(clauses, &lit);
                let ghost rs = clauses_of(reduced@);
                proof {
                    assert(rs == spec_reduce(cs, lit));
                    lemma_reduce_literals_ok(cs, lit);
                    lemma_reduce_total_lits(cs, lit);
                    assert(exists|j: int|
                        0 <= j < cs.len() && ((#[trigger] cs[j]).contains(lit) || cs[j].contains(
                            lit.spec_negate(),
                        ))) by {
                        assert(cs[u as int].contains(lit));
                    }
                }
                let res = Operator::dpll(&reduced);
                proof {
                    if res {
                        let m = choose|m: Map<char, bool>| clauses_sat(m, rs);
                        lemma_reduce_sat_back(cs, lit, m);
                        assert(clauses_sat(with_literal(m, lit), cs));
                    } else {
                        if spec_satisfiable(cs) {
                            let m = choose|m: Map<char, bool>| clauses_sat(m, cs);
                            assert(clause_sat(m, cs[u as int]));
                            let w = choose|w: int|
                                0 <= w < cs[u as int].len() && (#[trigger] cs[u as int][w]).spec_eval(
                                    m,
                                );
                            assert(w == 0);
                            lemma_reduce_preserves_sat(cs, lit, m);
                            assert(clauses_sat(m, rs));
                            assert(spec_satisfiable(rs));
                            assert(false);
                        }
                    }
                }
                return res;
            }
            u = u + 1;
        }
        let lit = clauses[0][0].clone();
        proof {
            assert(cs[0].len() != 0);
            assert(cs[0][0].is_literal());
            assert(cs[0].contains(lit)) by {
                assert(cs[0][0] == lit);
            }
        }
        let neg = lit.negate();
        let reduced_true = reduce(clauses, &lit);
        let ghost rst = clauses_of(reduced_true@);
        proof {
            assert(rst == spec_reduce(cs, lit));
            lemma_reduce_literals_ok(cs, lit);
            lemma_reduce_total_lits(cs, lit);
            assert(exists|j: int|
                0 <= j < cs.len() && ((#[trigger] cs[j]).contains(lit) || cs[j].contains(
                    lit.spec_negate(),
                ))) by {
                assert(cs[0].contains(lit));
            }
        }
        let res_true = Operator::dpll(&reduced_true);
        if res_true {
            proof {
                let m = choose|m: Map<char, bool>| clauses_sat(m, rst);
                lemma_reduce_sat_back(cs, lit, m);
                assert(clauses_sat(with_literal(m, lit), cs));
            }
            return true;
        }
        proof {
            lemma_literal_negate(lit);
        }
        let reduced_false = reduce(clauses, &neg);
        let ghost rsf = clauses_of(reduced_false@);
        proof {
            assert(rsf == spec_reduce(cs, neg));
            lemma_reduce_literals_ok(cs, neg);
            lemma_reduce_total_lits(cs, neg);
            assert(exists|j: int|
                0 <= j < cs.len() && ((#[trigger] cs[j]).contains(neg) || cs[j].contains(
                    neg.spec_negate(),
                ))) by {
                assert(cs[0].contains(neg.spec_negate()));
            }
        }
        let res = Operator::dpll(&reduced_false);
        proof {
            if res {
                let m = choose|m: Map<char, bool>| clauses_sat(m, rsf);
                lemma_reduce_sat_back(cs, neg, m);
                assert(clauses_sat(with_literal(m, neg), cs));
            } else {
                if spec_satisfiable(cs) {
                    let m = choose|m: Map<char, bool>| clauses_sat(m, cs);
                    lemma_negate_eval(lit, m);
                    if lit.spec_eval(m) {
                        lemma_reduce_preserves_sat(cs, lit, m);
                        assert(clauses_sat(m, rst));
                        assert(spec_satisfiable(rst));
                        assert(false);
                    } else {
                        assert(neg.spec_eval(m));
                        lemma_reduce_preserves_sat(cs, neg, m);
                        assert(clauses_sat(m, rsf));
                        assert(spec_satisfiable(rsf));
                        assert(false);
                    }
                }
            }
        }
        res
    }
}

/// Parses a formula and decides its satisfiability through negation and
/// conjunctive normal form; the empty formula is satisfiable by
/// convention.
pub fn sat(formula: &str) -> (r: Result<bool, FormulaError>)
    ensures
        r matches Ok(b) ==> match Operator::spec_from_formula(formula@) {
            Ok(Some(t)) => b == exists|m: Map<char, bool>| t.spec_eval(m),
            Ok(None) => b == true,
            Err(_) => false,
        },
        r matches Err(e) ==> Operator::spec_from_formula(formula@) == Err::<
            Option<Operator>,
            _,
        >(e),
{
    match Operator::from_formula(formula)? {
        None => Ok(true),
        Some(tree) => {
            let nnf = tree.to_negation_normal_form();
            proof {
                tree.lemma_nnf_shape();
                nnf.lemma_cnf_ok_iff_nnf();
            }
            match nnf.to_conjunctive_normal_form() {
                Ok(cnf) => {
                    proof {
                        nnf.lemma_cnf_shape();
                        cnf.lemma_cnf_clauses_are_literal();
                    }
                    let clauses = cnf.extract_clauses();
                    let result = Operator::dpll(&clauses);
                    proof {
                        let cls = cnf.spec_clauses();
                        if spec_satisfiable(cls) {
                            let m = choose|m: Map<char, bool>| clauses_sat(m, cls);
                            cnf.lemma_clauses_match_eval(m);
                            nnf.lemma_cnf_preserves_eval(m);
                            tree.lemma_nnf_preserves_eval(m);
                            assert(tree.spec_eval(m));
                        }
                        if exists|m: Map<char, bool>| tree.spec_eval(m) {
                            let m = choose|m: Map<char, bool>| tree.spec_eval(m);
                            cnf.lemma_clauses_match_eval(m);
                            nnf.lemma_cnf_preserves_eval(m);
                            tree.lemma_nnf_preserves_eval(m);
                            assert(clauses_sat(m, cls));
                        }
                    }
                    Ok(result)
                },
                Err(_) => {
                    proof {
                        assert(false);
                    }
                    Err(FormulaError::InvalidInput)
                },
            }
        },
    }
}

} // verus!
