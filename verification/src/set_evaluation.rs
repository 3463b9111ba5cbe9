//! Re-interpreting a formula over finite integer sets: each variable is
//! bound to a set, negation is complement within the union of all bound
//! values, and the connectives become set operations.

use vstd::prelude::*;

use crate::operator::{is_alpha, FormulaError, Operator};

verus! {

/// The value sequences a vector of value vectors stands for.
pub open spec fn sets_of(v: Seq<Vec<i32>>) -> Seq<Seq<i32>> {
    v.map_values(|c: Vec<i32>| c@)
}

/// The list with later repetitions of a value dropped.
pub open spec fn spec_dedup(s: Seq<i32>) -> Seq<i32>
    decreases s.len(),
{
    if s.len() == 0 {
        Seq::empty()
    } else {
        let p = spec_dedup(s.drop_last());
        if p.contains(s.last()) {
            p
        } else {
            p.push(s.last())
        }
    }
}

/// The union, keeping the left order and appending the new values of the
/// right side.
pub open spec fn spec_union(a: Seq<i32>, b: Seq<i32>) -> Seq<i32> {
    a + b.filter(|x: i32| !a.contains(x))
}

/// The intersection, keeping the left order.
pub open spec fn spec_inter(a: Seq<i32>, b: Seq<i32>) -> Seq<i32> {
    a.filter(|x: i32| b.contains(x))
}

/// The difference, keeping the left order.
pub open spec fn spec_diff(a: Seq<i32>, b: Seq<i32>) -> Seq<i32> {
    a.filter(|x: i32| !b.contains(x))
}

/// Every value of `a` occurs in `b`.
pub open spec fn spec_subset(a: Seq<i32>, b: Seq<i32>) -> bool {
    forall|i: int| 0 <= i < a.len() ==> b.contains(#[trigger] a[i])
}

/// The two lists hold the same values.
pub open spec fn spec_set_eq(a: Seq<i32>, b: Seq<i32>) -> bool {
    spec_subset(a, b) && spec_subset(b, a)
}

/// All bound values in binding order.
pub open spec fn spec_flatten(sets: Seq<(char, Seq<i32>)>) -> Seq<i32>
    decreases sets.len(),
{
    if sets.len() == 0 {
        Seq::empty()
    } else {
        spec_flatten(sets.drop_last()) + sets.last().1
    }
}

/// The universe the complement works within: every bound value, once, in
/// binding order.
pub open spec fn spec_universe(sets: Seq<(char, Seq<i32>)>) -> Seq<i32> {
    spec_dedup(spec_flatten(sets))
}

/// The set bound to a symbol; a later binding wins.
pub open spec fn spec_set_lookup(sets: Seq<(char, Seq<i32>)>, c: char) -> Option<Seq<i32>>
    decreases sets.len(),
{
    if sets.len() == 0 {
        None
    } else if sets.last().0 == c {
        Some(sets.last().1)
    } else {
        spec_set_lookup(sets.drop_last(), c)
    }
}

impl Operator {
    /// The set interpretation of the tree under the bindings: variables
    /// read their set, `Not` is complement within the universe, `And` is
    /// intersection, `Or` is union, `Xor` is symmetric difference,
    /// `Implies` keeps its left side only when it lies within the right,
    /// and `Equals` keeps it only when the two sides hold the same
    /// values.
    pub open spec fn spec_solve_sets(self, sets: Seq<(char, Seq<i32>)>) -> Result<
        Seq<i32>,
        FormulaError,
    >
        decreases self,
    {
        match self {
            Operator::Operand(c) => match spec_set_lookup(sets, c) {
                Some(v) => Ok(v),
                None => Err(FormulaError::UnboundVariable),
            },
            Operator::Not(x) => match x.spec_solve_sets(sets) {
                Ok(v) => Ok(spec_diff(spec_universe(sets), v)),
                Err(e) => Err(e),
            },
            Operator::Or(a, b) => match (a.spec_solve_sets(sets), b.spec_solve_sets(sets)) {
                (Ok(va), Ok(vb)) => Ok(spec_union(va, vb)),
                (Err(e), _) => Err(e),
                (_, Err(e)) => Err(e),
            },
            Operator::And(a, b) => match (a.spec_solve_sets(sets), b.spec_solve_sets(sets)) {
                (Ok(va), Ok(vb)) => Ok(spec_inter(va, vb)),
                (Err(e), _) => Err(e),
                (_, Err(e)) => Err(e),
            },
            Operator::Xor(a, b) => match (a.spec_solve_sets(sets), b.spec_solve_sets(sets)) {
                (Ok(va), Ok(vb)) => Ok(spec_diff(va, vb) + spec_diff(vb, va)),
                (Err(e), _) => Err(e),
                (_, Err(e)) => Err(e),
            },
            Operator::Implies(a, b) => match (a.spec_solve_sets(sets), b.spec_solve_sets(sets)) {
                (Ok(va), Ok(vb)) => if spec_subset(va, vb) {
                    Ok(va)
                } else {
                    Ok(Seq::empty())
                },
                (Err(e), _) => Err(e),
                (_, Err(e)) => Err(e),
            },
            Operator::Equals(a, b) => match (a.spec_solve_sets(sets), b.spec_solve_sets(sets)) {
                (Ok(va), Ok(vb)) => if spec_set_eq(va, vb) {
                    Ok(va)
                } else {
                    Ok(Seq::empty())
                },
                (Err(e), _) => Err(e),
                (_, Err(e)) => Err(e),
            },
        }
    }
}

/// Whether the list holds the value.
fn contains_value(v: &Vec<i32>, x: i32) -> (r: bool)
    ensures
        r == v@.contains(x),
{
    let mut i: usize = 0;
    while i < v.len()
        invariant
            0 <= i <= v@.len(),
            forall|j: int| 0 <= j < i ==> v@[j] != x,
        decreases v@.len() - i,
    {
        if v[i] == x {
            return true;
        }
        i = i + 1;
    }
    false
}

/// Copies the list, dropping later repetitions.
fn dedup_values(v: &Vec<i32>) -> (r: Vec<i32>)
    ensures
        r@ == spec_dedup(v@),
{
    let mut out: Vec<i32> = Vec::new();
    let mut i: usize = 0;
    proof {
        assert(v@.subrange(0, 0) =~= Seq::<i32>::empty());
    }
    while i < v.len()
        invariant
            0 <= i <= v@.len(),
            out@ == spec_dedup(v@.subrange(0, i as int)),
        decreases v@.len() - i,
    {
        proof {
            assert(v@.subrange(0, i + 1).drop_last() =~= v@.subrange(0, i as int));
            assert(v@.subrange(0, i + 1).last() == v@[i as int]);
        }
        if !contains_value(&out, v[i]) {
            out.push(v[i]);
        }
        i = i + 1;
    }
    proof {
        assert(v@.subrange(0, v@.len() as int) =~= v@);
    }
    out
}

/// Keeps the values of `a` for which the given test against `b` holds:
/// the intersection when `keep` is true, the difference when it is false.
fn sift_values(a: &Vec<i32>, b: &Vec<i32>, keep: bool) -> (r: Vec<i32>)
    ensures
        keep ==> r@ == spec_inter(a@, b@),
        !keep ==> r@ == spec_diff(a@, b@),
{
    let mut out: Vec<i32> = Vec::new();
    let mut i: usize = 0;
    proof {
        reveal(Seq::filter);
        assert(a@.subrange(0, 0) =~= Seq::<i32>::empty());
    }
    while i < a.len()
        invariant
            0 <= i <= a@.len(),
            keep ==> out@ == spec_inter(a@.subrange(0, i as int), b@),
            !keep ==> out@ == spec_diff(a@.subrange(0, i as int), b@),
        decreases a@.len() - i,
    {
        proof {
            reveal(Seq::filter);
            assert(a@.subrange(0, i + 1).drop_last() =~= a@.subrange(0, i as int));
            assert(a@.subrange(0, i + 1).last() == a@[i as int]);
        }
        let hit = contains_value(b, a[i]);
        if hit == keep {
            out.push(a[i]);
        }
        i = i + 1;
    }
    proof {
        assert(a@.subrange(0, a@.len() as int) =~= a@);
    }
    out
}

/// The union of two lists, left order first.
fn union_values(a: &Vec<i32>, b: &Vec<i32>) -> (r: Vec<i32>)
    ensures
        r@ == spec_union(a@, b@),
{
    let mut out: Vec<i32> = Vec::new();
    let mut i: usize = 0;
    proof {
        assert(a@.subrange(0, 0) =~= Seq::<i32>::empty());
        assert(out@ =~= a@.subrange(0, 0));
    }
    while i < a.len()
        invariant
            0 <= i <= a@.len(),
            out@ == a@.subrange(0, i as int),
        decreases a@.len() - i,
    {
        out.push(a[i]);
        proof {
            assert(a@.subrange(0, i + 1) =~= a@.subrange(0, i as int).push(a@[i as int]));
        }
        i = i + 1;
    }
    proof {
        assert(a@.subrange(0, a@.len() as int) =~= a@);
        reveal(Seq::filter);
        assert(b@.subrange(0, 0) =~= Seq::<i32>::empty());
        assert(out@ =~= a@ + b@.subrange(0, 0).filter(|x: i32| !a@.contains(x)));
    }
    let mut j: usize = 0;
    while j < b.len()
        invariant
            0 <= j <= b@.len(),
            out@ == a@ + b@.subrange(0, j as int).filter(|x: i32| !a@.contains(x)),
        decreases b@.len() - j,
    {
        proof {
            reveal(Seq::filter);
            assert(b@.subrange(0, j + 1).drop_last() =~= b@.subrange(0, j as int));
            assert(b@.subrange(0, j + 1).last() == b@[j as int]);
        }
        if !contains_value(a, b[j]) {
            out.push(b[j]);
        }
        j = j + 1;
    }
    proof {
        assert(b@.subrange(0, b@.len() as int) =~= b@);
    }
    out
}

/// Every value of `a` occurs in `b`.
fn subset_values(a: &Vec<i32>, b: &Vec<i32>) -> (r: bool)
    ensures
        r == spec_subset(a@, b@),
{
    let mut i: usize = 0;
    while i < a.len()
        invariant
            0 <= i <= a@.len(),
            forall|j: int| 0 <= j < i ==> b@.contains(#[trigger] a@[j]),
        decreases a@.len() - i,
    {
        if !contains_value(b, a[i]) {
            return false;
        }
        i = i + 1;
    }
    true
}

/// The set bound to a symbol, a later binding winning.
fn lookup_set<'a>(sets: &'a Vec<(char, Vec<i32>)>, c: char) -> (r: Option<&'a Vec<i32>>)
    ensures
        match r {
            Some(v) => spec_set_lookup(bindings_of(sets@), c) == Some(v@),
            None => spec_set_lookup(bindings_of(sets@), c) is None,
        },
{
    let mut found: Option<&Vec<i32>> = None;
    let mut i: usize = 0;
    proof {
        assert(bindings_of(sets@.subrange(0, 0)) =~= Seq::<(char, Seq<i32>)>::empty());
    }
    while i < sets.len()
        invariant
            0 <= i <= sets@.len(),
            match found {
                Some(v) => spec_set_lookup(bindings_of(sets@.subrange(0, i as int)), c) == Some(
                    v@,
                ),
                None => spec_set_lookup(bindings_of(sets@.subrange(0, i as int)), c) is None,
            },
        decreases sets@.len() - i,
    {
        proof {
            assert(bindings_of(sets@.subrange(0, i + 1)).drop_last() =~= bindings_of(
                sets@.subrange(0, i as int),
            ));
            assert(bindings_of(sets@.subrange(0, i + 1)).last() == (
                sets@[i as int].0,
                sets@[i as int].1@,
            ));
        }
        if sets[i].0 == c {
            found = Some(&sets[i].1);
        }
        i = i + 1;
    }
    proof {
        assert(sets@.subrange(0, sets@.len() as int) =~= sets@);
    }
    found
}

/// The bindings a vector of pairs stands for.
pub open spec fn bindings_of(sets: Seq<(char, Vec<i32>)>) -> Seq<(char, Seq<i32>)> {
    sets.map_values(|p: (char, Vec<i32>)| (p.0, p.1@))
}

/// Collects every bound value, once, in binding order.
fn universe_values(sets: &Vec<(char, Vec<i32>)>) -> (r: Vec<i32>)
    ensures
        r@ == spec_universe(bindings_of(sets@)),
{
    let mut flat: Vec<i32> = Vec::new();
    let mut i: usize = 0;
    proof {
        assert(bindings_of(sets@.subrange(0, 0)) =~= Seq::<(char, Seq<i32>)>::empty());
        assert(flat@ =~= spec_flatten(bindings_of(sets@.subrange(0, 0))));
    }
    while i < sets.len()
        invariant
            0 <= i <= sets@.len(),
            flat@ == spec_flatten(bindings_of(sets@.subrange(0, i as int))),
        decreases sets@.len() - i,
    {
        let mut k: usize = 0;
        let ghost before = flat@;
        while k < sets[i].1.len()
            invariant
                0 <= k <= sets@[i as int].1@.len(),
                0 <= i < sets@.len(),
                flat@ == before + sets@[i as int].1@.subrange(0, k as int),
            decreases sets@[i as int].1@.len() - k,
        {
            flat.push(sets[i].1[k]);
            proof {
                assert(before + sets@[i as int].1@.subrange(0, k + 1) =~= (before
                    + sets@[i as int].1@.subrange(0, k as int)).push(sets@[i as int].1@[k as int]));
            }
            k = k + 1;
        }
        proof {
            assert(sets@[i as int].1@.subrange(0, sets@[i as int].1@.len() as int)
                =~= sets@[i as int].1@);
            assert(bindings_of(sets@.subrange(0, i + 1)).drop_last() =~= bindings_of(
                sets@.subrange(0, i as int),
            ));
            assert(bindings_of(sets@.subrange(0, i + 1)).last() == (
                sets@[i as int].0,
                sets@[i as int].1@,
            ));
            assert(flat@ =~= spec_flatten(bindings_of(sets@.subrange(0, i + 1))));
        }
        i = i + 1;
    }
    proof {
        assert(sets@.subrange(0, sets@.len() as int) =~= sets@);
    }
    dedup_values(&flat)
}

/// Evaluates the tree over the given set bindings.
pub fn solve(operator: &Operator, sets: &Vec<(char, Vec<i32>)>) -> (r: Result<
    Vec<i32>,
    FormulaError,
>)
    ensures
        match r {
            Ok(v) => operator.spec_solve_sets(bindings_of(sets@)) == Ok::<_, FormulaError>(v@),
            Err(e) => operator.spec_solve_sets(bindings_of(sets@)) == Err::<Seq<i32>, _>(e),
        },
    decreases operator.size(),
{
    match operator {
        Operator::Operand(c) => match lookup_set(sets, *c) {
            Some(v) => Ok(clone_values(v)),
            None => Err(FormulaError::UnboundVariable),
        },
        Operator::Not(x) => {
            let inner = solve(x, sets)?;
            let universe = universe_values(sets);
            Ok(sift_values(&universe, &inner, false))
        },
        Operator::Or(a, b) => {
            let va = solve(a, sets)?;
            let vb = solve(b, sets)?;
            Ok(union_values(&va, &vb))
        },
        Operator::And(a, b) => {
            let va = solve(a, sets)?;
            let vb = solve(b, sets)?;
            Ok(sift_values(&va, &vb, true))
        },
        Operator::Xor(a, b) => {
            let va = solve(a, sets)?;
            let vb = solve(b, sets)?;
            let left = sift_values(&va, &vb, false);
            let right = sift_values(&vb, &va, false);
            let mut out = left;
            let ghost left_view = out@;
            let mut right_vec = right;
            proof {
                assert(left_view + right_vec@.subrange(0, 0) =~= left_view);
            }
            let mut k: usize = 0;
            while k < right_vec.len()
                invariant
                    0 <= k <= right_vec@.len(),
                    out@ == left_view + right_vec@.subrange(0, k as int),
                decreases right_vec@.len() - k,
            {
                out.push(right_vec[k]);
                proof {
                    assert(left_view + right_vec@.subrange(0, k + 1) =~= (left_view
                        + right_vec@.subrange(0, k as int)).push(right_vec@[k as int]));
                }
                k = k + 1;
            }
            proof {
                assert(right_vec@.subrange(0, right_vec@.len() as int) =~= right_vec@);
            }
            Ok(out)
        },
        Operator::Implies(a, b) => {
            let va = solve(a, sets)?;
            let vb = solve(b, sets)?;
            if subset_values(&va, &vb) {
                Ok(va)
            } else {
                Ok(Vec::new())
            }
        },
        Operator::Equals(a, b) => {
            let va = solve(a, sets)?;
            let vb = solve(b, sets)?;
            let forwards = subset_values(&va, &vb);
            let backwards = subset_values(&vb, &va);
            if forwards && backwards {
                Ok(va)
            } else {
                Ok(Vec::new())
            }
        },
    }
}

/// Copies a list of values.
fn clone_values(v: &Vec<i32>) -> (r: Vec<i32>)
    ensures
        r@ == v@,
{
    let mut out: Vec<i32> = Vec::new();
    let mut i: usize = 0;
    proof {
        assert(v@.subrange(0, 0) =~= Seq::<i32>::empty());
        assert(out@ =~= v@.subrange(0, 0));
    }
    while i < v.len()
        invariant
            0 <= i <= v@.len(),
            out@ == v@.subrange(0, i as int),
        decreases v@.len() - i,
    {
        out.push(v[i]);
        proof {
            assert(v@.subrange(0, i + 1) =~= v@.subrange(0, i as int).push(v@[i as int]));
        }
        i = i + 1;
    }
    proof {
        assert(v@.subrange(0, v@.len() as int) =~= v@);
    }
    out
}

/// Whether the vector holds the character.
fn contains_char(v: &Vec<char>, c: char) -> (r: bool)
    ensures
        r == v@.contains(c),
{
    let mut i: usize = 0;
    while i < v.len()
        invariant
            0 <= i <= v@.len(),
            forall|j: int| 0 <= j < i ==> v@[j] != c,
        decreases v@.len() - i,
    {
        if v[i] == c {
            return true;
        }
        i = i + 1;
    }
    false
}

/// The sorted list with `c` put at its place: before the first entry that
/// is not smaller.
pub open spec fn spec_insert_sorted(v: Seq<char>, c: char) -> Seq<char>
    decreases v.len(),
{
    if v.len() == 0 {
        seq![c]
    } else if v.first() < c {
        seq![v.first()] + spec_insert_sorted(v.drop_first(), c)
    } else {
        seq![c] + v
    }
}

/// The distinct alphabetic symbols of the formula, in ascending order;
/// this is the one place where the engine orders variables by symbol
/// rather than by first occurrence.
pub open spec fn spec_sorted_operands(s: Seq<char>) -> Seq<char>
    decreases s.len(),
{
    if s.len() == 0 {
        Seq::empty()
    } else {
        let p = spec_sorted_operands(s.drop_last());
        if is_alpha(s.last()) && !p.contains(s.last()) {
            spec_insert_sorted(p, s.last())
        } else {
            p
        }
    }
}

/// Inserting before the first position whose symbol is not smaller gives
/// the recursive insertion.
proof fn lemma_insert_sorted_at(v: Seq<char>, c: char, j: int)
    requires
        0 <= j <= v.len(),
        forall|k: int| 0 <= k < j ==> v[k] < c,
        j < v.len() ==> !(v[j] < c),
    ensures
        spec_insert_sorted(v, c) == v.subrange(0, j) + seq![c] + v.subrange(j, v.len() as int),
    decreases v.len(),
{
    if v.len() == 0 {
        assert(spec_insert_sorted(v, c) =~= v.subrange(0, j) + seq![c] + v.subrange(
            j,
            v.len() as int,
        ));
    } else if j == 0 {
        assert(!(v.first() < c)) by {
            assert(v[0] == v.first());
        }
        assert(spec_insert_sorted(v, c) =~= v.subrange(0, 0) + seq![c] + v.subrange(
            0,
            v.len() as int,
        ));
    } else {
        assert(v.first() < c) by {
            assert(v[0] == v.first());
        }
        let rest = v.drop_first();
        assert forall|k: int| 0 <= k < j - 1 implies rest[k] < c by {
            assert(rest[k] == v[k + 1]);
        }
        assert(j - 1 < rest.len() ==> !(rest[j - 1] < c)) by {
            if j < v.len() {
                assert(rest[j - 1] == v[j]);
            }
        }
        lemma_insert_sorted_at(rest, c, j - 1);
        assert(rest.subrange(0, j - 1) =~= v.subrange(1, j));
        assert(rest.subrange(j - 1, rest.len() as int) =~= v.subrange(j, v.len() as int));
        assert(spec_insert_sorted(v, c) =~= v.subrange(0, j) + seq![c] + v.subrange(
            j,
            v.len() as int,
        ));
    }
}

/// Collects the distinct alphabetic symbols of a formula in ascending
/// order.
pub fn operands_in_formula(formula: &str) -> (r: Vec<char>)
    ensures
        r@ == spec_sorted_operands(formula@),
{
    let n = formula.unicode_len();
    let mut out: Vec<char> = Vec::new();
    let mut i: usize = 0;
    proof {
        assert(formula@.subrange(0, 0) =~= Seq::<char>::empty());
    }
    while i < n
        invariant
            0 <= i <= n,
            n == formula@.len(),
            out@ == spec_sorted_operands(formula@.subrange(0, i as int)),
        decreases n - i,
    {
        let c = formula.get_char(i);
        proof {
            assert(formula@.subrange(0, i + 1).drop_last() =~= formula@.subrange(0, i as int));
            assert(formula@.subrange(0, i + 1).last() == c);
        }
        if c.is_alphabetic() && !contains_char(&out, c) {
            let ghost before = out@;
            let mut j: usize = 0;
            while j < out.len() && out[j] < c
                invariant
                    0 <= j <= out@.len(),
                    out@ == before,
                    forall|k: int| 0 <= k < j ==> out@[k] < c,
                decreases out@.len() - j,
            {
                j = j + 1;
            }
            proof {
                lemma_insert_sorted_at(before, c, j as int);
            }
            out.insert(j, c);
            proof {
                assert(out@ =~= before.subrange(0, j as int) + seq![c] + before.subrange(
                    j as int,
                    before.len() as int,
                ));
                assert(out@ == spec_insert_sorted(before, c));
            }
        }
        i = i + 1;
    }
    proof {
        assert(formula@.subrange(0, n as int) =~= formula@);
    }
    out
}

/// The bindings of the sorted symbols to their sets, each set taken once
/// per value.
pub open spec fn spec_bindings(ops: Seq<char>, sets: Seq<Seq<i32>>) -> Seq<(char, Seq<i32>)> {
    Seq::new(ops.len(), |i: int| (ops[i], spec_dedup(sets[i])))
}

/// The whole set evaluation of a formula: the sorted distinct symbols must
/// match the supplied sets one for one, the formula must parse and must
/// not be empty, and the tree is then evaluated over the bindings.
pub open spec fn spec_eval_set(s: Seq<char>, sets: Seq<Seq<i32>>) -> Result<
    Seq<i32>,
    FormulaError,
> {
    let ops = spec_sorted_operands(s);
    if ops.len() != sets.len() {
        Err(FormulaError::ArityMismatch)
    } else {
        match Operator::spec_from_formula(s) {
            Err(e) => Err(e),
            Ok(None) => Err(FormulaError::InvalidInput),
            Ok(Some(t)) => t.spec_solve_sets(spec_bindings(ops, sets)),
        }
    }
}

/// Evaluates a formula over one finite integer set per distinct variable,
/// the variables taken in ascending order; reports `ArityMismatch` when
/// the number of sets differs from the number of variables and
/// `InvalidInput` on the empty formula.
pub fn eval_set(formula: &str, sets: Vec<Vec<i32>>) -> (r: Result<Vec<i32>, FormulaError>)
    ensures
        match r {
            Ok(v) => spec_eval_set(formula@, sets_of(sets@)) == Ok::<_, FormulaError>(v@),
            Err(e) => spec_eval_set(formula@, sets_of(sets@)) == Err::<Seq<i32>, _>(e),
        },
{
    let operands = operands_in_formula(formula);
    if operands.len() != sets.len() {
        return Err(FormulaError::ArityMismatch);
    }
    let tree = match Operator::from_formula(formula) {
        Ok(Some(t)) => t,
        Ok(None) => {
            return Err(FormulaError::InvalidInput);
        },
        Err(e) => {
            return Err(e);
        },
    };
    let mut bindings: Vec<(char, Vec<i32>)> = Vec::new();
    let mut i: usize = 0;
    proof {
        assert(bindings_of(bindings@) =~= spec_bindings(operands@, sets_of(sets@)).subrange(0, 0));
    }
    while i < operands.len()
        invariant
            0 <= i <= operands@.len(),
            operands@.len() == sets@.len(),
            bindings_of(bindings@) == spec_bindings(operands@, sets_of(sets@)).subrange(
                0,
                i as int,
            ),
        decreases operands@.len() - i,
    {
        let ghost before = bindings_of(bindings@);
        let values = dedup_values(&sets[i]);
        let ghost vv = values@;
        bindings.push((operands[i], values));
        proof {
            assert(bindings_of(bindings@) =~= before.push((operands@[i as int], vv)));
            assert(sets_of(sets@)[i as int] == sets@[i as int]@);
            assert(spec_bindings(operands@, sets_of(sets@))[i as int] == (
                operands@[i as int],
                spec_dedup(sets@[i as int]@),
            ));
            assert(bindings_of(bindings@) =~= spec_bindings(operands@, sets_of(sets@)).subrange(
                0,
                i + 1,
            ));
        }
        i = i + 1;
    }
    proof {
        let whole = spec_bindings(operands@, sets_of(sets@));
        assert(whole.subrange(0, whole.len() as int) =~= whole);
    }
    solve(&tree, &bindings)
}

} // verus!
