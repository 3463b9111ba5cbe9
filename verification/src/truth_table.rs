//! Brute-force truth tables: the distinct variables of a formula in order
//! of first occurrence, every boolean assignment over them ordered by
//! ascending count of true variables, and the evaluation of each row.

use vstd::prelude::*;

use crate::operator::{is_alpha, upper_of, FormulaError, Operator};

verus! {

/// The distinct alphabetic symbols of the formula, in order of first
/// occurrence.
pub open spec fn spec_operands(s: Seq<char>) -> Seq<char>
    decreases s.len(),
{
    if s.len() == 0 {
        Seq::empty()
    } else {
        let prev = spec_operands(s.drop_last());
        if is_alpha(s.last()) && !prev.contains(s.last()) {
            prev.push(s.last())
        } else {
            prev
        }
    }
}

/// Collects the distinct alphabetic symbols of a formula, first occurrence
/// first.
pub fn operands_in_formula(formula: &str) -> (r: Vec<char>)
    ensures
        r@ == spec_operands(formula@),
{
    let n = formula.unicode_len();
    let mut out: Vec<char> = Vec::new();
    let mut i: usize = 0;
    proof {
        assert(formula@.subrange(0, 0) =~= Seq::<char>::empty());
    }
    while i < n
        invariant
            0 <= i <= n,
            n == formula@.len(),
            out@ == spec_operands(formula@.subrange(0, i as int)),
        decreases n - i,
    {
        let c = formula.get_char(i);
        proof {
            assert(formula@.subrange(0, i + 1).drop_last() =~= formula@.subrange(0, i as int));
            assert(formula@.subrange(0, i + 1).last() == c);
        }
        if c.is_alphabetic() && !contains_char(&out, c) {
            out.push(c);
        }
        i = i + 1;
    }
    proof {
        assert(formula@.subrange(0, n as int) =~= formula@);
    }
    out
}

/// Whether the vector holds the character.
fn contains_char(v: &Vec<char>, c: char) -> (r: bool)
    ensures
        r == v@.contains(c),
{
    let mut i: usize = 0;
    while i < v.len()
        invariant
            0 <= i <= v@.len(),
            forall|j: int| 0 <= j < i ==> v@[j] != c,
        decreases v@.len() - i,
    {
        if v[i] == c {
            return true;
        }
        i = i + 1;
    }
    false
}

/// The row sequences a vector of row vectors stands for.
pub open spec fn rows_of(v: Seq<Vec<(char, bool)>>) -> Seq<Seq<(char, bool)>> {
    v.map_values(|r: Vec<(char, bool)>| r@)
}

/// Every boolean assignment over the given symbols, in binary-counting
/// order: all rows giving the first symbol `true` come before all rows
/// giving it `false`, and so on recursively.
pub open spec fn spec_assignments(ops: Seq<char>) -> Seq<Seq<(char, bool)>>
    decreases ops.len(),
{
    if ops.len() == 0 {
        seq![Seq::empty()]
    } else {
        let rest = spec_assignments(ops.drop_first());
        rest.map_values(|r: Seq<(char, bool)>| seq![(ops.first(), true)] + r) + rest.map_values(
            |r: Seq<(char, bool)>| seq![(ops.first(), false)] + r,
        )
    }
}

/// How many entries of the row are set to true.
pub open spec fn count_true(row: Seq<(char, bool)>) -> nat
    decreases row.len(),
{
    if row.len() == 0 {
        0
    } else {
        count_true(row.drop_last()) + if row.last().1 {
            1nat
        } else {
            0nat
        }
    }
}

/// The rows whose count of true entries is exactly `t`, in order.
pub open spec fn rows_with_count(rows: Seq<Seq<(char, bool)>>, t: nat) -> Seq<Seq<(char, bool)>> {
    rows.filter(|r: Seq<(char, bool)>| count_true(r) == t)
}

/// The rows regrouped by their count of true entries: all rows with no
/// true entry first, then those with one, and so on below `bound`.
pub open spec fn spec_rows_by_count(rows: Seq<Seq<(char, bool)>>, bound: nat) -> Seq<
    Seq<(char, bool)>,
>
    decreases bound,
{
    if bound == 0 {
        Seq::empty()
    } else {
        spec_rows_by_count(rows, (bound - 1) as nat) + rows_with_count(rows, (bound - 1) as nat)
    }
}

/// The full table order: every assignment over the symbols, sorted by
/// ascending count of true variables, ties kept in enumeration order.
pub open spec fn spec_sorted_rows(ops: Seq<char>) -> Seq<Seq<(char, bool)>> {
    spec_rows_by_count(spec_assignments(ops), ops.len() + 1)
}

/// Builds the assignments over `operands[start..]` in enumeration order.
fn combos_from(operands: &[char], start: usize) -> (r: Vec<Vec<(char, bool)>>)
    requires
        start <= operands@.len(),
    ensures
        rows_of(r@) == spec_assignments(operands@.subrange(start as int, operands@.len() as int)),
    decreases operands@.len() - start,
{
    let ghost ops = operands@.subrange(start as int, operands@.len() as int);
    if start == operands.len() {
        let empty_row: Vec<(char, bool)> = Vec::new();
        let r = vec![empty_row];
        proof {
            assert(rows_of(r@) =~= spec_assignments(ops));
        }
        return r;
    }
    let c = operands[start];
    let rest = combos_from(operands, start + 1);
    let ghost rest_ops = operands@.subrange(start + 1, operands@.len() as int);
    proof {
        assert(ops.drop_first() =~= rest_ops);
        assert(ops.first() == c);
    }
    let ghost head_true = spec_assignments(rest_ops).map_values(
        |r: Seq<(char, bool)>| seq![(c, true)] + r,
    );
    let ghost head_false = spec_assignments(rest_ops).map_values(
        |r: Seq<(char, bool)>| seq![(c, false)] + r,
    );
    let mut out: Vec<Vec<(char, bool)>> = Vec::new();
    let mut i: usize = 0;
    proof {
        assert(rows_of(out@) =~= head_true.subrange(0, 0));
    }
    while i < rest.len()
        invariant
            0 <= i <= rest@.len(),
            rows_of(rest@) == spec_assignments(rest_ops),
            rows_of(out@) == head_true.subrange(0, i as int),
            head_true == spec_assignments(rest_ops).map_values(
                |r: Seq<(char, bool)>| seq![(c, true)] + r,
            ),
        decreases rest@.len() - i,
    {
        let mut row: Vec<(char, bool)> = Vec::new();
        row.push((c, true));
        append_row(&mut row, &rest[i]);
        let ghost rv = row@;
        let ghost before = rows_of(out@);
        proof {
            assert(rv =~= seq![(c, true)] + rest@[i as int]@);
            assert(rest@[i as int]@ == rows_of(rest@)[i as int]);
            assert(head_true[i as int] == seq![(c, true)] + rows_of(rest@)[i as int]);
        }
        out.push(row);
        proof {
            assert(rows_of(out@) =~= before.push(rv));
            assert(before.push(rv) =~= head_true.subrange(0, i + 1));
        }
        i = i + 1;
    }
    proof {
        assert(head_true.subrange(0, head_true.len() as int) =~= head_true);
    }
    let mut i: usize = 0;
    while i < rest.len()
        invariant
            0 <= i <= rest@.len(),
            rows_of(rest@) == spec_assignments(rest_ops),
            rows_of(out@) == head_true + head_false.subrange(0, i as int),
            head_true == spec_assignments(rest_ops).map_values(
                |r: Seq<(char, bool)>| seq![(c, true)] + r,
            ),
            head_false == spec_assignments(rest_ops).map_values(
                |r: Seq<(char, bool)>| seq![(c, false)] + r,
            ),
        decreases rest@.len() - i,
    {
        let mut row: Vec<(char, bool)> = Vec::new();
        row.push((c, false));
        append_row(&mut row, &rest[i]);
        let ghost rv = row@;
        let ghost before = rows_of(out@);
        proof {
            assert(rv =~= seq![(c, false)] + rest@[i as int]@);
            assert(rest@[i as int]@ == rows_of(rest@)[i as int]);
            assert(head_false[i as int] == seq![(c, false)] + rows_of(rest@)[i as int]);
        }
        out.push(row);
        proof {
            assert(rows_of(out@) =~= before.push(rv));
            assert(before.push(rv) =~= head_true + head_false.subrange(0, i + 1));
        }
        i = i + 1;
    }
    proof {
        assert(head_false.subrange(0, head_false.len() as int) =~= head_false);
        assert(rows_of(out@) =~= spec_assignments(ops));
    }
    out
}

/// Appends a copy of every entry of `src` to `row`.
fn append_row(row: &mut Vec<(char, bool)>, src: &Vec<(char, bool)>)
    ensures
        final(row)@ == old(row)@ + src@,
{
    let mut i: usize = 0;
    proof {
        assert(old(row)@ + src@.subrange(0, 0) =~= old(row)@);
    }
    while i < src.len()
        invariant
            0 <= i <= src@.len(),
            row@ == old(row)@ + src@.subrange(0, i as int),
        decreases src@.len() - i,
    {
        row.push(src[i]);
        proof {
            assert(old(row)@ + src@.subrange(0, i + 1) =~= (old(row)@ + src@.subrange(
                0,
                i as int,
            )).push(src@[i as int]));
        }
        i = i + 1;
    }
    proof {
        assert(src@.subrange(0, src@.len() as int) =~= src@);
    }
}

/// Counts the entries of the row that are set to true.
fn count_true_exec(row: &Vec<(char, bool)>) -> (r: usize)
    ensures
        r == count_true(row@),
{
    let mut n: usize = 0;
    let mut i: usize = 0;
    proof {
        assert(row@.subrange(0, 0) =~= Seq::<(char, bool)>::empty());
    }
    while i < row.len()
        invariant
            0 <= i <= row@.len(),
            n == count_true(row@.subrange(0, i as int)),
            n <= i,
        decreases row@.len() - i,
    {
        proof {
            assert(row@.subrange(0, i + 1).drop_last() =~= row@.subrange(0, i as int));
            assert(row@.subrange(0, i + 1).last() == row@[i as int]);
        }
        if row[i].1 {
            n = n + 1;
        }
        i = i + 1;
    }
    proof {
        assert(row@.subrange(0, row@.len() as int) =~= row@);
    }
    n
}

/// Whether two entries of the slice carry the same symbol.
fn has_duplicate_char(v: &[char]) -> (r: bool)
    ensures
        r == !v@.no_duplicates(),
{
    let mut i: usize = 0;
    while i < v.len()
        invariant
            0 <= i <= v@.len(),
            forall|p: int, q: int| 0 <= p < q < i ==> v@[p] != v@[q],
        decreases v@.len() - i,
    {
        let mut j: usize = 0;
        while j < i
            invariant
                0 <= j <= i < v@.len(),
                forall|p: int| 0 <= p < j ==> v@[p] != v@[i as int],
            decreases i - j,
        {
            if v[j] == v[i] {
                return true;
            }
            j = j + 1;
        }
        i = i + 1;
    }
    false
}

/// The boolean assignments over the symbols, each symbol bound once,
/// ordered by ascending count of true variables with ties in enumeration
/// order; a symbol list with a repeated symbol yields no row.
pub fn operand_combinations(operands: &[char]) -> (r: Vec<Vec<(char, bool)>>)
    requires
        operands@.len() < usize::MAX,
    ensures
        operands@.no_duplicates() ==> rows_of(r@) == spec_sorted_rows(operands@),
        !operands@.no_duplicates() ==> r@ == Seq::<Vec<(char, bool)>>::empty(),
{
    if has_duplicate_char(operands) {
        return Vec::new();
    }
    let all = combos_from(operands, 0);
    proof {
        assert(operands@.subrange(0, operands@.len() as int) =~= operands@);
    }
    let ghost rows = spec_assignments(operands@);
    let mut out: Vec<Vec<(char, bool)>> = Vec::new();
    let mut t: usize = 0;
    proof {
        assert(rows_of(out@) =~= spec_rows_by_count(rows, 0));
    }
    while t < operands.len() + 1
        invariant
            operands@.len() < usize::MAX,
            0 <= t <= operands@.len() + 1,
            rows_of(all@) == rows,
            rows == spec_assignments(operands@),
            rows_of(out@) == spec_rows_by_count(rows, t as nat),
        decreases operands@.len() + 1 - t,
    {
        let mut i: usize = 0;
        proof {
            reveal(Seq::filter);
            assert(rows.subrange(0, 0) =~= Seq::<Seq<(char, bool)>>::empty());
            assert(rows_of(out@) + rows_with_count(rows.subrange(0, 0), t as nat) =~= rows_of(
                out@,
            ));
        }
        while i < all.len()
            invariant
                0 <= i <= all@.len(),
                rows_of(all@) == rows,
                rows_of(out@) == spec_rows_by_count(rows, t as nat) + rows_with_count(
                    rows.subrange(0, i as int),
                    t as nat,
                ),
            decreases all@.len() - i,
        {
            proof {
                reveal(Seq::filter);
                assert(rows.subrange(0, i + 1).drop_last() =~= rows.subrange(0, i as int));
                assert(rows.subrange(0, i + 1).last() == rows[i as int]);
                assert(rows[i as int] == all@[i as int]@);
            }
            if count_true_exec(&all[i]) == t {
                let copy = clone_row(&all[i]);
                let ghost before = rows_of(out@);
                out.push(copy);
                proof {
                    assert(rows_of(out@) =~= before.push(rows[i as int]));
                }
            }
            i = i + 1;
        }
        proof {
            assert(rows.subrange(0, rows.len() as int) =~= rows);
        }
        t = t + 1;
    }
    out
}

/// Copies a row.
fn clone_row(row: &Vec<(char, bool)>) -> (r: Vec<(char, bool)>)
    ensures
        r@ == row@,
{
    let mut out: Vec<(char, bool)> = Vec::new();
    append_row(&mut out, row);
    proof {
        assert(Seq::<(char, bool)>::empty() + row@ =~= row@);
    }
    out
}

/// The value bound to a symbol in a row; a later binding wins, as when
/// the row is poured into a map.
pub open spec fn spec_lookup(row: Seq<(char, bool)>, c: char) -> Option<bool>
    decreases row.len(),
{
    if row.len() == 0 {
        None
    } else if row.last().0 == c {
        Some(row.last().1)
    } else {
        spec_lookup(row.drop_last(), c)
    }
}

/// The assignment a row stands for.
pub open spec fn row_map(row: Seq<(char, bool)>) -> Map<char, bool> {
    Map::new(
        |c: char| spec_lookup(row, c) is Some,
        |c: char| spec_lookup(row, c)->Some_0,
    )
}

impl Operator {
    /// The left-to-right, short-circuiting evaluation of the tree over a
    /// row: `None` once an unbound variable is reached.
    pub open spec fn spec_solve(self, row: Seq<(char, bool)>) -> Option<bool>
        decreases self,
    {
        match self {
            Operator::And(a, b) => match a.spec_solve(row) {
                None => None,
                Some(va) => if !va {
                    Some(false)
                } else {
                    b.spec_solve(row)
                },
            },
            Operator::Or(a, b) => match a.spec_solve(row) {
                None => None,
                Some(va) => if va {
                    Some(true)
                } else {
                    b.spec_solve(row)
                },
            },
            Operator::Xor(a, b) => match (a.spec_solve(row), b.spec_solve(row)) {
                (Some(va), Some(vb)) => Some(va != vb),
                _ => None,
            },
            Operator::Implies(a, b) => match a.spec_solve(row) {
                None => None,
                Some(va) => if !va {
                    Some(true)
                } else {
                    b.spec_solve(row)
                },
            },
            Operator::Equals(a, b) => match (a.spec_solve(row), b.spec_solve(row)) {
                (Some(va), Some(vb)) => Some(va == vb),
                _ => None,
            },
            Operator::Not(a) => match a.spec_solve(row) {
                None => None,
                Some(va) => Some(!va),
            },
            Operator::Operand(c) => spec_lookup(row, c),
        }
    }

    /// Where it succeeds, the short-circuiting evaluation agrees with the
    /// mathematical truth value under the row's assignment.
    pub proof fn lemma_solve_matches_eval(self, row: Seq<(char, bool)>)
        requires
            self.spec_solve(row) is Some,
        ensures
            self.spec_solve(row) == Some(self.spec_eval(row_map(row))),
        decreases self,
    {
        let m = row_map(row);
        match self {
            Operator::And(a, b) => {
                a.lemma_solve_matches_eval(row);
                if a.spec_solve(row) == Some(true) {
                    b.lemma_solve_matches_eval(row);
                }
            },
            Operator::Or(a, b) => {
                a.lemma_solve_matches_eval(row);
                if a.spec_solve(row) == Some(false) {
                    b.lemma_solve_matches_eval(row);
                }
            },
            Operator::Xor(a, b) => {
                a.lemma_solve_matches_eval(row);
                b.lemma_solve_matches_eval(row);
            },
            Operator::Implies(a, b) => {
                a.lemma_solve_matches_eval(row);
                if a.spec_solve(row) == Some(true) {
                    b.lemma_solve_matches_eval(row);
                }
            },
            Operator::Equals(a, b) => {
                a.lemma_solve_matches_eval(row);
                b.lemma_solve_matches_eval(row);
            },
            Operator::Not(a) => {
                a.lemma_solve_matches_eval(row);
            },
            Operator::Operand(_) => {},
        }
    }

    /// The evaluation succeeds whenever every variable of the tree is
    /// bound by the row.
    pub proof fn lemma_solve_total(self, row: Seq<(char, bool)>)
        requires
            forall|c: char| self.spec_vars().contains(c) ==> spec_lookup(row, c) is Some,
        ensures
            self.spec_solve(row) is Some,
        decreases self,
    {
        match self {
            Operator::Operand(ch) => {
                assert(self.spec_vars().contains(ch));
            },
            Operator::Not(a) => {
                assert forall|c: char| a.spec_vars().contains(c) implies spec_lookup(
                    row,
                    c,
                ) is Some by {
                    assert(self.spec_vars().contains(c));
                }
                a.lemma_solve_total(row);
            },
            Operator::And(a, b) => {
                assert forall|c: char| a.spec_vars().contains(c) implies spec_lookup(
                    row,
                    c,
                ) is Some by {
                    assert(self.spec_vars().contains(c));
                }
                assert forall|c: char| b.spec_vars().contains(c) implies spec_lookup(
                    row,
                    c,
                ) is Some by {
                    assert(self.spec_vars().contains(c));
                }
                a.lemma_solve_total(row);
                b.lemma_solve_total(row);
            },
            Operator::Or(a, b) => {
                assert forall|c: char| a.spec_vars().contains(c) implies spec_lookup(
                    row,
                    c,
                ) is Some by {
                    assert(self.spec_vars().contains(c));
                }
                assert forall|c: char| b.spec_vars().contains(c) implies spec_lookup(
                    row,
                    c,
                ) is Some by {
                    assert(self.spec_vars().contains(c));
                }
                a.lemma_solve_total(row);
                b.lemma_solve_total(row);
            },
            Operator::Xor(a, b) => {
                assert forall|c: char| a.spec_vars().contains(c) implies spec_lookup(
                    row,
                    c,
                ) is Some by {
                    assert(self.spec_vars().contains(c));
                }
                assert forall|c: char| b.spec_vars().contains(c) implies spec_lookup(
                    row,
                    c,
                ) is Some by {
                    assert(self.spec_vars().contains(c));
                }
                a.lemma_solve_total(row);
                b.lemma_solve_total(row);
            },
            Operator::Implies(a, b) => {
                assert forall|c: char| a.spec_vars().contains(c) implies spec_lookup(
                    row,
                    c,
                ) is Some by {
                    assert(self.spec_vars().contains(c));
                }
                assert forall|c: char| b.spec_vars().contains(c) implies spec_lookup(
                    row,
                    c,
                ) is Some by {
                    assert(self.spec_vars().contains(c));
                }
                a.lemma_solve_total(row);
                b.lemma_solve_total(row);
            },
            Operator::Equals(a, b) => {
                assert forall|c: char| a.spec_vars().contains(c) implies spec_lookup(
                    row,
                    c,
                ) is Some by {
                    assert(self.spec_vars().contains(c));
                }
                assert forall|c: char| b.spec_vars().contains(c) implies spec_lookup(
                    row,
                    c,
                ) is Some by {
                    assert(self.spec_vars().contains(c));
                }
                a.lemma_solve_total(row);
                b.lemma_solve_total(row);
            },
        }
    }
}

/// Looks a symbol up in a row, the last binding winning.
fn lookup(row: &Vec<(char, bool)>, c: char) -> (r: Option<bool>)
    ensures
        r == spec_lookup(row@, c),
{
    let mut found: Option<bool> = None;
    let mut i: usize = 0;
    proof {
        assert(row@.subrange(0, 0) =~= Seq::<(char, bool)>::empty());
    }
    while i < row.len()
        invariant
            0 <= i <= row@.len(),
            found == spec_lookup(row@.subrange(0, i as int), c),
        decreases row@.len() - i,
    {
        proof {
            assert(row@.subrange(0, i + 1).drop_last() =~= row@.subrange(0, i as int));
            assert(row@.subrange(0, i + 1).last() == row@[i as int]);
        }
        if row[i].0 == c {
            found = Some(row[i].1);
        }
        i = i + 1;
    }
    proof {
        assert(row@.subrange(0, row@.len() as int) =~= row@);
    }
    found
}

/// Evaluates the tree over a row of variable bindings, left to right with
/// short-circuiting; an unbound variable reached along the way is
/// reported.
pub fn solve(node: &Operator, values: &Vec<(char, bool)>) -> (r: Result<bool, FormulaError>)
    ensures
        r == match node.spec_solve(values@) {
            Some(b) => Ok::<bool, FormulaError>(b),
            None => Err::<bool, FormulaError>(FormulaError::UnboundVariable),
        },
    decreases node.size(),
{
    match node {
        Operator::And(a, b) => {
            let va = solve(a, values)?;
            if !va {
                Ok(false)
            } else {
                solve(b, values)
            }
        },
        Operator::Or(a, b) => {
            let va = solve(a, values)?;
            if va {
                Ok(true)
            } else {
                solve(b, values)
            }
        },
        Operator::Xor(a, b) => {
            let va = solve(a, values)?;
            let vb = solve(b, values)?;
            Ok(va != vb)
        },
        Operator::Implies(a, b) => {
            let va = solve(a, values)?;
            if !va {
                Ok(true)
            } else {
                solve(b, values)
            }
        },
        Operator::Equals(a, b) => {
            let va = solve(a, values)?;
            let vb = solve(b, values)?;
            Ok(va == vb)
        },
        Operator::Not(a) => {
            let va = solve(a, values)?;
            Ok(!va)
        },
        Operator::Operand(c) => match lookup(values, *c) {
            Some(b) => Ok(b),
            None => Err(FormulaError::UnboundVariable),
        },
    }
}

/// The rows a table over the given symbols holds: every assignment in
/// sorted order, or none at all when a symbol repeats.
pub open spec fn spec_table_rows(ops: Seq<char>) -> Seq<Seq<(char, bool)>> {
    if ops.no_duplicates() {
        spec_sorted_rows(ops)
    } else {
        Seq::empty()
    }
}

/// Evaluates the tree on every assignment over the symbols, rows ordered
/// by ascending count of true variables; an unbound variable of the tree
/// is reported.
pub fn truth_table(operator: &Operator, operands: &[char]) -> (r: Result<
    Vec<(Vec<(char, bool)>, bool)>,
    FormulaError,
>)
    requires
        operands@.len() < usize::MAX,
    ensures
        match r {
            Ok(table) => table@.len() == spec_table_rows(operands@).len() && forall|i: int|
                0 <= i < spec_table_rows(operands@).len() ==> (#[trigger] table@[i]).0@
                    == spec_table_rows(operands@)[i] && operator.spec_solve(
                    spec_table_rows(operands@)[i],
                ) == Some(table@[i].1),
            Err(e) => e == FormulaError::UnboundVariable && exists|i: int|
                0 <= i < spec_table_rows(operands@).len() && operator.spec_solve(
                    #[trigger] spec_table_rows(operands@)[i],
                ) is None,
        },
{
    let combinations = operand_combinations(operands);
    let ghost rows = spec_table_rows(operands@);
    proof {
        assert(rows_of(combinations@) =~= rows);
    }
    let mut out: Vec<(Vec<(char, bool)>, bool)> = Vec::new();
    let mut i: usize = 0;
    while i < combinations.len()
        invariant
            0 <= i <= combinations@.len(),
            rows == spec_table_rows(operands@),
            rows_of(combinations@) == rows,
            out@.len() == i,
            forall|k: int|
                0 <= k < i ==> (#[trigger] out@[k]).0@ == rows[k] && operator.spec_solve(rows[k])
                    == Some(out@[k].1),
        decreases combinations@.len() - i,
    {
        proof {
            assert(combinations@[i as int]@ == rows[i as int]);
        }
        match solve(operator, &combinations[i]) {
            Ok(b) => {
                let copy = clone_row(&combinations[i]);
                out.push((copy, b));
            },
            Err(e) => {
                proof {
                    assert(operator.spec_solve(rows[i as int]) is None);
                    assert(rows[i as int] == spec_table_rows(operands@)[i as int]);
                }
                return Err(e);
            },
        }
        i = i + 1;
    }
    Ok(out)
}

/// The distinct-symbol list holds no repeats, only alphabetic symbols,
/// and every alphabetic character of the formula.
pub proof fn lemma_operands_props(s: Seq<char>)
    ensures
        spec_operands(s).no_duplicates(),
        forall|j: int| 0 <= j < spec_operands(s).len() ==> is_alpha(#[trigger] spec_operands(s)[j]),
        forall|i: int| 0 <= i < s.len() && is_alpha(#[trigger] s[i]) ==> spec_operands(s).contains(
            s[i],
        ),
    decreases s.len(),
{
    if s.len() > 0 {
        let prefix = s.drop_last();
        let prev = spec_operands(prefix);
        let cur = spec_operands(s);
        lemma_operands_props(prefix);
        if is_alpha(s.last()) && !prev.contains(s.last()) {
            assert(cur == prev.push(s.last()));
            assert(cur.no_duplicates()) by {
                assert forall|p: int, q: int| 0 <= p < cur.len() && 0 <= q < cur.len() && p
                    != q implies cur[p] != cur[q] by {
                    if p < cur.len() - 1 && q < cur.len() - 1 {
                        assert(cur[p] == prev[p] && cur[q] == prev[q]);
                    } else if p == cur.len() - 1 {
                        assert(cur[q] == prev[q]);
                        if prev[q] == s.last() {
                            assert(prev.contains(s.last()));
                        }
                    } else {
                        assert(cur[p] == prev[p]);
                        if prev[p] == s.last() {
                            assert(prev.contains(s.last()));
                        }
                    }
                }
            }
        } else {
            assert(cur == prev);
        }
        assert forall|i: int| 0 <= i < s.len() && is_alpha(#[trigger] s[i]) implies cur.contains(
            s[i],
        ) by {
            if i < s.len() - 1 {
                assert(prefix[i] == s[i]);
                assert(prev.contains(s[i]));
                let j = choose|j: int| 0 <= j < prev.len() && prev[j] == s[i];
                if is_alpha(s.last()) && !prev.contains(s.last()) {
                    assert(cur[j] == s[i]);
                } else {
                    assert(cur[j] == s[i]);
                }
            } else {
                if prev.contains(s.last()) {
                    let j = choose|j: int| 0 <= j < prev.len() && prev[j] == s.last();
                    assert(cur[j] == s.last());
                } else {
                    assert(cur[cur.len() - 1] == s.last());
                }
            }
        }
    }
}

/// Every enumerated row binds exactly the given symbols, in order.
pub proof fn lemma_assignments_shape(ops: Seq<char>)
    ensures
        spec_assignments(ops).len() >= 1,
        forall|k: int| 0 <= k < spec_assignments(ops).len() ==> (#[trigger] spec_assignments(
            ops,
        )[k]).len() == ops.len(),
        forall|k: int, j: int|
            #![trigger spec_assignments(ops)[k][j]]
            0 <= k < spec_assignments(ops).len() && 0 <= j < ops.len() ==> spec_assignments(
                ops,
            )[k][j].0 == ops[j],
    decreases ops.len(),
{
    if ops.len() > 0 {
        let rest_ops = ops.drop_first();
        let rest = spec_assignments(rest_ops);
        let cur = spec_assignments(ops);
        lemma_assignments_shape(rest_ops);
        assert forall|k: int| 0 <= k < cur.len() implies (#[trigger] cur[k]).len()
            == ops.len() by {
            if k < rest.len() {
                assert(cur[k] == seq![(ops.first(), true)] + rest[k]);
            } else {
                assert(cur[k] == seq![(ops.first(), false)] + rest[k - rest.len()]);
            }
        }
        assert forall|k: int, j: int|
            #![trigger cur[k][j]]
            0 <= k < cur.len() && 0 <= j < ops.len() implies cur[k][j].0 == ops[j] by {
            if k < rest.len() {
                assert(cur[k] == seq![(ops.first(), true)] + rest[k]);
                if j > 0 {
                    assert(cur[k][j] == rest[k][j - 1]);
                    assert(rest_ops[j - 1] == ops[j]);
                }
            } else {
                assert(cur[k] == seq![(ops.first(), false)] + rest[k - rest.len()]);
                if j > 0 {
                    assert(cur[k][j] == rest[k - rest.len()][j - 1]);
                    assert(rest_ops[j - 1] == ops[j]);
                }
            }
        }
    }
}

/// Whether a row binds each symbol to its value under `m`, in order.
pub open spec fn row_matches(row: Seq<(char, bool)>, ops: Seq<char>, m: Map<char, bool>) -> bool {
    row.len() == ops.len() && forall|j: int|
        0 <= j < row.len() ==> #[trigger] row[j] == (ops[j], m[ops[j]])
}

/// For every assignment of the symbols there is an enumerated row binding
/// each symbol that way.
pub proof fn lemma_assignments_complete(ops: Seq<char>, m: Map<char, bool>)
    ensures
        exists|k: int|
            0 <= k < spec_assignments(ops).len() && row_matches(
                #[trigger] spec_assignments(ops)[k],
                ops,
                m,
            ),
    decreases ops.len(),
{
    let cur = spec_assignments(ops);
    if ops.len() == 0 {
        assert(cur[0] =~= Seq::<(char, bool)>::empty());
        assert(row_matches(cur[0], ops, m));
    } else {
        let rest_ops = ops.drop_first();
        let rest = spec_assignments(rest_ops);
        lemma_assignments_complete(rest_ops, m);
        let k2 = choose|k2: int| 0 <= k2 < rest.len() && row_matches(rest[k2], rest_ops, m);
        let v = m[ops.first()];
        let k: int = if v {
            k2
        } else {
            rest.len() + k2
        };
        let head: Seq<(char, bool)> = seq![(ops.first(), v)];
        assert(cur[k] == head + rest[k2]);
        assert(row_matches(cur[k], ops, m)) by {
            assert forall|j: int| 0 <= j < cur[k].len() implies #[trigger] cur[k][j] == (
                ops[j],
                m[ops[j]],
            ) by {
                if j == 0 {
                    assert(cur[k][0] == (ops.first(), v));
                } else {
                    assert(cur[k][j] == rest[k2][j - 1]);
                    assert(rest_ops[j - 1] == ops[j]);
                }
            }
        }
    }
}

/// Looking a bound symbol up in a matching row gives its value under `m`.
pub proof fn lemma_lookup_matches(
    row: Seq<(char, bool)>,
    ops: Seq<char>,
    m: Map<char, bool>,
    c: char,
)
    requires
        row_matches(row, ops, m),
        ops.contains(c),
    ensures
        spec_lookup(row, c) == Some(m[c]),
    decreases row.len(),
{
    assert(row.len() > 0) by {
        let j = choose|j: int| 0 <= j < ops.len() && ops[j] == c;
    }
    assert(row[row.len() - 1] == (ops[ops.len() - 1], m[ops[ops.len() - 1]]));
    if row.last().0 == c {
    } else {
        let rp = row.drop_last();
        let op = ops.drop_last();
        assert(row_matches(rp, op, m)) by {
            assert forall|j: int| 0 <= j < rp.len() implies #[trigger] rp[j] == (
                op[j],
                m[op[j]],
            ) by {
                assert(rp[j] == row[j]);
            }
        }
        assert(op.contains(c)) by {
            let j = choose|j: int| 0 <= j < ops.len() && ops[j] == c;
            assert(ops[ops.len() - 1] == row.last().0);
            assert(j < ops.len() - 1);
            assert(op[j] == c);
        }
        lemma_lookup_matches(rp, op, m, c);
    }
}

/// A row never has more true entries than entries.
pub proof fn lemma_count_le_len(row: Seq<(char, bool)>)
    ensures
        count_true(row) <= row.len(),
    decreases row.len(),
{
    if row.len() > 0 {
        lemma_count_le_len(row.drop_last());
    }
}

/// The rows of one count block are rows of the table, and every row with
/// that count appears in its block.
pub proof fn lemma_rows_with_count_membership(rows: Seq<Seq<(char, bool)>>, t: nat)
    ensures
        forall|k: int|
            0 <= k < rows_with_count(rows, t).len() ==> rows.contains(
                #[trigger] rows_with_count(rows, t)[k],
            ) && count_true(rows_with_count(rows, t)[k]) == t,
        forall|k: int|
            0 <= k < rows.len() && count_true(#[trigger] rows[k]) == t ==> rows_with_count(
                rows,
                t,
            ).contains(rows[k]),
    decreases rows.len(),
{
    reveal(Seq::filter);
    if rows.len() > 0 {
        let prev = rows.drop_last();
        lemma_rows_with_count_membership(prev, t);
        let cur = rows_with_count(rows, t);
        let pc = rows_with_count(prev, t);
        assert forall|k: int| 0 <= k < cur.len() implies rows.contains(#[trigger] cur[k])
            && count_true(cur[k]) == t by {
            if k < pc.len() {
                assert(cur[k] == pc[k]);
                let j = choose|j: int| 0 <= j < prev.len() && prev[j] == pc[k];
                assert(rows[j] == cur[k]);
            } else {
                assert(cur[k] == rows.last());
                assert(rows[rows.len() - 1] == cur[k]);
            }
        }
        assert forall|k: int|
            0 <= k < rows.len() && count_true(#[trigger] rows[k]) == t implies cur.contains(
            rows[k],
        ) by {
            if k < rows.len() - 1 {
                assert(prev[k] == rows[k]);
                assert(pc.contains(rows[k]));
                let j = choose|j: int| 0 <= j < pc.len() && pc[j] == rows[k];
                assert(cur[j] == rows[k]);
            } else {
                assert(cur[cur.len() - 1] == rows.last());
            }
        }
    }
}

/// The regrouped table holds exactly the rows whose count lies below the
/// bound.
pub proof fn lemma_by_count_membership(rows: Seq<Seq<(char, bool)>>, bound: nat)
    ensures
        forall|k: int|
            0 <= k < spec_rows_by_count(rows, bound).len() ==> rows.contains(
                #[trigger] spec_rows_by_count(rows, bound)[k],
            ),
        forall|k: int|
            0 <= k < rows.len() && count_true(#[trigger] rows[k]) < bound ==> spec_rows_by_count(
                rows,
                bound,
            ).contains(rows[k]),
    decreases bound,
{
    if bound > 0 {
        let below = (bound - 1) as nat;
        lemma_by_count_membership(rows, below);
        lemma_rows_with_count_membership(rows, below);
        let cur = spec_rows_by_count(rows, bound);
        let prev = spec_rows_by_count(rows, below);
        let block = rows_with_count(rows, below);
        assert forall|k: int| 0 <= k < cur.len() implies rows.contains(#[trigger] cur[k]) by {
            if k < prev.len() {
                assert(cur[k] == prev[k]);
            } else {
                assert(cur[k] == block[k - prev.len()]);
            }
        }
        assert forall|k: int|
            0 <= k < rows.len() && count_true(#[trigger] rows[k]) < bound implies cur.contains(
            rows[k],
        ) by {
            if count_true(rows[k]) < below {
                assert(prev.contains(rows[k]));
                let j = choose|j: int| 0 <= j < prev.len() && prev[j] == rows[k];
                assert(cur[j] == rows[k]);
            } else {
                assert(count_true(rows[k]) == below);
                assert(block.contains(rows[k]));
                let j = choose|j: int| 0 <= j < block.len() && block[j] == rows[k];
                assert(cur[prev.len() + j] == rows[k]);
            }
        }
    }
}

/// Within the regrouped table every row's count of true entries lies
/// below the bound, and the counts never decrease along the table.
proof fn lemma_by_count_ordered(rows: Seq<Seq<(char, bool)>>, bound: nat)
    ensures
        forall|k: int|
            0 <= k < spec_rows_by_count(rows, bound).len() ==> count_true(
                #[trigger] spec_rows_by_count(rows, bound)[k],
            ) < bound,
        forall|i: int, j: int|
            #![trigger spec_rows_by_count(rows, bound)[i], spec_rows_by_count(rows, bound)[j]]
            0 <= i <= j < spec_rows_by_count(rows, bound).len() ==> count_true(
                spec_rows_by_count(rows, bound)[i],
            ) <= count_true(spec_rows_by_count(rows, bound)[j]),
    decreases bound,
{
    if bound > 0 {
        let below = (bound - 1) as nat;
        lemma_by_count_ordered(rows, below);
        lemma_rows_with_count_membership(rows, below);
        let cur = spec_rows_by_count(rows, bound);
        let prev = spec_rows_by_count(rows, below);
        let block = rows_with_count(rows, below);
        assert forall|k: int| 0 <= k < cur.len() implies count_true(#[trigger] cur[k])
            < bound by {
            if k < prev.len() {
                assert(cur[k] == prev[k]);
            } else {
                assert(cur[k] == block[k - prev.len()]);
            }
        }
        assert forall|i: int, j: int|
            #![trigger cur[i], cur[j]]
            0 <= i <= j < cur.len() implies count_true(cur[i]) <= count_true(cur[j]) by {
            if j < prev.len() {
                assert(cur[i] == prev[i] && cur[j] == prev[j]);
            } else if i < prev.len() {
                assert(cur[i] == prev[i]);
                assert(count_true(prev[i]) < below + 1);
                assert(cur[j] == block[j - prev.len()]);
                assert(count_true(cur[j]) == below);
            } else {
                assert(cur[i] == block[i - prev.len()]);
                assert(cur[j] == block[j - prev.len()]);
            }
        }
    }
}

/// Truth-table row order: along the table, the count of true variables
/// never decreases.
pub proof fn lemma_sorted_rows_ordered(ops: Seq<char>)
    ensures
        forall|i: int, j: int|
            #![trigger spec_sorted_rows(ops)[i], spec_sorted_rows(ops)[j]]
            0 <= i <= j < spec_sorted_rows(ops).len() ==> count_true(spec_sorted_rows(ops)[i])
                <= count_true(spec_sorted_rows(ops)[j]),
{
    lemma_by_count_ordered(spec_assignments(ops), ops.len() + 1);
}

impl Operator {
    /// The solver and the truth table agree: on a formula whose variables
    /// are already uppercase, some assignment satisfies the parsed tree
    /// exactly when some row of the formula's truth table evaluates to
    /// true.
    pub proof fn lemma_sat_matches_truth_table(s: Seq<char>, t: Operator)
        requires
            Operator::spec_from_formula(s) == Ok::<Option<Operator>, FormulaError>(Some(t)),
            forall|i: int| 0 <= i < s.len() && is_alpha(#[trigger] s[i]) ==> upper_of(s[i]) == s[i],
        ensures
            (exists|m: Map<char, bool>| t.spec_eval(m)) <==> (exists|k: int|
                0 <= k < spec_table_rows(spec_operands(s)).len() && t.spec_solve(
                    #[trigger] spec_table_rows(spec_operands(s))[k],
                ) == Some(true)),
    {
        let ops = spec_operands(s);
        lemma_operands_props(s);
        assert(spec_table_rows(ops) == spec_sorted_rows(ops));
        let rows = spec_assignments(ops);
        let sorted = spec_sorted_rows(ops);
        lemma_assignments_shape(ops);
        lemma_by_count_membership(rows, ops.len() + 1);
        Operator::lemma_parse_stack_vars(s);
        let stack = Operator::spec_parse_tokens(s)->Ok_0;
        assert(stack[0] == t);
        assert forall|c: char| t.spec_vars().contains(c) implies ops.contains(c) by {
            assert(stack[0].spec_vars().contains(c));
            let i = choose|i: int|
                0 <= i < s.len() && is_alpha(#[trigger] s[i]) && upper_of(s[i]) == c;
            assert(s[i] == c);
        }
        if exists|k: int|
            0 <= k < sorted.len() && t.spec_solve(#[trigger] sorted[k]) == Some(true) {
            let k = choose|k: int|
                0 <= k < sorted.len() && t.spec_solve(#[trigger] sorted[k]) == Some(true);
            let row = sorted[k];
            assert(rows.contains(row));
            t.lemma_solve_matches_eval(row);
            assert(t.spec_eval(row_map(row)));
        }
        if exists|m: Map<char, bool>| t.spec_eval(m) {
            let m = choose|m: Map<char, bool>| t.spec_eval(m);
            lemma_assignments_complete(ops, m);
            let k = choose|k: int|
                0 <= k < rows.len() && row_matches(#[trigger] rows[k], ops, m);
            let row = rows[k];
            assert forall|c: char| t.spec_vars().contains(c) implies spec_lookup(
                row,
                c,
            ) is Some by {
                lemma_lookup_matches(row, ops, m, c);
            }
            t.lemma_solve_total(row);
            t.lemma_solve_matches_eval(row);
            assert forall|c: char| t.spec_vars().contains(c) implies row_map(row)[c] == m[c] by {
                lemma_lookup_matches(row, ops, m, c);
            }
            t.lemma_eval_depends_on_vars(row_map(row), m);
            assert(t.spec_solve(row) == Some(true));
            lemma_count_le_len(row);
            assert(count_true(row) < ops.len() + 1);
            assert(sorted.contains(row));
            let k3 = choose|k3: int| 0 <= k3 < sorted.len() && sorted[k3] == row;
            assert(t.spec_solve(spec_table_rows(ops)[k3]) == Some(true));
        }
    }
}

} // verus!
