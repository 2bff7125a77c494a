//! Integer programs as plain data: binary variables numbered from 0, linear
//! expressions with integer coefficients, constraints, and objectives with
//! rational coefficients, maximised.
use vstd::prelude::*;

verus! {

/// A linear expression: a sum of (variable, coefficient) terms plus a
/// constant.
#[derive(Debug)]
pub struct LinExpr {
    pub terms: Vec<(usize, i128)>,
    pub constant: i128,
}

/// The mathematical value of a linear expression.
#[verifier::ext_equal]
pub struct ExprV {
    pub terms: Seq<(usize, i128)>,
    pub constant: int,
}

impl View for LinExpr {
    type V = ExprV;

    open spec fn view(&self) -> ExprV {
        ExprV { terms: self.terms@, constant: self.constant as int }
    }
}

/// How the two sides of a constraint relate.
#[derive(Debug, Clone, Copy, PartialEq, Eq, Structural)]
pub enum Relation {
    AtMost,
    Exactly,
    AtLeast,
}

/// The constraint `lhs relation rhs`.
#[derive(Debug)]
pub struct LinConstraint {
    pub lhs: LinExpr,
    pub relation: Relation,
    pub rhs: LinExpr,
}

/// The mathematical value of a constraint.
#[verifier::ext_equal]
pub struct ConstraintV {
    pub lhs: ExprV,
    pub relation: Relation,
    pub rhs: ExprV,
}

impl View for LinConstraint {
    type V = ConstraintV;

    open spec fn view(&self) -> ConstraintV {
        ConstraintV { lhs: self.lhs@, relation: self.relation, rhs: self.rhs@ }
    }
}

/// The views of a list of constraints.
pub open spec fn constraint_views(v: Seq<LinConstraint>) -> Seq<ConstraintV> {
    v.map_values(|c: LinConstraint| c@)
}

/// The value of variable `x` in a solution given by the variables that
/// are set: 1 if set, 0 otherwise.
pub open spec fn value(vals: Seq<bool>, x: usize) -> int {
    if x < vals.len() && vals[x as int] {
        1
    } else {
        0
    }
}

/// The value of a sum of terms in the solution `vals`.
pub open spec fn eval_terms(terms: Seq<(usize, i128)>, vals: Seq<bool>) -> int
    decreases terms.len(),
{
    if terms.len() == 0 {
        0
    } else {
        eval_terms(terms.drop_last(), vals) + terms.last().1 * value(vals, terms.last().0)
    }
}

/// The value of an expression in the solution `vals`.
pub open spec fn eval(e: ExprV, vals: Seq<bool>) -> int {
    eval_terms(e.terms, vals) + e.constant
}

/// The solution `vals` meets the constraint `c`.
pub open spec fn holds(c: ConstraintV, vals: Seq<bool>) -> bool {
    match c.relation {
        Relation::AtMost => eval(c.lhs, vals) <= eval(c.rhs, vals),
        Relation::Exactly => eval(c.lhs, vals) == eval(c.rhs, vals),
        Relation::AtLeast => eval(c.lhs, vals) >= eval(c.rhs, vals),
    }
}

/// The solution `vals` meets every constraint of `cs`.
pub open spec fn satisfies(cs: Seq<ConstraintV>, vals: Seq<bool>) -> bool {
    forall|i: int| 0 <= i < cs.len() ==> #[trigger] holds(cs[i], vals)
}

/// A solution that meets two lists of constraints together meets each.
pub proof fn lemma_sat_split(x: Seq<ConstraintV>, y: Seq<ConstraintV>, vals: Seq<bool>)
    requires
        satisfies(x + y, vals),
    ensures
        satisfies(x, vals),
        satisfies(y, vals),
{
    assert forall|i: int| 0 <= i < x.len() implies #[trigger] holds(x[i], vals) by {
        assert((x + y)[i] == x[i]);
    }
    assert forall|i: int| 0 <= i < y.len() implies #[trigger] holds(y[i], vals) by {
        assert((x + y)[x.len() + i] == y[i]);
    }
}

/// The value of a concatenation of terms is the sum of the values.
pub proof fn lemma_eval_concat(x: Seq<(usize, i128)>, y: Seq<(usize, i128)>, vals: Seq<bool>)
    ensures
        eval_terms(x + y, vals) == eval_terms(x, vals) + eval_terms(y, vals),
    decreases y.len(),
{
    if y.len() == 0 {
        assert(x + y =~= x);
    } else {
        assert((x + y).drop_last() =~= x + y.drop_last());
        assert((x + y).last() == y.last());
        lemma_eval_concat(x, y.drop_last(), vals);
    }
}

/// Every term of `t` has coefficient 1.
pub open spec fn unit_terms(t: Seq<(usize, i128)>) -> bool {
    forall|i: int| 0 <= i < t.len() ==> (#[trigger] t[i]).1 == 1
}

/// Concatenating terms with coefficient 1 gives terms with coefficient 1.
pub proof fn lemma_unit_concat(x: Seq<(usize, i128)>, y: Seq<(usize, i128)>)
    requires
        unit_terms(x),
        unit_terms(y),
    ensures
        unit_terms(x + y),
        forall|e: (usize, i128)| x.contains(e) ==> #[trigger] (x + y).contains(e),
        forall|e: (usize, i128)| y.contains(e) ==> #[trigger] (x + y).contains(e),
{
    assert forall|i: int| 0 <= i < (x + y).len() implies (#[trigger] (x + y)[i]).1 == 1 by {
        if i < x.len() {
            assert((x + y)[i] == x[i]);
        } else {
            assert((x + y)[i] == y[i - x.len()]);
        }
    }
    assert forall|e: (usize, i128)| x.contains(e) implies #[trigger] (x + y).contains(e) by {
        let i = choose|i: int| 0 <= i < x.len() && x[i] == e;
        assert((x + y)[i] == e);
    }
    assert forall|e: (usize, i128)| y.contains(e) implies #[trigger] (x + y).contains(e) by {
        let i = choose|i: int| 0 <= i < y.len() && y[i] == e;
        assert((x + y)[x.len() + i] == e);
    }
}

/// A sum of terms with coefficient 1 is at least the values of any two
/// different variables among them.
pub proof fn lemma_unit_sum(t: Seq<(usize, i128)>, vals: Seq<bool>, x: usize, y: usize)
    requires
        unit_terms(t),
    ensures
        eval_terms(t, vals) >= 0,
        t.contains((x, 1i128)) ==> eval_terms(t, vals) >= value(vals, x),
        x != y && t.contains((x, 1i128)) && t.contains((y, 1i128)) ==> eval_terms(t, vals) >= value(vals, x)
            + value(vals, y) && t.len() > 1,
    decreases t.len(),
{
    if t.len() > 0 {
        let u = t.drop_last();
        assert forall|i: int| 0 <= i < u.len() implies (#[trigger] u[i]).1 == 1 by {
            assert(u[i] == t[i]);
        }
        lemma_unit_sum(u, vals, x, y);
        lemma_unit_sum(u, vals, y, x);
        assert(t.last().1 == 1);
        assert(value(vals, t.last().0) >= 0);
        assert(eval_terms(t, vals) == eval_terms(u, vals) + value(vals, t.last().0));
        if t.contains((x, 1i128)) && t.last() != (x, 1i128) {
            let i = choose|i: int| 0 <= i < t.len() && t[i] == (x, 1i128);
            assert(u[i] == (x, 1i128));
        }
        if t.contains((y, 1i128)) && t.last() != (y, 1i128) {
            let i = choose|i: int| 0 <= i < t.len() && t[i] == (y, 1i128);
            assert(u[i] == (y, 1i128));
        }
        if x != y && t.contains((x, 1i128)) && t.contains((y, 1i128)) {
            if t.last() == (x, 1i128) {
                assert(u.contains((y, 1i128)));
                assert(u.len() >= 1);
                assert(eval_terms(u, vals) >= value(vals, y));
            } else if t.last() == (y, 1i128) {
                assert(u.contains((x, 1i128)));
                assert(eval_terms(u, vals) >= value(vals, x));
            } else {
                assert(u.contains((x, 1i128)));
                assert(u.contains((y, 1i128)));
            }
        }
    }
}

/// A rational coefficient `num / den`.
#[derive(Debug, Clone, Copy, PartialEq, Eq, Structural)]
pub struct Coefficient {
    pub num: i128,
    pub den: u128,
}

/// How a variable of a program may be set.
#[derive(Debug, Clone, Copy, PartialEq, Eq, Structural)]
pub enum VarKind {
    /// 0 or 1.
    Binary,
    /// 0 or 1, with a first value suggested to the solver.
    BinaryFrom(bool),
    /// An integer fixed at 1.
    One,
}

/// A maximisation program; its variables are numbered by their position in
/// `vars`. `mip_gap` asks for a relative gap of one half, `time_limit` for a
/// limit of one second. With `keep_previous`, the expression must reach at
/// least the value it had in the solution of the program solved before.
#[derive(Debug)]
pub struct LpProblem {
    pub vars: Vec<VarKind>,
    pub objective: Vec<(usize, Coefficient)>,
    pub constraints: Vec<LinConstraint>,
    pub mip_gap: bool,
    pub time_limit: bool,
    pub keep_previous: Option<LinExpr>,
}

/// The variables of a program under construction, numbered in order of
/// creation.
#[derive(Debug)]
pub struct VarPool {
    pub count: usize,
}

impl VarPool {
    pub fn new() -> (res: Self)
        ensures
            res.count == 0,
    {
        VarPool { count: 0 }
    }

    /// A new variable: the next number.
    pub fn add(&mut self) -> (res: usize)
        requires
            old(self).count < usize::MAX,
        ensures
            res == old(self).count,
            final(self).count == old(self).count + 1,
    {
        let v = self.count;
        self.count = self.count + 1;
        v
    }
}

/// The present entries of `rows`, read row by row, are exactly the numbers
/// `lo, lo + 1, .., hi - 1` in this order.
pub open spec fn numbered(rows: Seq<Seq<Option<usize>>>, lo: int, hi: int) -> bool {
    &&& lo <= hi
    &&& forall|r: int, c: int|
        0 <= r < rows.len() && 0 <= c < rows[r].len() && (#[trigger] rows[r][c]) is Some ==> lo
            <= rows[r][c]->0 < hi
    &&& forall|r1: int, c1: int, r2: int, c2: int|
        0 <= r1 < rows.len() && 0 <= c1 < rows[r1].len() && 0 <= r2 < rows.len() && 0 <= c2
            < rows[r2].len() && (r1 < r2 || (r1 == r2 && c1 < c2)) && (#[trigger] rows[r1][c1]) is Some
            && (#[trigger] rows[r2][c2]) is Some ==> rows[r1][c1]->0 < rows[r2][c2]->0
    &&& forall|x: int| lo <= x < hi ==> #[trigger] has_number(rows, x)
}

/// Some entry of `rows` is the number `x`.
pub open spec fn has_number(rows: Seq<Seq<Option<usize>>>, x: int) -> bool {
    exists|r: int, c: int| 0 <= r < rows.len() && 0 <= c < rows[r].len() && #[trigger] rows[r][c] == Some(x as usize)
}

/// Starting a new, empty row.
pub proof fn lemma_numbered_new_row(rows: Seq<Seq<Option<usize>>>, lo: int, hi: int)
    requires
        numbered(rows, lo, hi),
    ensures
        numbered(rows.push(Seq::empty()), lo, hi),
{
    let rows2 = rows.push(Seq::empty());
    assert forall|x: int| lo <= x < hi implies #[trigger] has_number(rows2, x) by {
        assert(has_number(rows, x));
        let (r, c) = choose|r: int, c: int|
            0 <= r < rows.len() && 0 <= c < rows[r].len() && #[trigger] rows[r][c] == Some(x as usize);
        assert(rows2[r] == rows[r]);
        assert(rows2[r][c] == Some(x as usize));
    }
}

/// Extending the last row by an absent entry.
pub proof fn lemma_numbered_push_none(rows: Seq<Seq<Option<usize>>>, lo: int, hi: int)
    requires
        rows.len() > 0,
        numbered(rows, lo, hi),
    ensures
        numbered(rows.update(rows.len() - 1, rows.last().push(None)), lo, hi),
{
    let k = rows.len() - 1;
    let rows2 = rows.update(k, rows.last().push(None));
    assert forall|r: int, c: int|
        0 <= r < rows2.len() && 0 <= c < rows2[r].len() && (#[trigger] rows2[r][c]) is Some implies rows2[r][c]
            == rows[r][c] && c < rows[r].len() by {
        if r == k {
            assert(rows2[r] == rows.last().push(None));
        }
    }
    assert forall|x: int| lo <= x < hi implies #[trigger] has_number(rows2, x) by {
        assert(has_number(rows, x));
        let (r, c) = choose|r: int, c: int|
            0 <= r < rows.len() && 0 <= c < rows[r].len() && #[trigger] rows[r][c] == Some(x as usize);
        if r == k {
            assert(rows2[r][c] == rows[r][c]);
        } else {
            assert(rows2[r] == rows[r]);
        }
        assert(rows2[r][c] == Some(x as usize));
    }
}

/// Extending the last row by the next number.
pub proof fn lemma_numbered_push_some(rows: Seq<Seq<Option<usize>>>, lo: int, hi: int)
    requires
        rows.len() > 0,
        numbered(rows, lo, hi),
        0 <= hi < usize::MAX,
    ensures
        numbered(rows.update(rows.len() - 1, rows.last().push(Some(hi as usize))), lo, hi + 1),
{
    let k = rows.len() - 1;
    let rows2 = rows.update(k, rows.last().push(Some(hi as usize)));
    assert forall|r: int, c: int|
        0 <= r < rows2.len() && 0 <= c < rows2[r].len() && (#[trigger] rows2[r][c]) is Some implies (r
            == k && c == rows[k].len()) || (rows2[r][c] == rows[r][c] && c < rows[r].len()) by {
        if r == k {
            assert(rows2[r] == rows.last().push(Some(hi as usize)));
        }
    }
    assert forall|x: int| lo <= x < hi + 1 implies #[trigger] has_number(rows2, x) by {
        if x == hi {
            assert(rows2[k][rows[k].len() as int] == Some(hi as usize));
        } else {
            assert(has_number(rows, x));
            let (r, c) = choose|r: int, c: int|
                0 <= r < rows.len() && 0 <= c < rows[r].len() && #[trigger] rows[r][c] == Some(x as usize);
            if r == k {
                assert(rows2[r][c] == rows[r][c]);
            } else {
                assert(rows2[r] == rows[r]);
            }
            assert(rows2[r][c] == Some(x as usize));
        }
    }
}

} // verus!
