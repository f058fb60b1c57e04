//! Systems of linear equations and their solution by Gaussian elimination.
use vstd::prelude::*;
use crate::equation::Equation;
use crate::math::{first_nonzero, first_nonzero_index, lemma_first_nonzero_from, near_zero};
use crate::scalar::Scalar;
use crate::vector::{dot, lemma_dot_scaled_left, lemma_dot_sum, scaled, sum, vector, Vector};

verus! {

/// An equation as a normal vector and a constant term.
pub type Row = (Seq<real>, real);

/// Every row has `dim` unknowns.
pub open spec fn rows_have_dim(s: Seq<Row>, dim: nat) -> bool {
    forall|i: int| 0 <= i < s.len() ==> (#[trigger] s[i]).0.len() == dim
}

/// The coefficient of row `row` at column `col`.
pub open spec fn coef(s: Seq<Row>, row: int, col: int) -> real {
    s[row].0[col]
}

/// A row with both terms times `k`.
pub open spec fn row_scaled(r: Row, k: real) -> Row {
    (scaled(r.0, k), r.1 * k)
}

/// The termwise sum of two rows.
pub open spec fn row_sum(a: Row, b: Row) -> Row {
    (sum(a.0, b.0), a.1 + b.1)
}

/// Rows `i` and `j` traded.
pub open spec fn swap_spec(s: Seq<Row>, i: int, j: int) -> Seq<Row> {
    s.update(i, s[j]).update(j, s[i])
}

/// Row `row` times `k`.
pub open spec fn scale_row_spec(s: Seq<Row>, k: real, row: int) -> Seq<Row> {
    s.update(row, row_scaled(s[row], k))
}

/// Row `dst` replaced by `k` times row `src` plus row `dst`.
pub open spec fn add_multiple_spec(s: Seq<Row>, k: real, src: int, dst: int) -> Seq<Row> {
    s.update(dst, row_sum(row_scaled(s[src], k), s[dst]))
}

/// Row `target` with the multiple of row `row` added that clears its coefficient at `col`.
pub open spec fn clear_coefficient_spec(s: Seq<Row>, row: int, col: int, target: int) -> Seq<Row> {
    add_multiple_spec(s, -(coef(s, target, col) / coef(s, row, col)), row, target)
}

/// Column `col` cleared, with row `row`, in rows `t` onward.
pub open spec fn clear_below_from(s: Seq<Row>, row: int, col: int, t: int) -> Seq<Row>
    decreases s.len() - t,
{
    if t >= s.len() || t < 0 {
        s
    } else {
        clear_below_from(clear_coefficient_spec(s, row, col, t), row, col, t + 1)
    }
}

/// Column `col` cleared, with row `row`, in rows `t` up to `row`.
pub open spec fn clear_above_from(s: Seq<Row>, row: int, col: int, t: int) -> Seq<Row>
    decreases row - t,
{
    if t >= row || t < 0 {
        s
    } else {
        clear_above_from(clear_coefficient_spec(s, row, col, t), row, col, t + 1)
    }
}

/// The first row at or after `t` whose coefficient at `col` is not near zero.
pub open spec fn nonzero_below(s: Seq<Row>, col: int, t: int) -> Option<int>
    decreases s.len() - t,
{
    if t >= s.len() || t < 0 {
        None
    } else if !near_zero(coef(s, t, col)) {
        Some(t)
    } else {
        nonzero_below(s, col, t + 1)
    }
}

/// Forward elimination from row `row` and column `col` on: at each step the row
/// takes the first row at or below it with a coefficient not near zero in the
/// column, that row clears the column below it, and row and column advance; a
/// column with no such row is passed over.
pub open spec fn triangular_from(s: Seq<Row>, dim: int, row: int, col: int) -> Seq<Row>
    decreases dim - col,
{
    if row >= s.len() || col >= dim || row < 0 || col < 0 {
        s
    } else if !near_zero(coef(s, row, col)) {
        triangular_from(clear_below_from(s, row, col, row + 1), dim, row + 1, col + 1)
    } else {
        match nonzero_below(s, col, row + 1) {
            Some(t) => triangular_from(
                clear_below_from(swap_spec(s, row, t), row, col, row + 1),
                dim,
                row + 1,
                col + 1,
            ),
            None => triangular_from(s, dim, row, col + 1),
        }
    }
}

/// The triangular form of a system with `dim` unknowns.
pub open spec fn triangular_form(s: Seq<Row>, dim: int) -> Seq<Row> {
    triangular_from(s, dim, 0, 0)
}

/// Backward elimination over rows `i - 1` down to `0`: a row with a pivot (a
/// first coefficient not near zero) is scaled so that the pivot is one, then
/// clears the pivot's column in every row above it.
pub open spec fn rref_from(s: Seq<Row>, i: int) -> Seq<Row>
    decreases i,
{
    if i <= 0 || i > s.len() {
        s
    } else {
        let r = i - 1;
        match first_nonzero(s[r].0) {
            Some(c) => rref_from(
                clear_above_from(scale_row_spec(s, 1real / coef(s, r, c), r), r, c, 0),
                r,
            ),
            None => rref_from(s, r),
        }
    }
}

/// The reduced row-echelon form of a system with `dim` unknowns.
pub open spec fn rref(s: Seq<Row>, dim: int) -> Seq<Row> {
    let t = triangular_form(s, dim);
    rref_from(t, t.len() as int)
}

/// Some row has a normal vector near zero throughout and a constant that is not.
pub open spec fn contradictory(s: Seq<Row>) -> bool {
    exists|i: int| 0 <= i < s.len() && first_nonzero((#[trigger] s[i]).0) is None && !near_zero(s[i].1)
}

/// The number of rows below `i` that have a pivot.
pub open spec fn pivot_count_upto(s: Seq<Row>, i: int) -> int
    decreases i,
{
    if i <= 0 {
        0
    } else {
        pivot_count_upto(s, i - 1) + if first_nonzero(s[i - 1].0) is Some {
            1int
        } else {
            0int
        }
    }
}

/// The number of rows that have a pivot.
pub open spec fn pivot_count(s: Seq<Row>) -> int {
    pivot_count_upto(s, s.len() as int)
}

/// `x` satisfies the row.
pub open spec fn satisfies(r: Row, x: Seq<real>) -> bool {
    dot(r.0, x) == r.1
}

/// `x` satisfies every row.
pub open spec fn is_solution(s: Seq<Row>, x: Seq<real>) -> bool {
    forall|i: int| 0 <= i < s.len() ==> satisfies(#[trigger] s[i], x)
}

/// The outcome of solving a system.
#[derive(Debug, PartialEq)]
pub enum Solution {
    /// The point read off the reduced form, one coordinate per unknown.
    Unique(Vector),
    /// The system contradicts itself.
    NoSolution(String),
    /// The system leaves unknowns free.
    InfiniteSolutions(String),
}

/// The outcome that a system in reduced row-echelon form `f` with `dim`
/// unknowns has: no solution where some row reads `0 = k` with `k` not near
/// zero; else infinitely many where fewer rows than unknowns have a pivot; else
/// the point whose coordinates are the constants of the first `dim` rows.
pub open spec fn classifies(f: Seq<Row>, dim: nat, r: Solution) -> bool {
    match r {
        Solution::NoSolution(m) => contradictory(f) && m@ == "No solutions"@,
        Solution::InfiniteSolutions(m) => !contradictory(f) && pivot_count(f) < dim && m@
            == "Infinitely many solutions"@,
        Solution::Unique(v) => !contradictory(f) && pivot_count(f) >= dim && v@ == Seq::new(
            dim,
            |i: int| f[i].1,
        ),
    }
}

/// What `nonzero_below` returns: the least row at or after `t` whose coefficient
/// at `col` is not near zero.
pub proof fn lemma_nonzero_below(s: Seq<Row>, col: int, t: int)
    requires
        0 <= t,
    ensures
        match nonzero_below(s, col, t) {
            Some(k) => t <= k < s.len() && !near_zero(coef(s, k, col)),
            None => forall|j: int| t <= j < s.len() ==> near_zero(#[trigger] coef(s, j, col)),
        },
    decreases s.len() - t,
{
    if t < s.len() && near_zero(coef(s, t, col)) {
        lemma_nonzero_below(s, col, t + 1);
    }
}

/// No more rows than those below `i` have a pivot.
pub proof fn lemma_pivot_count_bound(s: Seq<Row>, i: int)
    requires
        0 <= i,
    ensures
        0 <= pivot_count_upto(s, i) <= i,
    decreases i,
{
    if i > 0 {
        lemma_pivot_count_bound(s, i - 1);
    }
}

/// Trading two rows never changes the solution set.
pub proof fn lemma_swap_preserves_solutions(s: Seq<Row>, i: int, j: int, x: Seq<real>)
    requires
        0 <= i < s.len(),
        0 <= j < s.len(),
    ensures
        is_solution(swap_spec(s, i, j), x) == is_solution(s, x),
{
    let t = swap_spec(s, i, j);
    if is_solution(s, x) {
        assert forall|m: int| 0 <= m < t.len() implies satisfies(#[trigger] t[m], x) by {
            if m == j {
                assert(satisfies(s[i], x));
            } else if m == i {
                assert(satisfies(s[j], x));
            } else {
                assert(satisfies(s[m], x));
            }
        }
    }
    if is_solution(t, x) {
        assert forall|m: int| 0 <= m < s.len() implies satisfies(#[trigger] s[m], x) by {
            if m == i {
                assert(satisfies(t[j], x));
            } else if m == j {
                assert(satisfies(t[i], x));
            } else {
                assert(satisfies(t[m], x));
            }
        }
    }
}

/// Scaling a row by a factor other than zero never changes the solution set.
pub proof fn lemma_scale_preserves_solutions(s: Seq<Row>, k: real, row: int, x: Seq<real>)
    requires
        0 <= row < s.len(),
        k != 0real,
    ensures
        is_solution(scale_row_spec(s, k, row), x) == is_solution(s, x),
{
    let t = scale_row_spec(s, k, row);
    let n = s[row].0;
    lemma_dot_scaled_left(n, x, k, n.len() as int);
    let d = dot(n, x);
    let c = s[row].1;
    assert(k * d == c * k <==> d == c) by (nonlinear_arith)
        requires
            k != 0real,
    ;
    assert(satisfies(t[row], x) == satisfies(s[row], x));
    if is_solution(s, x) {
        assert forall|m: int| 0 <= m < t.len() implies satisfies(#[trigger] t[m], x) by {
            assert(satisfies(s[m], x));
        }
    }
    if is_solution(t, x) {
        assert forall|m: int| 0 <= m < s.len() implies satisfies(#[trigger] s[m], x) by {
            assert(satisfies(t[m], x));
        }
    }
}

/// Adding a multiple of one row to another row never changes the solution set.
pub proof fn lemma_add_multiple_preserves_solutions(
    s: Seq<Row>,
    k: real,
    src: int,
    dst: int,
    x: Seq<real>,
)
    requires
        0 <= src < s.len(),
        0 <= dst < s.len(),
        src != dst,
        s[src].0.len() == s[dst].0.len(),
    ensures
        is_solution(add_multiple_spec(s, k, src, dst), x) == is_solution(s, x),
{
    let t = add_multiple_spec(s, k, src, dst);
    let a = s[src].0;
    let b = s[dst].0;
    lemma_dot_sum(scaled(a, k), b, x, a.len() as int);
    lemma_dot_scaled_left(a, x, k, a.len() as int);
    assert(t[src] == s[src]);
    assert(dot(t[dst].0, x) == k * dot(a, x) + dot(b, x));
    assert(t[dst].1 == s[src].1 * k + s[dst].1);
    let (da, db, ca, cb) = (dot(a, x), dot(b, x), s[src].1, s[dst].1);
    assert(da == ca ==> (k * da + db == ca * k + cb <==> db == cb)) by (nonlinear_arith);
    if is_solution(s, x) {
        assert(satisfies(s[src], x));
        assert(satisfies(s[dst], x));
        assert forall|m: int| 0 <= m < t.len() implies satisfies(#[trigger] t[m], x) by {
            if m != dst {
                assert(satisfies(s[m], x));
            }
        }
    }
    if is_solution(t, x) {
        assert(satisfies(t[src], x));
        assert(satisfies(t[dst], x));
        assert forall|m: int| 0 <= m < s.len() implies satisfies(#[trigger] s[m], x) by {
            if m != dst {
                assert(satisfies(t[m], x));
            }
        }
    }
}

/// Clearing a column below a row keeps the solution set and the rows' length.
pub proof fn lemma_clear_below_preserves(s: Seq<Row>, dim: nat, row: int, col: int, t: int, x: Seq<real>)
    requires
        rows_have_dim(s, dim),
        0 <= row < s.len(),
        row < t,
    ensures
        rows_have_dim(clear_below_from(s, row, col, t), dim),
        clear_below_from(s, row, col, t).len() == s.len(),
        is_solution(clear_below_from(s, row, col, t), x) == is_solution(s, x),
    decreases s.len() - t,
{
    if t < s.len() {
        let s1 = clear_coefficient_spec(s, row, col, t);
        lemma_add_multiple_preserves_solutions(s, -(coef(s, t, col) / coef(s, row, col)), row, t, x);
        assert(rows_have_dim(s1, dim)) by {
            assert forall|i: int| 0 <= i < s1.len() implies (#[trigger] s1[i]).0.len() == dim by {
                assert(s[i].0.len() == dim);
            }
        }
        lemma_clear_below_preserves(s1, dim, row, col, t + 1, x);
    }
}

/// Trading two rows keeps the rows' length.
proof fn lemma_swap_keeps_dim(s: Seq<Row>, dim: nat, i: int, j: int)
    requires
        rows_have_dim(s, dim),
        0 <= i < s.len(),
        0 <= j < s.len(),
    ensures
        rows_have_dim(swap_spec(s, i, j), dim),
{
    let t = swap_spec(s, i, j);
    assert forall|m: int| 0 <= m < t.len() implies (#[trigger] t[m]).0.len() == dim by {
        assert(s[i].0.len() == dim);
        assert(s[j].0.len() == dim);
        assert(s[m].0.len() == dim);
    }
}

/// Forward elimination from any row and column on keeps the solution set.
pub proof fn lemma_triangular_from_preserves(s: Seq<Row>, dim: int, row: int, col: int, x: Seq<real>)
    requires
        dim >= 0,
        rows_have_dim(s, dim as nat),
    ensures
        is_solution(triangular_from(s, dim, row, col), x) == is_solution(s, x),
    decreases dim - col,
{
    if row >= s.len() || col >= dim || row < 0 || col < 0 {
    } else if !near_zero(coef(s, row, col)) {
        lemma_clear_below_preserves(s, dim as nat, row, col, row + 1, x);
        lemma_triangular_from_preserves(clear_below_from(s, row, col, row + 1), dim, row + 1, col + 1, x);
    } else {
        lemma_nonzero_below(s, col, row + 1);
        match nonzero_below(s, col, row + 1) {
            Some(t) => {
                let s1 = swap_spec(s, row, t);
                lemma_swap_preserves_solutions(s, row, t, x);
                lemma_swap_keeps_dim(s, dim as nat, row, t);
                lemma_clear_below_preserves(s1, dim as nat, row, col, row + 1, x);
                lemma_triangular_from_preserves(clear_below_from(s1, row, col, row + 1), dim, row + 1, col + 1, x);
            },
            None => {
                lemma_triangular_from_preserves(s, dim, row, col + 1, x);
            },
        }
    }
}

/// The triangular form of a system has the same solutions as the system.
pub proof fn lemma_triangular_form_preserves_solutions(s: Seq<Row>, dim: int, x: Seq<real>)
    requires
        dim >= 0,
        rows_have_dim(s, dim as nat),
    ensures
        is_solution(triangular_form(s, dim), x) == is_solution(s, x),
{
    lemma_triangular_from_preserves(s, dim, 0, 0, x);
}

/// Clearing a column above a row keeps the solution set and the rows' length.
pub proof fn lemma_clear_above_preserves(s: Seq<Row>, dim: nat, row: int, col: int, t: int, x: Seq<real>)
    requires
        rows_have_dim(s, dim),
        0 <= row < s.len(),
        0 <= t,
    ensures
        rows_have_dim(clear_above_from(s, row, col, t), dim),
        clear_above_from(s, row, col, t).len() == s.len(),
        is_solution(clear_above_from(s, row, col, t), x) == is_solution(s, x),
    decreases row - t,
{
    if t < row {
        let s1 = clear_coefficient_spec(s, row, col, t);
        lemma_add_multiple_preserves_solutions(s, -(coef(s, t, col) / coef(s, row, col)), row, t, x);
        assert(rows_have_dim(s1, dim)) by {
            assert forall|i: int| 0 <= i < s1.len() implies (#[trigger] s1[i]).0.len() == dim by {
                assert(s[i].0.len() == dim);
            }
        }
        lemma_clear_above_preserves(s1, dim, row, col, t + 1, x);
    }
}

/// Backward elimination over the rows below `i` keeps the solution set.
pub proof fn lemma_rref_from_preserves(s: Seq<Row>, dim: nat, i: int, x: Seq<real>)
    requires
        rows_have_dim(s, dim),
    ensures
        rows_have_dim(rref_from(s, i), dim),
        is_solution(rref_from(s, i), x) == is_solution(s, x),
    decreases i,
{
    if i <= 0 || i > s.len() {
    } else {
        let r = i - 1;
        lemma_first_nonzero_from(s[r].0, 0);
        match first_nonzero(s[r].0) {
            Some(c) => {
                let a = coef(s, r, c);
                crate::math::lemma_nonzero_not_zero(a);
                assert(1real / a != 0real) by (nonlinear_arith)
                    requires
                        a != 0real,
                ;
                let s1 = scale_row_spec(s, 1real / a, r);
                lemma_scale_preserves_solutions(s, 1real / a, r, x);
                assert(rows_have_dim(s1, dim)) by {
                    assert forall|m: int| 0 <= m < s1.len() implies (#[trigger] s1[m]).0.len() == dim by {
                        assert(s[m].0.len() == dim);
                    }
                }
                lemma_clear_above_preserves(s1, dim, r, c, 0, x);
                lemma_rref_from_preserves(clear_above_from(s1, r, c, 0), dim, r, x);
            },
            None => {
                lemma_rref_from_preserves(s, dim, r, x);
            },
        }
    }
}

/// The reduced row-echelon form of a system has the same solutions as the system.
pub proof fn lemma_rref_preserves_solutions(s: Seq<Row>, dim: int, x: Seq<real>)
    requires
        dim >= 0,
        rows_have_dim(s, dim as nat),
    ensures
        is_solution(rref(s, dim), x) == is_solution(s, x),
{
    lemma_triangular_from_preserves_dim(s, dim, 0, 0);
    lemma_triangular_form_preserves_solutions(s, dim, x);
    let t = triangular_form(s, dim);
    lemma_rref_from_preserves(t, dim as nat, t.len() as int, x);
}

/// Reduction keeps the rows' length.
proof fn lemma_rref_keeps_dim(s: Seq<Row>, dim: int)
    requires
        dim >= 0,
        rows_have_dim(s, dim as nat),
    ensures
        rows_have_dim(rref(s, dim), dim as nat),
{
    lemma_triangular_from_preserves_dim(s, dim, 0, 0);
    let t = triangular_form(s, dim);
    lemma_rref_from_preserves(t, dim as nat, t.len() as int, Seq::empty());
}

/// Forward elimination keeps the rows' length.
proof fn lemma_triangular_from_preserves_dim(s: Seq<Row>, dim: int, row: int, col: int)
    requires
        dim >= 0,
        rows_have_dim(s, dim as nat),
    ensures
        rows_have_dim(triangular_from(s, dim, row, col), dim as nat),
    decreases dim - col,
{
    if row >= s.len() || col >= dim || row < 0 || col < 0 {
    } else if !near_zero(coef(s, row, col)) {
        lemma_clear_below_preserves(s, dim as nat, row, col, row + 1, Seq::empty());
        lemma_triangular_from_preserves_dim(clear_below_from(s, row, col, row + 1), dim, row + 1, col + 1);
    } else {
        lemma_nonzero_below(s, col, row + 1);
        match nonzero_below(s, col, row + 1) {
            Some(t) => {
                let s1 = swap_spec(s, row, t);
                lemma_swap_keeps_dim(s, dim as nat, row, t);
                lemma_clear_below_preserves(s1, dim as nat, row, col, row + 1, Seq::empty());
                lemma_triangular_from_preserves_dim(clear_below_from(s1, row, col, row + 1), dim, row + 1, col + 1);
            },
            None => {
                lemma_triangular_from_preserves_dim(s, dim, row, col + 1);
            },
        }
    }
}

/// Reducing a reduced row-echelon form again keeps its solution set. (The rows
/// themselves may move: a coefficient that the tolerance counted as zero in the
/// first pass can lead elimination to a different order of pivots.)
pub proof fn lemma_rref_twice_same_solutions(s: Seq<Row>, dim: int, x: Seq<real>)
    requires
        dim >= 0,
        rows_have_dim(s, dim as nat),
    ensures
        is_solution(rref(rref(s, dim), dim), x) == is_solution(rref(s, dim), x),
{
    lemma_rref_keeps_dim(s, dim);
    lemma_rref_preserves_solutions(rref(s, dim), dim, x);
}

/// An ordered list of equations that share a number of unknowns.
#[derive(Debug)]
pub struct LinearSystem {
    equations: Vec<Equation>,
    dim: usize,
}

impl View for LinearSystem {
    type V = Seq<Row>;

    closed spec fn view(&self) -> Seq<Row> {
        self.equations@.map_values(|e: Equation| e@)
    }
}

/// The system of the given equations, which all have one number of unknowns.
pub fn linear_system(equations: Vec<Equation>) -> (r: LinearSystem)
    requires
        forall|i: int, j: int|
            0 <= i < equations@.len() && 0 <= j < equations@.len() ==> (#[trigger] equations@[i])@.0.len()
                == (#[trigger] equations@[j])@.0.len(),
    ensures
        r.wf(),
        r@ == equations@.map_values(|e: Equation| e@),
        equations@.len() > 0 ==> r.spec_dim() == equations@[0]@.0.len(),
        equations@.len() == 0 ==> r.spec_dim() == 0,
{
    LinearSystem::new(equations)
}

impl Clone for LinearSystem {
    fn clone(&self) -> (r: LinearSystem)
        ensures
            r@ == self@,
            r.spec_dim() == self.spec_dim(),
            self.wf() ==> r.wf(),
    {
        let n = self.equations.len();
        let mut out: Vec<Equation> = Vec::new();
        let mut i: usize = 0;
        while i < n
            invariant
                n == self@.len(),
                i <= n,
                out@.len() == i,
                forall|j: int| 0 <= j < i ==> (#[trigger] out@[j])@ == self@[j],
            decreases n - i,
        {
            out.push(self.equations[i].clone());
            i = i + 1;
        }
        let r = LinearSystem { equations: out, dim: self.dim };
        assert(r@ =~= self@);
        r
    }
}

impl LinearSystem {
    /// Every equation has `spec_dim()` unknowns.
    pub closed spec fn wf(&self) -> bool {
        rows_have_dim(self@, self.dim as nat)
    }

    /// The number of unknowns.
    pub closed spec fn spec_dim(&self) -> nat {
        self.dim as nat
    }

    /// A well-formed system has `spec_dim()` unknowns in every row.
    pub proof fn lemma_wf_rows(s: &LinearSystem)
        requires
            s.wf(),
        ensures
            rows_have_dim(s@, s.spec_dim()),
    {
    }

    /// The system of the given equations in `dim` unknowns; with no equations it
    /// still has `dim` unknowns.
    pub fn with_dim(equations: Vec<Equation>, dim: usize) -> (r: LinearSystem)
        requires
            forall|i: int| 0 <= i < equations@.len() ==> (#[trigger] equations@[i])@.0.len() == dim,
        ensures
            r.wf(),
            r@ == equations@.map_values(|e: Equation| e@),
            r.spec_dim() == dim,
    {
        let r = LinearSystem { equations, dim };
        proof {
            assert forall|i: int| 0 <= i < r@.len() implies (#[trigger] r@[i]).0.len() == dim by {
                assert(r@[i] == r.equations@[i]@);
            }
        }
        r
    }

    /// The system of the given equations, which all have one number of unknowns.
    pub fn new(equations: Vec<Equation>) -> (r: LinearSystem)
        requires
            forall|i: int, j: int|
                0 <= i < equations@.len() && 0 <= j < equations@.len() ==> (#[trigger] equations@[i])@.0.len()
                    == (#[trigger] equations@[j])@.0.len(),
        ensures
            r.wf(),
            r@ == equations@.map_values(|e: Equation| e@),
            equations@.len() > 0 ==> r.spec_dim() == equations@[0]@.0.len(),
            equations@.len() == 0 ==> r.spec_dim() == 0,
    {
        let dim = if equations.len() > 0 {
            equations[0].dim()
        } else {
            0
        };
        let r = LinearSystem { equations, dim };
        proof {
            assert forall|i: int| 0 <= i < r@.len() implies (#[trigger] r@[i]).0.len() == dim by {
                assert(r.equations@[i]@.0.len() == r.equations@[0]@.0.len());
            }
        }
        r
    }

    /// The number of equations.
    pub fn len(&self) -> (r: usize)
        ensures
            r == self@.len(),
    {
        self.equations.len()
    }

    /// The number of unknowns.
    pub fn dim(&self) -> (r: usize)
        ensures
            r == self.spec_dim(),
    {
        self.dim
    }

    /// The equation at `row`.
    pub fn get(&self, row: usize) -> (r: &Equation)
        requires
            row < self@.len(),
        ensures
            r@ == self@[row as int],
    {
        &self.equations[row]
    }

    /// Replaces the equation at `row` by one with as many unknowns.
    pub fn set(&mut self, row: usize, equation: Equation)
        requires
            old(self).wf(),
            row < old(self)@.len(),
            equation@.0.len() == old(self).spec_dim(),
        ensures
            final(self).wf(),
            final(self)@ == old(self)@.update(row as int, equation@),
            final(self).spec_dim() == old(self).spec_dim(),
            final(self)@.len() == old(self)@.len(),
    {
        let ghost e = equation@;
        self.equations.set(row, equation);
        assert(self@ =~= old(self)@.update(row as int, e));
        assert(rows_have_dim(self@, self.dim as nat));
    }

    /// The coefficient of equation `row` at unknown `col`.
    pub fn coefficient(&self, row: usize, col: usize) -> (r: &Scalar)
        requires
            self.wf(),
            row < self@.len(),
            col < self.spec_dim(),
        ensures
            r@ == coef(self@, row as int, col as int),
    {
        proof {
            assert(self@[row as int].0.len() == self.dim);
        }
        self.equations[row].normal_vector().get(col)
    }

    /// Trades equations `row1` and `row2`.
    pub fn swap_rows(&mut self, row1: usize, row2: usize)
        requires
            old(self).wf(),
            row1 < old(self)@.len(),
            row2 < old(self)@.len(),
        ensures
            final(self)@ == swap_spec(old(self)@, row1 as int, row2 as int),
            final(self).spec_dim() == old(self).spec_dim(),
            final(self)@.len() == old(self)@.len(),
            final(self).wf(),
            forall|x: Seq<real>| #[trigger] is_solution(final(self)@, x) == is_solution(old(self)@, x),
    {
        proof {
            assert forall|x: Seq<real>| #[trigger]
                is_solution(swap_spec(self@, row1 as int, row2 as int), x) == is_solution(self@, x) by {
                lemma_swap_preserves_solutions(self@, row1 as int, row2 as int, x);
            }
            assert(self@[row1 as int] == self.equations@[row1 as int]@);
            assert(self@[row2 as int] == self.equations@[row2 as int]@);
            assert(self@[row1 as int].0.len() == self.dim);
            assert(self@[row2 as int].0.len() == self.dim);
        }
        let a = self.equations[row1].clone();
        let b = self.equations[row2].clone();
        self.set(row1, b);
        self.set(row2, a);
    }

    /// Multiplies both terms of equation `row` by `coefficient`.
    pub fn multiply_coefficient_and_row(&mut self, coefficient: &Scalar, row: usize)
        requires
            old(self).wf(),
            row < old(self)@.len(),
        ensures
            final(self).wf(),
            final(self)@ == scale_row_spec(old(self)@, coefficient@, row as int),
            final(self).spec_dim() == old(self).spec_dim(),
            final(self)@.len() == old(self)@.len(),
            coefficient@ != 0real ==> forall|x: Seq<real>|
                #[trigger] is_solution(final(self)@, x) == is_solution(old(self)@, x),
    {
        proof {
            if coefficient@ != 0real {
                assert forall|x: Seq<real>| #[trigger]
                    is_solution(scale_row_spec(self@, coefficient@, row as int), x) == is_solution(
                        self@,
                        x,
                    ) by {
                    lemma_scale_preserves_solutions(self@, coefficient@, row as int, x);
                }
            }
            assert(self@[row as int] == self.equations@[row as int]@);
            assert(self@[row as int].0.len() == self.dim);
        }
        let e = self.equations[row].scale(coefficient);
        self.set(row, e);
    }

    /// Adds `coefficient` times equation `row_to_add` to equation `row_to_be_added_to`.
    pub fn add_multiple_times_row_to_row(
        &mut self,
        coefficient: &Scalar,
        row_to_add: usize,
        row_to_be_added_to: usize,
    )
        requires
            old(self).wf(),
            row_to_add < old(self)@.len(),
            row_to_be_added_to < old(self)@.len(),
        ensures
            final(self)@ == add_multiple_spec(
                old(self)@,
                coefficient@,
                row_to_add as int,
                row_to_be_added_to as int,
            ),
            final(self).spec_dim() == old(self).spec_dim(),
            final(self)@.len() == old(self)@.len(),
            final(self).wf(),
            row_to_add != row_to_be_added_to ==> forall|x: Seq<real>|
                #[trigger] is_solution(final(self)@, x) == is_solution(old(self)@, x),
    {
        let ghost before = self@;
        proof {
            assert(self@[row_to_add as int] == self.equations@[row_to_add as int]@);
            assert(self@[row_to_add as int].0.len() == self.dim);
            assert(self@[row_to_be_added_to as int] == self.equations@[row_to_be_added_to as int]@);
            assert(self@[row_to_be_added_to as int].0.len() == self.dim);
        }
        let multiplied = self.equations[row_to_add].scale(coefficient);
        let e = multiplied.add(&self.equations[row_to_be_added_to]);
        self.set(row_to_be_added_to, e);
        proof {
            if row_to_add != row_to_be_added_to {
                assert forall|x: Seq<real>| #[trigger]
                    is_solution(self@, x) == is_solution(before, x) by {
                    lemma_add_multiple_preserves_solutions(
                        before,
                        coefficient@,
                        row_to_add as int,
                        row_to_be_added_to as int,
                        x,
                    );
                }
            }
        }
    }
    /// The index of the first coefficient of equation `row` not near zero.
    fn pivot_of(&self, row: usize) -> (r: Option<usize>)
        requires
            row < self@.len(),
        ensures
            match r {
                Some(c) => first_nonzero(self@[row as int].0) == Some(c as int),
                None => first_nonzero(self@[row as int].0) is None,
            },
    {
        proof {
            assert(self@[row as int] == self.equations@[row as int]@);
        }
        match first_nonzero_index(self.equations[row].normal_vector().coordinates()) {
            Ok(c) => Some(c),
            Err(_) => None,
        }
    }

    /// For each equation, the index of its first coefficient not near zero.
    pub fn indices_of_first_nonzero_terms_in_each_row(&self) -> (r: Vec<Option<usize>>)
        ensures
            r@.len() == self@.len(),
            forall|i: int|
                0 <= i < r@.len() ==> match #[trigger] r@[i] {
                    Some(c) => first_nonzero(self@[i].0) == Some(c as int),
                    None => first_nonzero(self@[i].0) is None,
                },
    {
        let n = self.equations.len();
        let mut out: Vec<Option<usize>> = Vec::new();
        let mut i: usize = 0;
        while i < n
            invariant
                n == self@.len(),
                i <= n,
                out@.len() == i,
                forall|j: int|
                    0 <= j < i ==> match #[trigger] out@[j] {
                        Some(c) => first_nonzero(self@[j].0) == Some(c as int),
                        None => first_nonzero(self@[j].0) is None,
                    },
            decreases n - i,
        {
            out.push(self.pivot_of(i));
            i = i + 1;
        }
        out
    }

    /// Trades equation `row` with the first equation below it whose coefficient at
    /// `col` is not near zero, and tells whether there was one.
    pub fn swap_with_row_below_for_nonzero_coefficient_if_able(&mut self, row: usize, col: usize) -> (r:
        bool)
        requires
            old(self).wf(),
            row < old(self)@.len(),
            col < old(self).spec_dim(),
        ensures
            final(self).wf(),
            final(self).spec_dim() == old(self).spec_dim(),
            final(self)@.len() == old(self)@.len(),
            match nonzero_below(old(self)@, col as int, row + 1) {
                Some(t) => r && final(self)@ == swap_spec(old(self)@, row as int, t),
                None => !r && final(self)@ == old(self)@,
            },
    {
        let n = self.equations.len();
        let mut t: usize = row + 1;
        while t < n
            invariant
                self.wf(),
                n == self@.len(),
                row < n,
                col < self.spec_dim(),
                row + 1 <= t <= n,
                *self == *old(self),
                nonzero_below(self@, col as int, t as int) == nonzero_below(
                    self@,
                    col as int,
                    row + 1,
                ),
            decreases n - t,
        {
            if !crate::math::is_zero(self.coefficient(t, col)) {
                self.swap_rows(row, t);
                return true;
            }
            t = t + 1;
        }
        false
    }

    /// Adds to equation `target` the multiple of equation `row` that clears its
    /// coefficient at `col`.
    pub fn clear_coefficient(&mut self, row: usize, col: usize, target: usize)
        requires
            old(self).wf(),
            row < old(self)@.len(),
            target < old(self)@.len(),
            col < old(self).spec_dim(),
            coef(old(self)@, row as int, col as int) != 0real,
        ensures
            final(self).wf(),
            final(self).spec_dim() == old(self).spec_dim(),
            final(self)@.len() == old(self)@.len(),
            final(self)@ == clear_coefficient_spec(old(self)@, row as int, col as int, target as int),
    {
        let beta = self.coefficient(row, col).clone();
        let gamma = self.coefficient(target, col).clone();
        let alpha = gamma.div(&beta).neg();
        self.add_multiple_times_row_to_row(&alpha, row, target);
    }

    /// Clears the coefficient at `col` in every equation above `row`, with equation `row`.
    pub fn clear_coefficients_above(&mut self, row: usize, col: usize)
        requires
            old(self).wf(),
            row < old(self)@.len(),
            col < old(self).spec_dim(),
            coef(old(self)@, row as int, col as int) != 0real,
        ensures
            final(self).wf(),
            final(self).spec_dim() == old(self).spec_dim(),
            final(self)@.len() == old(self)@.len(),
            final(self)@ == clear_above_from(old(self)@, row as int, col as int, 0),
    {
        let mut t: usize = 0;
        while t < row
            invariant
                self.wf(),
                self.spec_dim() == old(self).spec_dim(),
                self@.len() == old(self)@.len(),
                row < self@.len(),
                col < self.spec_dim(),
                t <= row,
                self@[row as int] == old(self)@[row as int],
                coef(old(self)@, row as int, col as int) != 0real,
                clear_above_from(self@, row as int, col as int, t as int) == clear_above_from(
                    old(self)@,
                    row as int,
                    col as int,
                    0,
                ),
            decreases row - t,
        {
            self.clear_coefficient(row, col, t);
            t = t + 1;
        }
    }

    /// Clears the coefficient at `col` in every equation below `row`, with equation `row`.
    pub fn clear_coefficients_below(&mut self, row: usize, col: usize)
        requires
            old(self).wf(),
            row < old(self)@.len(),
            col < old(self).spec_dim(),
            coef(old(self)@, row as int, col as int) != 0real,
        ensures
            final(self).wf(),
            final(self).spec_dim() == old(self).spec_dim(),
            final(self)@.len() == old(self)@.len(),
            final(self)@ == clear_below_from(old(self)@, row as int, col as int, row + 1),
    {
        let n = self.equations.len();
        let mut t: usize = row + 1;
        while t < n
            invariant
                self.wf(),
                self.spec_dim() == old(self).spec_dim(),
                self@.len() == n,
                n == old(self)@.len(),
                row < n,
                col < self.spec_dim(),
                row + 1 <= t <= n,
                self@[row as int] == old(self)@[row as int],
                coef(old(self)@, row as int, col as int) != 0real,
                clear_below_from(self@, row as int, col as int, t as int) == clear_below_from(
                    old(self)@,
                    row as int,
                    col as int,
                    row + 1,
                ),
            decreases n - t,
        {
            self.clear_coefficient(row, col, t);
            t = t + 1;
        }
    }

    /// Scales equation `row` so that its coefficient at `col` becomes one.
    pub fn scale_row_to_make_coefficient_equal_one(&mut self, row: usize, col: usize)
        requires
            old(self).wf(),
            row < old(self)@.len(),
            col < old(self).spec_dim(),
            coef(old(self)@, row as int, col as int) != 0real,
        ensures
            final(self).wf(),
            final(self).spec_dim() == old(self).spec_dim(),
            final(self)@.len() == old(self)@.len(),
            final(self)@ == scale_row_spec(
                old(self)@,
                1real / coef(old(self)@, row as int, col as int),
                row as int,
            ),
            coef(final(self)@, row as int, col as int) == 1real,
    {
        let c = self.coefficient(row, col).clone();
        let k = Scalar::one().div(&c);
        self.multiply_coefficient_and_row(&k, row);
        proof {
            let a = c@;
            assert(a * (1real / a) == 1real) by (nonlinear_arith)
                requires
                    a != 0real,
            ;
        }
    }
    /// The triangular form: see `triangular_from`.
    pub fn compute_triangular_form(&self) -> (r: LinearSystem)
        requires
            self.wf(),
        ensures
            r.wf(),
            r.spec_dim() == self.spec_dim(),
            r@ == triangular_form(self@, self.spec_dim() as int),
            forall|x: Seq<real>| #[trigger] is_solution(r@, x) == is_solution(self@, x),
    {
        proof {
            assert forall|x: Seq<real>| #[trigger]
                is_solution(triangular_form(self@, self.dim as int), x) == is_solution(self@, x) by {
                lemma_triangular_form_preserves_solutions(self@, self.dim as int, x);
            }
        }
        let mut system = self.clone();
        let n = system.len();
        let d = system.dim();
        let mut row: usize = 0;
        let mut col: usize = 0;
        while row < n && col < d
            invariant
                system.wf(),
                system@.len() == n,
                system.spec_dim() == d,
                d == self.spec_dim(),
                row <= n,
                col <= d,
                triangular_from(system@, d as int, row as int, col as int) == triangular_form(
                    self@,
                    d as int,
                ),
            decreases d - col,
        {
            let ghost before = system@;
            if crate::math::is_zero(system.coefficient(row, col)) {
                proof {
                    lemma_nonzero_below(before, col as int, row + 1);
                }
                if !system.swap_with_row_below_for_nonzero_coefficient_if_able(row, col) {
                    col = col + 1;
                    continue;
                }
                proof {
                    crate::math::lemma_nonzero_not_zero(coef(system@, row as int, col as int));
                }
            } else {
                proof {
                    crate::math::lemma_nonzero_not_zero(coef(system@, row as int, col as int));
                }
            }
            system.clear_coefficients_below(row, col);
            row = row + 1;
            col = col + 1;
        }
        system
    }

    /// The reduced row-echelon form: see `rref_from`.
    pub fn compute_rref(&self) -> (r: LinearSystem)
        requires
            self.wf(),
        ensures
            r.wf(),
            r.spec_dim() == self.spec_dim(),
            r@ == rref(self@, self.spec_dim() as int),
            forall|x: Seq<real>| #[trigger] is_solution(r@, x) == is_solution(self@, x),
    {
        proof {
            assert forall|x: Seq<real>| #[trigger]
                is_solution(rref(self@, self.dim as int), x) == is_solution(self@, x) by {
                lemma_rref_preserves_solutions(self@, self.dim as int, x);
            }
        }
        let mut tf = self.compute_triangular_form();
        let n = tf.len();
        let mut i: usize = n;
        while i > 0
            invariant
                tf.wf(),
                tf@.len() == n,
                tf.spec_dim() == self.spec_dim(),
                n == triangular_form(self@, self.spec_dim() as int).len(),
                i <= n,
                rref_from(tf@, i as int) == rref(self@, self.spec_dim() as int),
            decreases i,
        {
            let r = i - 1;
            match tf.pivot_of(r) {
                Some(c) => {
                    proof {
                        lemma_first_nonzero_from(tf@[r as int].0, 0);
                        crate::math::lemma_nonzero_not_zero(coef(tf@, r as int, c as int));
                    }
                    tf.scale_row_to_make_coefficient_equal_one(r, c);
                    tf.clear_coefficients_above(r, c);
                },
                None => {},
            }
            i = r;
        }
        tf
    }

    /// The "no solution" outcome, where some equation reads `0 = k` with `k` not near zero.
    pub fn raise_exception_if_contradictory_equation(&self) -> (r: Option<Solution>)
        ensures
            r is Some <==> contradictory(self@),
            match r {
                Some(s) => s == Solution::NoSolution(s->NoSolution_0) && s->NoSolution_0@
                    == "No solutions"@,
                None => true,
            },
    {
        let n = self.equations.len();
        let mut i: usize = 0;
        while i < n
            invariant
                n == self@.len(),
                i <= n,
                forall|j: int|
                    0 <= j < i ==> !(first_nonzero((#[trigger] self@[j]).0) is None && !near_zero(
                        self@[j].1,
                    )),
            decreases n - i,
        {
            if self.pivot_of(i).is_none() {
                proof {
                    assert(self@[i as int] == self.equations@[i as int]@);
                }
                if !crate::math::is_zero(self.equations[i].constant_term()) {
                    return Some(Solution::NoSolution("No solutions".to_string()));
                }
            }
            i = i + 1;
        }
        None
    }

    /// The "infinitely many solutions" outcome, where fewer equations than unknowns
    /// have a pivot.
    pub fn raise_exception_if_too_few_pivots(&self) -> (r: Option<Solution>)
        ensures
            r is Some <==> pivot_count(self@) < self.spec_dim(),
            match r {
                Some(s) => s == Solution::InfiniteSolutions(s->InfiniteSolutions_0)
                    && s->InfiniteSolutions_0@ == "Infinitely many solutions"@,
                None => true,
            },
    {
        let n = self.equations.len();
        let mut count: usize = 0;
        let mut i: usize = 0;
        while i < n
            invariant
                n == self@.len(),
                i <= n,
                count == pivot_count_upto(self@, i as int),
            decreases n - i,
        {
            proof {
                lemma_pivot_count_bound(self@, i as int);
            }
            if self.pivot_of(i).is_some() {
                count = count + 1;
            }
            i = i + 1;
        }
        if count < self.dim {
            return Some(Solution::InfiniteSolutions("Infinitely many solutions".to_string()));
        }
        None
    }

    /// Solves the system: see `classifies`, on the reduced row-echelon form.
    pub fn compute_solution(&self) -> (r: Solution)
        requires
            self.wf(),
        ensures
            classifies(rref(self@, self.spec_dim() as int), self.spec_dim(), r),
    {
        let rref = self.compute_rref();
        if let Some(s) = rref.raise_exception_if_contradictory_equation() {
            return s;
        }
        if let Some(s) = rref.raise_exception_if_too_few_pivots() {
            return s;
        }
        let d = rref.dim();
        proof {
            lemma_pivot_count_bound(rref@, rref@.len() as int);
        }
        let mut coords: Vec<Scalar> = Vec::new();
        let mut i: usize = 0;
        while i < d
            invariant
                d == rref.spec_dim(),
                d <= rref@.len(),
                i <= d,
                coords@.len() == i,
                forall|j: int| 0 <= j < i ==> (#[trigger] coords@[j])@ == rref@[j].1,
            decreases d - i,
        {
            coords.push(rref.get(i).constant_term().clone());
            i = i + 1;
        }
        let v = vector(coords);
        assert(v@ =~= Seq::new(d as nat, |j: int| rref@[j].1));
        Solution::Unique(v)
    }
}

} // verus!
