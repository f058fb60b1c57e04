//! Matrices of exact scalars, stored by rows.
use vstd::prelude::*;
use crate::scalar::{rounded, Scalar};
use crate::vector::{difference, dot, maps_to, scaled, sum, vector, Vector};

verus! {

/// Column `j` of a matrix given by rows.
pub open spec fn column(m: Seq<Seq<real>>, j: int) -> Seq<real> {
    Seq::new(m.len(), |i: int| m[i][j])
}

/// Every row has `cols` entries.
pub open spec fn rows_have_len(m: Seq<Seq<real>>, cols: nat) -> bool {
    forall|i: int| 0 <= i < m.len() ==> (#[trigger] m[i]).len() == cols
}

/// The transpose of a matrix with `cols` columns.
pub open spec fn transposed(m: Seq<Seq<real>>, cols: nat) -> Seq<Seq<real>> {
    Seq::new(cols, |j: int| column(m, j))
}

/// The product of `a` and a matrix `b` with `p` columns.
pub open spec fn product(a: Seq<Seq<real>>, b: Seq<Seq<real>>, p: nat) -> Seq<Seq<real>> {
    Seq::new(a.len(), |i: int| Seq::new(p, |j: int| dot(a[i], column(b, j))))
}

/// The identity matrix of size `n`.
pub open spec fn identity_of(n: nat) -> Seq<Seq<real>> {
    Seq::new(n, |i: int| Seq::new(n, |j: int| if i == j { 1real } else { 0real }))
}

/// A matrix of exact scalars with a fixed number of columns.
#[derive(Debug)]
pub struct Matrix {
    rows: Vec<Vector>,
    cols: usize,
}

impl View for Matrix {
    type V = Seq<Seq<real>>;

    closed spec fn view(&self) -> Seq<Seq<real>> {
        self.rows@.map_values(|v: Vector| v@)
    }
}

impl PartialEq for Matrix {
    fn eq(&self, other: &Matrix) -> (r: bool)
        ensures
            r == (self@ == other@ && self.spec_cols() == other.spec_cols()),
    {
        let n = self.rows.len();
        if n != other.rows.len() || self.cols != other.cols {
            assert(self@.len() != other@.len() || self.spec_cols() != other.spec_cols());
            return false;
        }
        let mut i: usize = 0;
        while i < n
            invariant
                n == self@.len(),
                n == other@.len(),
                i <= n,
                forall|j: int| 0 <= j < i ==> self@[j] == other@[j],
            decreases n - i,
        {
            if self.rows[i] != other.rows[i] {
                assert(self@[i as int] != other@[i as int]);
                return false;
            }
            i = i + 1;
        }
        assert(self@ =~= other@);
        true
    }
}

impl vstd::std_specs::cmp::PartialEqSpecImpl for Matrix {
    open spec fn obeys_eq_spec() -> bool {
        true
    }

    open spec fn eq_spec(&self, other: &Matrix) -> bool {
        self@ == other@ && self.spec_cols() == other.spec_cols()
    }
}

/// The matrix with the given rows, which all have one length.
pub fn matrix(rows: Vec<Vector>) -> (r: Matrix)
    requires
        forall|i: int| 0 <= i < rows@.len() ==> (#[trigger] rows@[i])@.len() == rows@[0]@.len(),
    ensures
        r.wf(),
        r@ == rows@.map_values(|v: Vector| v@),
        r.spec_cols() == if rows@.len() > 0 {
            rows@[0]@.len()
        } else {
            0
        },
{
    let cols = if rows.len() > 0 {
        rows[0].dim()
    } else {
        0
    };
    Matrix::new(rows, cols)
}

/// The identity matrix of size `n`.
pub fn identity(n: usize) -> (r: Matrix)
    ensures
        r.wf(),
        r@ == identity_of(n as nat),
        r.spec_cols() == n,
{
    let mut rows: Vec<Vector> = Vec::new();
    let mut i: usize = 0;
    while i < n
        invariant
            i <= n,
            rows@.len() == i,
            forall|k: int| 0 <= k < i ==> (#[trigger] rows@[k])@ == identity_of(n as nat)[k],
        decreases n - i,
    {
        let mut row = Vector::zeros(n);
        row.set(i, Scalar::one());
        assert(row@ =~= identity_of(n as nat)[i as int]);
        rows.push(row);
        i = i + 1;
    }
    let r = Matrix { rows, cols: n };
    assert(r@ =~= identity_of(n as nat));
    r
}

impl Matrix {
    /// The number of columns.
    pub closed spec fn spec_cols(&self) -> nat {
        self.cols as nat
    }

    /// Every row has `spec_cols()` entries.
    pub closed spec fn wf(&self) -> bool {
        rows_have_len(self@, self.cols as nat)
    }

    /// The matrix with the given rows of `cols` entries each.
    pub fn new(rows: Vec<Vector>, cols: usize) -> (r: Matrix)
        requires
            forall|i: int| 0 <= i < rows@.len() ==> (#[trigger] rows@[i])@.len() == cols,
        ensures
            r.wf(),
            r@ == rows@.map_values(|v: Vector| v@),
            r.spec_cols() == cols,
    {
        Matrix { rows, cols }
    }

    /// The number of rows.
    pub fn row(&self) -> (r: usize)
        ensures
            r == self@.len(),
    {
        self.rows.len()
    }

    /// The number of columns.
    pub fn col(&self) -> (r: usize)
        ensures
            r == self.spec_cols(),
    {
        self.cols
    }

    /// Row `row`.
    pub fn get_row(&self, row: usize) -> (r: &Vector)
        requires
            row < self@.len(),
        ensures
            r@ == self@[row as int],
    {
        &self.rows[row]
    }

    /// Column `col`.
    pub fn get_col(&self, col: usize) -> (r: Vector)
        requires
            self.wf(),
            col < self.spec_cols(),
        ensures
            r@ == column(self@, col as int),
    {
        let n = self.rows.len();
        let mut out: Vec<Scalar> = Vec::new();
        let mut i: usize = 0;
        while i < n
            invariant
                self.wf(),
                col < self.spec_cols(),
                n == self@.len(),
                i <= n,
                out@.len() == i,
                forall|k: int| 0 <= k < i ==> (#[trigger] out@[k])@ == self@[k][col as int],
            decreases n - i,
        {
            assert(self@[i as int].len() == self.cols);
            out.push(self.rows[i].get(col).clone());
            i = i + 1;
        }
        let r = vector(out);
        assert(r@ =~= column(self@, col as int));
        r
    }

    /// The matrix of `f` applied to each entry.
    pub fn map<F: Fn(&Scalar) -> Scalar>(&self, f: F) -> (r: Matrix)
        requires
            self.wf(),
            forall|x: &Scalar| #[trigger] f.requires((x,)),
        ensures
            r.wf(),
            r.spec_cols() == self.spec_cols(),
            r@.len() == self@.len(),
            forall|i: int, j: int|
                0 <= i < self@.len() && 0 <= j < self.spec_cols() ==> #[trigger] maps_to(
                    f,
                    self@[i][j],
                    r@[i][j],
                ),
    {
        let n = self.rows.len();
        let c = self.cols;
        let mut out: Vec<Vector> = Vec::new();
        let mut i: usize = 0;
        while i < n
            invariant
                self.wf(),
                c == self.spec_cols(),
                forall|x: &Scalar| #[trigger] f.requires((x,)),
                n == self@.len(),
                i <= n,
                out@.len() == i,
                forall|k: int| 0 <= k < i ==> (#[trigger] out@[k])@.len() == c,
                forall|k: int, j: int|
                    0 <= k < i && 0 <= j < c ==> #[trigger] maps_to(f, self@[k][j], out@[k]@[j]),
            decreases n - i,
        {
            let row = &self.rows[i];
            assert(self@[i as int].len() == c);
            let mut entries: Vec<Scalar> = Vec::new();
            let mut j: usize = 0;
            while j < c
                invariant
                    forall|x: &Scalar| #[trigger] f.requires((x,)),
                    row@ == self@[i as int],
                    row@.len() == c,
                    j <= c,
                    entries@.len() == j,
                    forall|k: int| 0 <= k < j ==> #[trigger] maps_to(f, row@[k], entries@[k]@),
                decreases c - j,
            {
                let x = row.get(j);
                let y = f(x);
                assert(maps_to(f, row@[j as int], y@));
                entries.push(y);
                j = j + 1;
            }
            let v = vector(entries);
            assert forall|k: int| 0 <= k < c implies #[trigger] maps_to(f, self@[i as int][k], v@[k]) by {
                assert(v@[k] == entries@[k]@);
            }
            out.push(v);
            i = i + 1;
        }
        let r = Matrix { rows: out, cols: c };
        assert forall|k: int, j: int| 0 <= k < self@.len() && 0 <= j < c implies #[trigger] maps_to(
            f,
            self@[k][j],
            r@[k][j],
        ) by {
            assert(r@[k] == out@[k]@);
        }
        r
    }

    /// Each entry rounded to `precision` decimal places, halves away from zero.
    pub fn round(&self, precision: u32) -> (r: Matrix)
        requires
            self.wf(),
        ensures
            r.wf(),
            r.spec_cols() == self.spec_cols(),
            r@ == Seq::new(
                self@.len(),
                |i: int| Seq::new(self@[i].len(), |j: int| rounded(self@[i][j], precision as nat)),
            ),
    {
        let n = self.rows.len();
        let mut out: Vec<Vector> = Vec::new();
        let mut i: usize = 0;
        while i < n
            invariant
                self.wf(),
                n == self@.len(),
                i <= n,
                out@.len() == i,
                forall|k: int|
                    0 <= k < i ==> (#[trigger] out@[k])@ == Seq::new(
                        self@[k].len(),
                        |j: int| rounded(self@[k][j], precision as nat),
                    ),
                forall|k: int| 0 <= k < i ==> (#[trigger] out@[k])@.len() == self.cols,
            decreases n - i,
        {
            assert(self@[i as int].len() == self.cols);
            out.push(self.rows[i].round(precision));
            i = i + 1;
        }
        let r = Matrix { rows: out, cols: self.cols };
        assert(r@ =~= Seq::new(
            self@.len(),
            |i: int| Seq::new(self@[i].len(), |j: int| rounded(self@[i][j], precision as nat)),
        ));
        r
    }

    /// Each entry times `scalar`.
    pub fn scale(&self, scalar: &Scalar) -> (r: Matrix)
        requires
            self.wf(),
        ensures
            r.wf(),
            r.spec_cols() == self.spec_cols(),
            r@ == Seq::new(self@.len(), |i: int| scaled(self@[i], scalar@)),
    {
        let n = self.rows.len();
        let mut out: Vec<Vector> = Vec::new();
        let mut i: usize = 0;
        while i < n
            invariant
                self.wf(),
                n == self@.len(),
                i <= n,
                out@.len() == i,
                forall|k: int| 0 <= k < i ==> (#[trigger] out@[k])@ == scaled(self@[k], scalar@),
                forall|k: int| 0 <= k < i ==> (#[trigger] out@[k])@.len() == self.cols,
            decreases n - i,
        {
            assert(self@[i as int].len() == self.cols);
            out.push(self.rows[i].scale(scalar));
            i = i + 1;
        }
        let r = Matrix { rows: out, cols: self.cols };
        assert(r@ =~= Seq::new(self@.len(), |i: int| scaled(self@[i], scalar@)));
        r
    }

    /// The entrywise sum of two matrices of one shape.
    pub fn add(&self, other: &Matrix) -> (r: Matrix)
        requires
            self.wf(),
            other.wf(),
            self@.len() == other@.len(),
            self.spec_cols() == other.spec_cols(),
        ensures
            r.wf(),
            r.spec_cols() == self.spec_cols(),
            r@ == Seq::new(self@.len(), |i: int| sum(self@[i], other@[i])),
    {
        let n = self.rows.len();
        let mut out: Vec<Vector> = Vec::new();
        let mut i: usize = 0;
        while i < n
            invariant
                self.wf(),
                other.wf(),
                n == self@.len(),
                n == other@.len(),
                self.spec_cols() == other.spec_cols(),
                i <= n,
                out@.len() == i,
                forall|k: int| 0 <= k < i ==> (#[trigger] out@[k])@ == sum(self@[k], other@[k]),
                forall|k: int| 0 <= k < i ==> (#[trigger] out@[k])@.len() == self.cols,
            decreases n - i,
        {
            assert(self@[i as int].len() == self.cols);
            assert(other@[i as int].len() == other.cols);
            out.push(self.rows[i].add(&other.rows[i]));
            i = i + 1;
        }
        let r = Matrix { rows: out, cols: self.cols };
        assert(r@ =~= Seq::new(self@.len(), |i: int| sum(self@[i], other@[i])));
        r
    }

    /// The entrywise difference of two matrices of one shape.
    pub fn sub(&self, other: &Matrix) -> (r: Matrix)
        requires
            self.wf(),
            other.wf(),
            self@.len() == other@.len(),
            self.spec_cols() == other.spec_cols(),
        ensures
            r.wf(),
            r.spec_cols() == self.spec_cols(),
            r@ == Seq::new(self@.len(), |i: int| difference(self@[i], other@[i])),
    {
        let n = self.rows.len();
        let mut out: Vec<Vector> = Vec::new();
        let mut i: usize = 0;
        while i < n
            invariant
                self.wf(),
                other.wf(),
                n == self@.len(),
                n == other@.len(),
                self.spec_cols() == other.spec_cols(),
                i <= n,
                out@.len() == i,
                forall|k: int| 0 <= k < i ==> (#[trigger] out@[k])@ == difference(self@[k], other@[k]),
                forall|k: int| 0 <= k < i ==> (#[trigger] out@[k])@.len() == self.cols,
            decreases n - i,
        {
            assert(self@[i as int].len() == self.cols);
            assert(other@[i as int].len() == other.cols);
            out.push(self.rows[i].sub(&other.rows[i]));
            i = i + 1;
        }
        let r = Matrix { rows: out, cols: self.cols };
        assert(r@ =~= Seq::new(self@.len(), |i: int| difference(self@[i], other@[i])));
        r
    }

    /// The transpose.
    pub fn transpose(&self) -> (r: Matrix)
        requires
            self.wf(),
        ensures
            r.wf(),
            r.spec_cols() == self@.len(),
            r@ == transposed(self@, self.spec_cols()),
    {
        let c = self.cols;
        let mut out: Vec<Vector> = Vec::new();
        let mut j: usize = 0;
        while j < c
            invariant
                self.wf(),
                c == self.spec_cols(),
                j <= c,
                out@.len() == j,
                forall|k: int| 0 <= k < j ==> (#[trigger] out@[k])@ == column(self@, k),
            decreases c - j,
        {
            out.push(self.get_col(j));
            j = j + 1;
        }
        let r = Matrix { rows: out, cols: self.rows.len() };
        assert(r@ =~= transposed(self@, self.spec_cols()));
        r
    }

    /// The product with a matrix that has as many rows as this one has columns.
    pub fn multiply(&self, other: &Matrix) -> (r: Matrix)
        requires
            self.wf(),
            other.wf(),
            self.spec_cols() == other@.len(),
        ensures
            r.wf(),
            r.spec_cols() == other.spec_cols(),
            r@ == product(self@, other@, other.spec_cols()),
    {
        let t = other.transpose();
        let n = self.rows.len();
        let p = other.cols;
        let mut out: Vec<Vector> = Vec::new();
        let mut i: usize = 0;
        while i < n
            invariant
                self.wf(),
                t.wf(),
                t@ == transposed(other@, other.spec_cols()),
                t.spec_cols() == other@.len(),
                self.spec_cols() == other@.len(),
                p == other.spec_cols(),
                n == self@.len(),
                i <= n,
                out@.len() == i,
                forall|k: int|
                    0 <= k < i ==> (#[trigger] out@[k])@ == product(self@, other@, p as nat)[k],
            decreases n - i,
        {
            let row = &self.rows[i];
            assert(self@[i as int].len() == self.cols);
            let mut entries: Vec<Scalar> = Vec::new();
            let mut j: usize = 0;
            while j < p
                invariant
                    t.wf(),
                    t@ == transposed(other@, other.spec_cols()),
                    t.spec_cols() == other@.len(),
                    row@ == self@[i as int],
                    row@.len() == other@.len(),
                    p == other.spec_cols(),
                    p == t@.len(),
                    j <= p,
                    entries@.len() == j,
                    forall|k: int|
                        0 <= k < j ==> (#[trigger] entries@[k])@ == dot(
                            self@[i as int],
                            column(other@, k),
                        ),
                decreases p - j,
            {
                assert(t@[j as int] == column(other@, j as int));
                entries.push(row.dot(t.get_row(j)));
                j = j + 1;
            }
            let v = vector(entries);
            assert(v@ =~= product(self@, other@, p as nat)[i as int]);
            out.push(v);
            i = i + 1;
        }
        let r = Matrix { rows: out, cols: p };
        assert(r@ =~= product(self@, other@, p as nat));
        r
    }

    /// The inverse of a one-by-one or two-by-two matrix, or an error where its
    /// determinant is zero.
    pub fn inverse(&self) -> (r: Result<Matrix, String>)
        requires
            self.wf(),
            (self@.len() == 1 && self.spec_cols() == 1) || (self@.len() == 2 && self.spec_cols()
                == 2),
        ensures
            self@.len() == 1 ==> match r {
                Ok(m) => self@[0][0] != 0real && m.wf() && m.spec_cols() == 1 && m@ == seq![
                    seq![1real / self@[0][0]],
                ],
                Err(e) => self@[0][0] == 0real && e@ == "Matrix is not invertible."@,
            },
            self@.len() == 2 ==> ({
                let (a, b, c, d) = (self@[0][0], self@[0][1], self@[1][0], self@[1][1]);
                let det = a * d - b * c;
                match r {
                    Ok(m) => det != 0real && m.wf() && m.spec_cols() == 2 && m@ == seq![
                        seq![d / det, -b / det],
                        seq![-c / det, a / det],
                    ],
                    Err(e) => det == 0real && e@ == "Matrix is not invertible."@,
                }
            }),
    {
        if self.rows.len() == 1 {
            assert(self@[0].len() == 1);
            let a = self.rows[0].get(0);
            if a.is_exactly_zero() {
                return Err("Matrix is not invertible.".to_string());
            }
            let mut r0: Vec<Scalar> = Vec::new();
            r0.push(Scalar::one().div(a));
            let v0 = vector(r0);
            let mut rows: Vec<Vector> = Vec::new();
            rows.push(v0);
            let m = Matrix { rows, cols: 1 };
            assert(m@[0] =~= seq![1real / a@]);
            assert(m@ =~= seq![seq![1real / a@]]);
            return Ok(m);
        }
        assert(self@[0].len() == 2);
        assert(self@[1].len() == 2);
        let a = self.rows[0].get(0);
        let b = self.rows[0].get(1);
        let c = self.rows[1].get(0);
        let d = self.rows[1].get(1);
        let det = a.mul(d).sub(&b.mul(c));
        if det.is_exactly_zero() {
            return Err("Matrix is not invertible.".to_string());
        }
        let mut r0: Vec<Scalar> = Vec::new();
        r0.push(d.div(&det));
        r0.push(b.neg().div(&det));
        let mut r1: Vec<Scalar> = Vec::new();
        r1.push(c.neg().div(&det));
        r1.push(a.div(&det));
        let v0 = vector(r0);
        let v1 = vector(r1);
        let mut rows: Vec<Vector> = Vec::new();
        rows.push(v0);
        rows.push(v1);
        let m = Matrix { rows, cols: 2 };
        assert(m@[0] =~= seq![d@ / det@, -b@ / det@]);
        assert(m@[1] =~= seq![-c@ / det@, a@ / det@]);
        assert(m@ =~= seq![seq![d@ / det@, -b@ / det@], seq![-c@ / det@, a@ / det@]]);
        Ok(m)
    }
}

} // verus!
