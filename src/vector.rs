//! Vectors of exact scalars.
use vstd::prelude::*;
use crate::math::{close, default_tolerance, near_zero, tolerance_of};
use crate::scalar::{rounded, Scalar};

verus! {

/// The sum of `a[j] * b[j]` over the first `i` positions.
pub open spec fn dot_upto(a: Seq<real>, b: Seq<real>, i: int) -> real
    decreases i,
{
    if i <= 0 {
        0real
    } else {
        dot_upto(a, b, i - 1) + a[i - 1] * b[i - 1]
    }
}

/// The dot product of two sequences of reals of one length.
pub open spec fn dot(a: Seq<real>, b: Seq<real>) -> real {
    dot_upto(a, b, a.len() as int)
}

/// Each entry of `a` times `k`.
pub open spec fn scaled(a: Seq<real>, k: real) -> Seq<real> {
    Seq::new(a.len(), |i: int| a[i] * k)
}

/// The entrywise sum.
pub open spec fn sum(a: Seq<real>, b: Seq<real>) -> Seq<real> {
    Seq::new(a.len(), |i: int| a[i] + b[i])
}

/// The entrywise difference.
pub open spec fn difference(a: Seq<real>, b: Seq<real>) -> Seq<real> {
    Seq::new(a.len(), |i: int| a[i] - b[i])
}

/// The angle between the two vectors is 0 or pi up to the tolerance: the square
/// of its sine, `1 - (a . b)^2 / (|a|^2 |b|^2)`, lies below the square of the
/// default tolerance. A zero vector has no direction and is parallel to every
/// vector.
pub open spec fn parallel(a: Seq<real>, b: Seq<real>) -> bool {
    let (aa, bb, ab) = (dot(a, a), dot(b, b), dot(a, b));
    let t = default_tolerance();
    aa == 0real || bb == 0real || aa * bb - ab * ab < t * t * (aa * bb)
}

/// The Euclidean norm lies below `tolerance`: its square, the dot product with
/// itself, lies below the square of a positive tolerance.
pub open spec fn norm_below(a: Seq<real>, tolerance: real) -> bool {
    tolerance > 0real && dot(a, a) < tolerance * tolerance
}

/// The dot product is additive in its first argument, over a difference.
pub proof fn lemma_dot_difference(a: Seq<real>, b: Seq<real>, c: Seq<real>, i: int)
    requires
        0 <= i <= a.len(),
        a.len() == b.len(),
    ensures
        dot_upto(difference(a, b), c, i) == dot_upto(a, c, i) - dot_upto(b, c, i),
    decreases i,
{
    if i > 0 {
        lemma_dot_difference(a, b, c, i - 1);
        let d = difference(a, b);
        assert(d[i - 1] == a[i - 1] - b[i - 1]);
        assert((a[i - 1] - b[i - 1]) * c[i - 1] == a[i - 1] * c[i - 1] - b[i - 1] * c[i - 1])
            by (nonlinear_arith);
    }
}

/// The dot product is additive in its first argument, over a sum.
pub proof fn lemma_dot_sum(a: Seq<real>, b: Seq<real>, c: Seq<real>, i: int)
    requires
        0 <= i <= a.len(),
        a.len() == b.len(),
    ensures
        dot_upto(sum(a, b), c, i) == dot_upto(a, c, i) + dot_upto(b, c, i),
    decreases i,
{
    if i > 0 {
        lemma_dot_sum(a, b, c, i - 1);
        let d = sum(a, b);
        assert(d[i - 1] == a[i - 1] + b[i - 1]);
        assert((a[i - 1] + b[i - 1]) * c[i - 1] == a[i - 1] * c[i - 1] + b[i - 1] * c[i - 1])
            by (nonlinear_arith);
    }
}

/// Scaling the first argument scales the dot product.
pub proof fn lemma_dot_scaled_left(a: Seq<real>, c: Seq<real>, k: real, i: int)
    requires
        0 <= i <= a.len(),
    ensures
        dot_upto(scaled(a, k), c, i) == k * dot_upto(a, c, i),
    decreases i,
{
    if i > 0 {
        lemma_dot_scaled_left(a, c, k, i - 1);
        let p = dot_upto(a, c, i - 1);
        let x = a[i - 1];
        let y = c[i - 1];
        assert(scaled(a, k)[i - 1] == x * k);
        assert(k * p + (x * k) * y == k * (p + x * y)) by (nonlinear_arith);
    }
}

/// Scaling the second argument scales the dot product.
pub proof fn lemma_dot_scaled_right(a: Seq<real>, c: Seq<real>, k: real, i: int)
    requires
        0 <= i <= c.len(),
    ensures
        dot_upto(a, scaled(c, k), i) == k * dot_upto(a, c, i),
    decreases i,
{
    if i > 0 {
        lemma_dot_scaled_right(a, c, k, i - 1);
        let p = dot_upto(a, c, i - 1);
        let x = a[i - 1];
        let y = c[i - 1];
        assert(scaled(c, k)[i - 1] == y * k);
        assert(k * p + x * (y * k) == k * (p + x * y)) by (nonlinear_arith);
    }
}

/// The dot product with a vector that is zero but at `k`.
pub proof fn lemma_dot_single(a: Seq<real>, c: Seq<real>, k: int, i: int)
    requires
        0 <= i <= a.len(),
        0 <= k < a.len(),
        forall|j: int| 0 <= j < a.len() && j != k ==> a[j] == 0real,
    ensures
        dot_upto(a, c, i) == if k < i {
            a[k] * c[k]
        } else {
            0real
        },
    decreases i,
{
    if i > 0 {
        lemma_dot_single(a, c, k, i - 1);
        if i - 1 != k {
            assert(a[i - 1] * c[i - 1] == 0real) by (nonlinear_arith)
                requires
                    a[i - 1] == 0real,
            ;
        }
    }
}

/// A vector's dot product with itself is never negative, and zero only where
/// every coordinate is zero.
pub proof fn lemma_dot_self(a: Seq<real>, i: int)
    requires
        0 <= i <= a.len(),
    ensures
        dot_upto(a, a, i) >= 0real,
        dot_upto(a, a, i) == 0real <==> forall|j: int| 0 <= j < i ==> a[j] == 0real,
    decreases i,
{
    if i > 0 {
        lemma_dot_self(a, i - 1);
        let x = a[i - 1];
        assert(x * x >= 0real) by (nonlinear_arith);
        assert(x * x == 0real <==> x == 0real) by (nonlinear_arith);
        if dot_upto(a, a, i) == 0real {
            assert forall|j: int| 0 <= j < i implies a[j] == 0real by {
                if j < i - 1 {
                } else {
                }
            }
        }
    }
}

/// A vector of exact scalars.
#[derive(Debug)]
pub struct Vector {
    coords: Vec<Scalar>,
}

impl View for Vector {
    type V = Seq<real>;

    closed spec fn view(&self) -> Seq<real> {
        self.coords@.map_values(|x: Scalar| x@)
    }
}

impl Clone for Vector {
    fn clone(&self) -> (r: Self)
        ensures
            r@ == self@,
    {
        let n = self.coords.len();
        let mut out: Vec<Scalar> = Vec::new();
        let mut i: usize = 0;
        while i < n
            invariant
                n == self.coords.len(),
                i <= n,
                out.len() == i,
                forall|j: int| 0 <= j < i ==> out@[j]@ == self.coords@[j]@,
            decreases n - i,
        {
            out.push(self.coords[i].clone());
            i = i + 1;
        }
        let r = Vector { coords: out };
        assert(r@ =~= self@);
        r
    }
}

impl PartialEq for Vector {
    fn eq(&self, other: &Vector) -> (r: bool)
        ensures
            r == (self@ == other@),
    {
        let n = self.coords.len();
        if n != other.coords.len() {
            assert(self@.len() != other@.len());
            return false;
        }
        let mut i: usize = 0;
        while i < n
            invariant
                n == self.coords.len(),
                n == other.coords.len(),
                i <= n,
                forall|j: int| 0 <= j < i ==> self@[j] == other@[j],
            decreases n - i,
        {
            if self.coords[i] != other.coords[i] {
                assert(self@[i as int] != other@[i as int]);
                return false;
            }
            i = i + 1;
        }
        assert(self@ =~= other@);
        true
    }
}

impl vstd::std_specs::cmp::PartialEqSpecImpl for Vector {
    open spec fn obeys_eq_spec() -> bool {
        true
    }

    open spec fn eq_spec(&self, other: &Vector) -> bool {
        self@ == other@
    }
}

/// `f` can turn a scalar of value `x` into one of value `y`.
pub open spec fn maps_to<F: Fn(&Scalar) -> Scalar>(f: F, x: real, y: real) -> bool {
    exists|a: Scalar, b: Scalar| a@ == x && b@ == y && #[trigger] f.ensures((&a,), b)
}

/// A vector split into its part along a basis vector and the part orthogonal to it.
#[derive(Debug, PartialEq)]
pub struct Projection {
    pub parallel: Vector,
    pub orthogonal: Vector,
}

/// The vector with the given coordinates.
pub fn vector(coords: Vec<Scalar>) -> (r: Vector)
    ensures
        r@ == coords@.map_values(|x: Scalar| x@),
{
    Vector { coords }
}

impl Vector {
    /// The vector of `n` zeros.
    pub fn zeros(n: usize) -> (r: Vector)
        ensures
            r@ == Seq::new(n as nat, |i: int| 0real),
    {
        let mut out: Vec<Scalar> = Vec::new();
        let mut i: usize = 0;
        while i < n
            invariant
                i <= n,
                out.len() == i,
                forall|j: int| 0 <= j < i ==> out@[j]@ == 0real,
            decreases n - i,
        {
            out.push(Scalar::zero());
            i = i + 1;
        }
        let r = Vector { coords: out };
        assert(r@ =~= Seq::new(n as nat, |i: int| 0real));
        r
    }

    /// The coordinates.
    pub fn coordinates(&self) -> (r: &Vec<Scalar>)
        ensures
            r@.map_values(|x: Scalar| x@) == self@,
    {
        &self.coords
    }

    /// The number of coordinates.
    pub fn dim(&self) -> (r: usize)
        ensures
            r == self@.len(),
    {
        self.coords.len()
    }

    /// The coordinate at `index`.
    pub fn get(&self, index: usize) -> (r: &Scalar)
        requires
            index < self@.len(),
        ensures
            r@ == self@[index as int],
    {
        &self.coords[index]
    }

    /// The vector with the coordinate at `index` replaced.
    pub fn set(&mut self, index: usize, value: Scalar)
        requires
            index < old(self)@.len(),
        ensures
            final(self)@ == old(self)@.update(index as int, value@),
    {
        self.coords.set(index, value);
        assert(self@ =~= old(self)@.update(index as int, value@));
    }

    /// The vector of `f` applied to each coordinate.
    pub fn map<F: Fn(&Scalar) -> Scalar>(&self, f: F) -> (r: Vector)
        requires
            forall|x: &Scalar| #[trigger] f.requires((x,)),
        ensures
            r@.len() == self@.len(),
            forall|i: int|
                0 <= i < self@.len() ==> #[trigger] maps_to(f, self@[i], r@[i]),
    {
        let n = self.coords.len();
        let mut out: Vec<Scalar> = Vec::new();
        let mut i: usize = 0;
        while i < n
            invariant
                n == self.coords.len(),
                forall|x: &Scalar| #[trigger] f.requires((x,)),
                i <= n,
                out.len() == i,
                forall|j: int| 0 <= j < i ==> #[trigger] maps_to(f, self@[j], out@[j]@),
            decreases n - i,
        {
            let y = f(&self.coords[i]);
            proof {
                assert(self@[i as int] == self.coords@[i as int]@);
                assert(maps_to(f, self@[i as int], y@));
            }
            out.push(y);
            i = i + 1;
        }
        let r = Vector { coords: out };
        assert forall|j: int| 0 <= j < self@.len() implies #[trigger] maps_to(f, self@[j], r@[j]) by {
            assert(r@[j] == out@[j]@);
        }
        r
    }

    /// Each coordinate rounded to `precision` decimal places, halves away from zero.
    pub fn round(&self, precision: u32) -> (r: Vector)
        ensures
            r@ == Seq::new(self@.len(), |i: int| rounded(self@[i], precision as nat)),
    {
        let n = self.coords.len();
        let mut out: Vec<Scalar> = Vec::new();
        let mut i: usize = 0;
        while i < n
            invariant
                n == self.coords.len(),
                i <= n,
                out.len() == i,
                forall|j: int| 0 <= j < i ==> out@[j]@ == rounded(self.coords@[j]@, precision as nat),
            decreases n - i,
        {
            out.push(self.coords[i].round(precision));
            i = i + 1;
        }
        let r = Vector { coords: out };
        assert(r@ =~= Seq::new(self@.len(), |i: int| rounded(self@[i], precision as nat)));
        r
    }

    /// Each coordinate times `scalar`.
    pub fn scale(&self, scalar: &Scalar) -> (r: Vector)
        ensures
            r@ == scaled(self@, scalar@),
    {
        let n = self.coords.len();
        let mut out: Vec<Scalar> = Vec::new();
        let mut i: usize = 0;
        while i < n
            invariant
                n == self.coords.len(),
                i <= n,
                out.len() == i,
                forall|j: int| 0 <= j < i ==> out@[j]@ == self.coords@[j]@ * scalar@,
            decreases n - i,
        {
            out.push(self.coords[i].mul(scalar));
            i = i + 1;
        }
        let r = Vector { coords: out };
        assert(r@ =~= scaled(self@, scalar@));
        r
    }

    /// The coordinatewise sum.
    pub fn add(&self, other: &Vector) -> (r: Vector)
        requires
            self@.len() == other@.len(),
        ensures
            r@ == sum(self@, other@),
    {
        let n = self.coords.len();
        let mut out: Vec<Scalar> = Vec::new();
        let mut i: usize = 0;
        while i < n
            invariant
                n == self.coords.len(),
                n == other.coords.len(),
                i <= n,
                out.len() == i,
                forall|j: int| 0 <= j < i ==> out@[j]@ == self.coords@[j]@ + other.coords@[j]@,
            decreases n - i,
        {
            out.push(self.coords[i].add(&other.coords[i]));
            i = i + 1;
        }
        let r = Vector { coords: out };
        assert(r@ =~= sum(self@, other@));
        r
    }

    /// The coordinatewise difference.
    pub fn sub(&self, other: &Vector) -> (r: Vector)
        requires
            self@.len() == other@.len(),
        ensures
            r@ == difference(self@, other@),
    {
        let n = self.coords.len();
        let mut out: Vec<Scalar> = Vec::new();
        let mut i: usize = 0;
        while i < n
            invariant
                n == self.coords.len(),
                n == other.coords.len(),
                i <= n,
                out.len() == i,
                forall|j: int| 0 <= j < i ==> out@[j]@ == self.coords@[j]@ - other.coords@[j]@,
            decreases n - i,
        {
            out.push(self.coords[i].sub(&other.coords[i]));
            i = i + 1;
        }
        let r = Vector { coords: out };
        assert(r@ =~= difference(self@, other@));
        r
    }

    /// The dot product.
    pub fn dot(&self, other: &Vector) -> (r: Scalar)
        requires
            self@.len() == other@.len(),
        ensures
            r@ == dot(self@, other@),
    {
        let n = self.coords.len();
        let mut acc = Scalar::zero();
        let mut i: usize = 0;
        while i < n
            invariant
                n == self.coords.len(),
                n == other.coords.len(),
                i <= n,
                acc@ == dot_upto(self@, other@, i as int),
            decreases n - i,
        {
            acc = acc.add(&self.coords[i].mul(&other.coords[i]));
            i = i + 1;
        }
        acc
    }

    /// Whether the Euclidean norm lies below `tolerance` (by default `1e-10`).
    pub fn is_zero_with_tolerance(&self, tolerance: Option<&Scalar>) -> (r: bool)
        ensures
            r == norm_below(self@, tolerance_of(tolerance)),
    {
        let t = match tolerance {
            Some(t) => t.clone(),
            None => crate::math::tolerance(),
        };
        let zero = Scalar::zero();
        if !zero.lt(&t) {
            return false;
        }
        self.dot(self).lt(&t.mul(&t))
    }

    /// Whether the Euclidean norm lies below the default tolerance.
    pub fn is_zero(&self) -> (r: bool)
        ensures
            r == norm_below(self@, default_tolerance()),
    {
        self.is_zero_with_tolerance(None)
    }

    /// Whether the two vectors are parallel: the angle between them is 0 or pi
    /// up to the tolerance, or one of them is zero.
    pub fn is_parallel(&self, other: &Vector) -> (r: bool)
        requires
            self@.len() == other@.len(),
        ensures
            r == parallel(self@, other@),
    {
        let aa = self.dot(self);
        let bb = other.dot(other);
        if aa.is_exactly_zero() || bb.is_exactly_zero() {
            return true;
        }
        let ab = self.dot(other);
        let t = crate::math::tolerance();
        let lhs = aa.mul(&bb).sub(&ab.mul(&ab));
        let rhs = t.mul(&t).mul(&aa.mul(&bb));
        lhs.lt(&rhs)
    }

    /// Whether the dot product lies within `tolerance` (by default `1e-10`) of zero.
    pub fn is_orthogonal_with_tolerance(&self, other: &Vector, tolerance: Option<&Scalar>) -> (r:
        bool)
        requires
            self@.len() == other@.len(),
        ensures
            r == close(dot(self@, other@), 0real, tolerance_of(tolerance)),
    {
        crate::math::is_zero_with_tolerance(&self.dot(other), tolerance)
    }

    /// Whether the dot product lies within the default tolerance of zero.
    pub fn is_orthogonal(&self, other: &Vector) -> (r: bool)
        requires
            self@.len() == other@.len(),
        ensures
            r == near_zero(dot(self@, other@)),
    {
        self.is_orthogonal_with_tolerance(other, None)
    }

    /// The projection onto `basis`: the part along it, `basis * (v · basis) / (basis
    /// · basis)`, and the rest. A zero basis has no direction and gives an error.
    pub fn project(&self, basis: &Vector) -> (r: Result<Projection, String>)
        requires
            self@.len() == basis@.len(),
        ensures
            match r {
                Ok(p) => dot(basis@, basis@) != 0real && p.parallel@ == scaled(
                    basis@,
                    dot(self@, basis@) / dot(basis@, basis@),
                ) && p.orthogonal@ == difference(self@, p.parallel@),
                Err(e) => dot(basis@, basis@) == 0real && e@ == "Zero vector has no normalize."@,
            },
    {
        let bb = basis.dot(basis);
        if bb.is_exactly_zero() {
            return Err("Zero vector has no normalize.".to_string());
        }
        let weight = self.dot(basis).div(&bb);
        let parallel = basis.scale(&weight);
        let orthogonal = self.sub(&parallel);
        Ok(Projection { parallel, orthogonal })
    }

    /// The cross product of two vectors of three coordinates.
    pub fn cross(&self, other: &Vector) -> (r: Vector)
        requires
            self@.len() == 3,
            other@.len() == 3,
        ensures
            r@ == seq![
                self@[1] * other@[2] - other@[1] * self@[2],
                -(self@[0] * other@[2] - other@[0] * self@[2]),
                self@[0] * other@[1] - other@[0] * self@[1],
            ],
    {
        let a = &self.coords;
        let b = &other.coords;
        let x = a[1].mul(&b[2]).sub(&b[1].mul(&a[2]));
        let y = a[0].mul(&b[2]).sub(&b[0].mul(&a[2])).neg();
        let z = a[0].mul(&b[1]).sub(&b[0].mul(&a[1]));
        let mut out: Vec<Scalar> = Vec::new();
        out.push(x);
        out.push(y);
        out.push(z);
        let r = Vector { coords: out };
        assert(r@ =~= seq![
            self@[1] * other@[2] - other@[1] * self@[2],
            -(self@[0] * other@[2] - other@[0] * self@[2]),
            self@[0] * other@[1] - other@[0] * self@[1],
        ]);
        r
    }
}

} // verus!
