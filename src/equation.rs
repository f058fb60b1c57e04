//! Affine hyperplanes `normal · x = constant`.
use vstd::prelude::*;
use crate::math::{
    default_tolerance, first_nonzero, first_nonzero_index, lemma_first_nonzero_from, near_zero,
};
use crate::scalar::{rounded, Scalar};
use crate::vector::{
    difference, dot, lemma_dot_difference,
    lemma_dot_scaled_left, lemma_dot_scaled_right, lemma_dot_self, lemma_dot_single, parallel,
    scaled, sum, Vector,
};

verus! {

/// The point on the hyperplane `n · x = c` that is zero but at the first
/// coordinate of `n` that is not near zero; none where `n` is near zero throughout.
pub open spec fn base_point_of(n: Seq<real>, c: real) -> Option<Seq<real>> {
    match first_nonzero(n) {
        Some(i) => Some(Seq::new(n.len(), |j: int| if j == i { c / n[i] } else { 0real })),
        None => None,
    }
}

/// The two equations, with base points `p1` and `p2`, describe one hyperplane:
/// the line between their base points is orthogonal to both normals (up to the
/// tolerance). Two equations without a base point agree where their constants
/// do; one with a base point never equals one without.
pub open spec fn same_hyperplane(
    n1: Seq<real>,
    c1: real,
    p1: Option<Seq<real>>,
    n2: Seq<real>,
    c2: real,
    p2: Option<Seq<real>>,
) -> bool {
    n1.len() == n2.len() && match (p1, p2) {
        (Some(p), Some(q)) => near_zero(dot(difference(p, q), n1)) && near_zero(
            dot(difference(p, q), n2),
        ),
        (None, None) => near_zero(c1 - c2),
        _ => false,
    }
}

/// The base point lies on its hyperplane.
pub proof fn lemma_base_point_on_plane(n: Seq<real>, c: real)
    requires
        base_point_of(n, c) is Some,
    ensures
        dot(base_point_of(n, c)->Some_0, n) == c,
{
    lemma_first_nonzero_from(n, 0);
    let i = first_nonzero(n)->Some_0;
    let p = base_point_of(n, c)->Some_0;
    crate::math::lemma_nonzero_not_zero(n[i]);
    lemma_dot_single(p, n, i, n.len() as int);
    let a = n[i];
    assert((c / a) * a == c) by (nonlinear_arith)
        requires
            a != 0real,
    ;
}

/// An equation scaled by any factor has a normal vector parallel to its own.
pub proof fn lemma_scale_keeps_parallel(n: Seq<real>, k: real)
    ensures
        parallel(scaled(n, k), n),
{
    let m = scaled(n, k);
    let len = n.len() as int;
    lemma_dot_scaled_left(n, n, k, len);
    lemma_dot_scaled_left(n, m, k, len);
    lemma_dot_scaled_right(n, n, k, len);
    let (nn, t) = (dot(n, n), default_tolerance());
    crate::math::lemma_tolerance_positive();
    lemma_dot_self(n, len);
    if dot(m, m) != 0real && nn != 0real {
        assert(k * (k * nn) * nn - (k * nn) * (k * nn) == 0real) by (nonlinear_arith);
        assert(t * t * (k * (k * nn) * nn) > 0real) by (nonlinear_arith)
            requires
                t > 0real,
                k * (k * nn) != 0real,
                nn > 0real,
        ;
    }
}

/// Scaling a normal vector by a factor other than zero never changes whether
/// it is parallel to another vector.
pub proof fn lemma_scale_keeps_parallel_to(a: Seq<real>, b: Seq<real>, k: real)
    requires
        k != 0real,
        a.len() == b.len(),
    ensures
        parallel(scaled(a, k), b) == parallel(a, b),
{
    let m = scaled(a, k);
    let len = a.len() as int;
    lemma_dot_scaled_left(a, m, k, len);
    lemma_dot_scaled_right(a, a, k, len);
    lemma_dot_scaled_left(a, b, k, len);
    let (aa, bb, ab, t) = (dot(a, a), dot(b, b), dot(a, b), default_tolerance());
    assert(dot(m, m) == k * (k * aa));
    assert(k * (k * aa) == 0real <==> aa == 0real) by (nonlinear_arith)
        requires
            k != 0real,
    ;
    assert((k * (k * aa)) * bb - (k * ab) * (k * ab) < t * t * ((k * (k * aa)) * bb) <==> aa * bb
        - ab * ab < t * t * (aa * bb)) by (nonlinear_arith)
        requires
            k != 0real,
    ;
}

/// An equation scaled by a factor other than zero is the same hyperplane as
/// before, where both have a base point.
pub proof fn lemma_scale_keeps_hyperplane(n: Seq<real>, c: real, k: real)
    requires
        k != 0real,
        base_point_of(n, c) is Some,
        base_point_of(scaled(n, k), c * k) is Some,
    ensures
        same_hyperplane(
            scaled(n, k),
            c * k,
            base_point_of(scaled(n, k), c * k),
            n,
            c,
            base_point_of(n, c),
        ),
{
    crate::math::lemma_zero_is_near_zero();
    let m = scaled(n, k);
    let p = base_point_of(m, c * k)->Some_0;
    let q = base_point_of(n, c)->Some_0;
    lemma_base_point_on_plane(m, c * k);
    lemma_base_point_on_plane(n, c);
    let len = n.len() as int;
    lemma_dot_scaled_right(p, n, k, len);
    lemma_dot_scaled_right(q, n, k, len);
    lemma_dot_difference(p, q, m, len);
    lemma_dot_difference(p, q, n, len);
    let (dp, dq) = (dot(p, n), dot(q, n));
    assert(k * dp == c * k ==> dp == c) by (nonlinear_arith)
        requires
            k != 0real,
    ;
    assert(k * dp - k * dq == 0real) by (nonlinear_arith)
        requires
            dp == c,
            dq == c,
    ;
}

/// Scaling an equation by zero leaves a zero normal vector, and so no base point.
pub proof fn lemma_scale_by_zero(n: Seq<real>, c: real)
    ensures
        forall|i: int| 0 <= i < n.len() ==> #[trigger] scaled(n, 0real)[i] == 0real,
        base_point_of(scaled(n, 0real), c * 0real) is None,
{
    crate::math::lemma_zero_is_near_zero();
    let m = scaled(n, 0real);
    assert forall|i: int| 0 <= i < n.len() implies #[trigger] m[i] == 0real by {
        assert(n[i] * 0real == 0real);
    }
    lemma_first_nonzero_from(m, 0);
}

/// An affine hyperplane: a normal vector, a constant term, and a point on it.
#[derive(Debug)]
pub struct Equation {
    normal_vector: Vector,
    constant_term: Scalar,
    base_point: Option<Vector>,
}

/// The view of an optional vector.
pub open spec fn option_view(v: Option<Vector>) -> Option<Seq<real>> {
    match v {
        Some(p) => Some(p@),
        None => None,
    }
}

impl View for Equation {
    type V = (Seq<real>, real);

    closed spec fn view(&self) -> (Seq<real>, real) {
        (self.normal_vector@, self.constant_term@)
    }
}

impl Clone for Equation {
    fn clone(&self) -> (r: Self)
        ensures
            r@ == self@,
            r.spec_base_point() == self.spec_base_point(),
    {
        proof {
            use_type_invariant(self);
        }
        let base_point = match &self.base_point {
            Some(p) => Some(p.clone()),
            None => None,
        };
        Equation {
            normal_vector: self.normal_vector.clone(),
            constant_term: self.constant_term.clone(),
            base_point,
        }
    }
}

/// The equation `normal_vector · x = constant_term`.
pub fn equation(normal_vector: Vector, constant_term: Scalar) -> (r: Equation)
    ensures
        r@ == (normal_vector@, constant_term@),
        r.spec_base_point() == base_point_of(r@.0, r@.1),
{
    Equation::new(normal_vector, constant_term)
}

impl Equation {
    #[verifier::type_invariant]
    spec fn base_point_sized(&self) -> bool {
        match self.base_point {
            Some(p) => p@.len() == self.normal_vector@.len(),
            None => true,
        }
    }

    /// The base point that the equation carries: derived from its terms when it
    /// is built, and rounded along with them by `round`.
    pub closed spec fn spec_base_point(&self) -> Option<Seq<real>> {
        option_view(self.base_point)
    }

    /// The equation `normal_vector · x = constant_term`.
    pub fn new(normal_vector: Vector, constant_term: Scalar) -> (r: Equation)
        ensures
            r@ == (normal_vector@, constant_term@),
            r.spec_base_point() == base_point_of(r@.0, r@.1),
    {
        let base_point = Equation::build_base_point(&normal_vector, &constant_term);
        Equation { normal_vector, constant_term, base_point }
    }

    fn build_base_point(normal_vector: &Vector, constant_term: &Scalar) -> (r: Option<Vector>)
        ensures
            option_view(r) == base_point_of(normal_vector@, constant_term@),
    {
        let n = normal_vector.dim();
        match first_nonzero_index(normal_vector.coordinates()) {
            Ok(i) => {
                proof {
                    lemma_first_nonzero_from(normal_vector@, 0);
                    crate::math::lemma_nonzero_not_zero(normal_vector@[i as int]);
                }
                let mut p = Vector::zeros(n);
                let v = constant_term.div(normal_vector.get(i));
                p.set(i, v);
                proof {
                    let want = Seq::new(
                        n as nat,
                        |j: int|
                            if j == i {
                                constant_term@ / normal_vector@[i as int]
                            } else {
                                0real
                            },
                    );
                    assert(p@ =~= want);
                }
                Some(p)
            },
            Err(_) => None,
        }
    }

    /// The normal vector.
    pub fn normal_vector(&self) -> (r: &Vector)
        ensures
            r@ == self@.0,
    {
        &self.normal_vector
    }

    /// The constant term.
    pub fn constant_term(&self) -> (r: &Scalar)
        ensures
            r@ == self@.1,
    {
        &self.constant_term
    }

    /// The point on the hyperplane that the equation derives from its terms.
    pub fn base_point(&self) -> (r: &Option<Vector>)
        ensures
            option_view(*r) == self.spec_base_point(),
    {
        proof {
            use_type_invariant(self);
        }
        &self.base_point
    }

    /// The number of unknowns.
    pub fn dim(&self) -> (r: usize)
        ensures
            r == self@.0.len(),
    {
        self.normal_vector.dim()
    }

    /// Both terms and the base point rounded to `precision` decimal places.
    pub fn round(&self, precision: u32) -> (r: Equation)
        ensures
            r@ == (
                Seq::new(self@.0.len(), |i: int| rounded(self@.0[i], precision as nat)),
                rounded(self@.1, precision as nat),
            ),
            r.spec_base_point() == match self.spec_base_point() {
                Some(p) => Some(Seq::new(p.len(), |i: int| rounded(p[i], precision as nat))),
                None => None,
            },
    {
        proof {
            use_type_invariant(self);
        }
        let base_point = match &self.base_point {
            Some(p) => Some(p.round(precision)),
            None => None,
        };
        Equation {
            normal_vector: self.normal_vector.round(precision),
            constant_term: self.constant_term.round(precision),
            base_point,
        }
    }

    /// Whether the two normal vectors are parallel.
    pub fn is_parallel(&self, other: &Equation) -> (r: bool)
        requires
            self@.0.len() == other@.0.len(),
        ensures
            r == parallel(self@.0, other@.0),
    {
        self.normal_vector.is_parallel(&other.normal_vector)
    }

    /// Both terms times `scalar`.
    pub fn scale(&self, scalar: &Scalar) -> (r: Equation)
        ensures
            r@ == (scaled(self@.0, scalar@), self@.1 * scalar@),
            r.spec_base_point() == base_point_of(r@.0, r@.1),
    {
        Equation::new(self.normal_vector.scale(scalar), self.constant_term.mul(scalar))
    }

    /// The termwise sum of two equations.
    pub fn add(&self, other: &Equation) -> (r: Equation)
        requires
            self@.0.len() == other@.0.len(),
        ensures
            r@ == (sum(self@.0, other@.0), self@.1 + other@.1),
            r.spec_base_point() == base_point_of(r@.0, r@.1),
    {
        Equation::new(
            self.normal_vector.add(&other.normal_vector),
            self.constant_term.add(&other.constant_term),
        )
    }

    /// The termwise difference of two equations.
    pub fn sub(&self, other: &Equation) -> (r: Equation)
        requires
            self@.0.len() == other@.0.len(),
        ensures
            r@ == (difference(self@.0, other@.0), self@.1 - other@.1),
            r.spec_base_point() == base_point_of(r@.0, r@.1),
    {
        Equation::new(
            self.normal_vector.sub(&other.normal_vector),
            self.constant_term.sub(&other.constant_term),
        )
    }
}

impl PartialEq for Equation {
    fn eq(&self, other: &Equation) -> (r: bool)
        ensures
            r == same_hyperplane(
                self@.0,
                self@.1,
                self.spec_base_point(),
                other@.0,
                other@.1,
                other.spec_base_point(),
            ),
    {
        proof {
            use_type_invariant(self);
            use_type_invariant(other);
        }
        if self.normal_vector.dim() != other.normal_vector.dim() {
            return false;
        }
        match (&self.base_point, &other.base_point) {
            (Some(p), Some(q)) => {
                let connect = p.sub(q);
                connect.is_orthogonal(&self.normal_vector) && connect.is_orthogonal(
                    &other.normal_vector,
                )
            },
            (None, None) => crate::math::eq(&self.constant_term, &other.constant_term),
            _ => false,
        }
    }
}

impl vstd::std_specs::cmp::PartialEqSpecImpl for Equation {
    open spec fn obeys_eq_spec() -> bool {
        true
    }

    open spec fn eq_spec(&self, other: &Equation) -> bool {
        same_hyperplane(
            self@.0,
            self@.1,
            self.spec_base_point(),
            other@.0,
            other@.1,
            other.spec_base_point(),
        )
    }
}

} // verus!
