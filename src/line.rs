//! Lines in the plane: equations with two unknowns, and where two of them meet.
use vstd::prelude::*;
use crate::equation::{same_hyperplane, Equation};
use crate::math::near_zero;
use crate::scalar::Scalar;
use crate::math::{default_tolerance, lemma_tolerance_positive};
use crate::vector::{dot, dot_upto, parallel, vector, Vector};

verus! {

/// Where two lines meet.
#[derive(Debug, PartialEq)]
pub enum Intersection {
    /// The lines cross at one point.
    Point(Vector),
    /// The lines are parallel and apart.
    Parallel,
    /// The lines are one and the same line.
    Infinity(Equation),
}

impl Intersection {
    /// The point where the lines cross.
    pub fn unwrap(self) -> (r: Vector)
        requires
            self is Point,
        ensures
            r == self->Point_0,
    {
        match self {
            Intersection::Point(p) => p,
            Intersection::Parallel => unreached(),
            Intersection::Infinity(_) => unreached(),
        }
    }
}

/// The point where the lines `a x + b y = k1` and `c x + d y = k2` cross, by
/// Cramer's rule.
pub open spec fn crossing(n1: Seq<real>, k1: real, n2: Seq<real>, k2: real) -> Seq<real> {
    let (a, b, c, d) = (n1[0], n1[1], n2[0], n2[1]);
    let det = a * d - b * c;
    seq![(d * k1 - b * k2) / det, (-c * k1 + a * k2) / det]
}

/// Two plane vectors whose determinant is zero are parallel.
proof fn lemma_zero_determinant_parallel(n: Seq<real>, m: Seq<real>)
    requires
        n.len() == 2,
        m.len() == 2,
    ensures
        n[0] * m[1] - n[1] * m[0] == 0real ==> parallel(n, m),
{
    let (n0, n1, m0, m1) = (n[0], n[1], m[0], m[1]);
    assert(dot_upto(n, m, 1) == dot_upto(n, m, 0) + n0 * m0);
    assert(dot_upto(n, m, 2) == dot_upto(n, m, 1) + n1 * m1);
    assert(dot_upto(n, n, 1) == dot_upto(n, n, 0) + n0 * n0);
    assert(dot_upto(n, n, 2) == dot_upto(n, n, 1) + n1 * n1);
    assert(dot_upto(m, m, 1) == dot_upto(m, m, 0) + m0 * m0);
    assert(dot_upto(m, m, 2) == dot_upto(m, m, 1) + m1 * m1);
    let ab = dot(n, m);
    let aa = dot(n, n);
    let bb = dot(m, m);
    assert(ab == n0 * m0 + n1 * m1);
    assert(aa == n0 * n0 + n1 * n1);
    assert(bb == m0 * m0 + m1 * m1);
    let t = default_tolerance();
    lemma_tolerance_positive();
    if n0 * m1 - n1 * m0 == 0real {
        assert(aa * bb - ab * ab == 0real) by (nonlinear_arith)
            requires
                aa == n0 * n0 + n1 * n1,
                bb == m0 * m0 + m1 * m1,
                ab == n0 * m0 + n1 * m1,
                n0 * m1 - n1 * m0 == 0real,
        ;
        assert(aa >= 0real && bb >= 0real) by (nonlinear_arith)
            requires
                aa == n0 * n0 + n1 * n1,
                bb == m0 * m0 + m1 * m1,
        ;
        if aa != 0real && bb != 0real {
            assert(t * t * (aa * bb) > 0real) by (nonlinear_arith)
                requires
                    t > 0real,
                    aa > 0real,
                    bb > 0real,
            ;
        }
    }
}

impl Equation {
    /// Where this line and `other` meet: everywhere where they are the same line,
    /// nowhere where they are parallel, else at one point.
    pub fn intersect(&self, other: &Equation) -> (r: Intersection)
        requires
            self@.0.len() == 2,
            other@.0.len() == 2,
        ensures
            match r {
                Intersection::Infinity(l) => same_hyperplane(self@.0, self@.1, self.spec_base_point(), other@.0, other@.1, other.spec_base_point())
                    && l@ == self@,
                Intersection::Parallel => !same_hyperplane(self@.0, self@.1, self.spec_base_point(), other@.0, other@.1, other.spec_base_point())
                    && parallel(self@.0, other@.0),
                Intersection::Point(p) => !same_hyperplane(self@.0, self@.1, self.spec_base_point(), other@.0, other@.1, other.spec_base_point())
                    && !parallel(self@.0, other@.0) && p@ == crossing(
                    self@.0,
                    self@.1,
                    other@.0,
                    other@.1,
                ),
            },
    {
        if *self == *other {
            return Intersection::Infinity(self.clone());
        }
        if self.is_parallel(other) {
            return Intersection::Parallel;
        }
        let n1 = self.normal_vector();
        let n2 = other.normal_vector();
        let a = n1.get(0);
        let b = n1.get(1);
        let k1 = self.constant_term();
        let c = n2.get(0);
        let d = n2.get(1);
        let k2 = other.constant_term();
        let det = a.mul(d).sub(&b.mul(c));
        proof {
            lemma_zero_determinant_parallel(self@.0, other@.0);
        }
        let x = d.mul(k1).sub(&b.mul(k2)).div(&det);
        let y = c.neg().mul(k1).add(&a.mul(k2)).div(&det);
        let mut coords: Vec<Scalar> = Vec::new();
        coords.push(x);
        coords.push(y);
        let p = vector(coords);
        proof {
            assert(p@ =~= crossing(self@.0, self@.1, other@.0, other@.1));
        }
        Intersection::Point(p)
    }
}

} // verus!
