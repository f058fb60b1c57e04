//! Unbounded signed integers: a sign and a magnitude.
use vstd::prelude::*;
use crate::natural::Natural;

verus! {

/// An unbounded integer.
#[derive(Debug)]
pub struct Integer {
    negative: bool,
    magnitude: Natural,
}

impl View for Integer {
    type V = int;

    closed spec fn view(&self) -> int {
        if self.negative {
            -(self.magnitude@ as int)
        } else {
            self.magnitude@ as int
        }
    }
}

impl Clone for Integer {
    fn clone(&self) -> (r: Self)
        ensures
            r@ == self@,
    {
        Integer { negative: self.negative, magnitude: self.magnitude.clone() }
    }
}

impl Integer {
    /// The integer with the given sign and magnitude.
    pub fn from_parts(negative: bool, magnitude: Natural) -> (r: Integer)
        ensures
            r@ == if negative {
                -(magnitude@ as int)
            } else {
                magnitude@ as int
            },
    {
        Integer { negative, magnitude }
    }

    /// The integer that an `i64` holds.
    pub fn from_i64(v: i64) -> (r: Integer)
        ensures
            r@ == v as int,
    {
        if v < 0 {
            let m = (0i128 - v as i128) as u64;
            Integer { negative: true, magnitude: Natural::from_u64(m) }
        } else {
            Integer { negative: false, magnitude: Natural::from_u64(v as u64) }
        }
    }

    /// The absolute value.
    pub fn magnitude(&self) -> (r: Natural)
        ensures
            r@ as int == if self@ < 0 {
                -self@
            } else {
                self@
            },
    {
        self.magnitude.clone()
    }

    /// Whether the integer is zero.
    pub fn is_zero(&self) -> (r: bool)
        ensures
            r == (self@ == 0),
    {
        self.magnitude.is_zero()
    }

    /// Whether the integer is below zero.
    pub fn is_negative(&self) -> (r: bool)
        ensures
            r == (self@ < 0),
    {
        self.negative && !self.magnitude.is_zero()
    }

    /// The integer with its sign turned.
    pub fn neg(&self) -> (r: Integer)
        ensures
            r@ == -self@,
    {
        Integer { negative: !self.negative, magnitude: self.magnitude.clone() }
    }

    /// The sum of two integers.
    pub fn add(&self, other: &Integer) -> (r: Integer)
        ensures
            r@ == self@ + other@,
    {
        if self.negative == other.negative {
            Integer { negative: self.negative, magnitude: self.magnitude.add(&other.magnitude) }
        } else if self.magnitude.lt(&other.magnitude) {
            Integer { negative: other.negative, magnitude: other.magnitude.sub(&self.magnitude) }
        } else {
            Integer { negative: self.negative, magnitude: self.magnitude.sub(&other.magnitude) }
        }
    }

    /// The difference of two integers.
    pub fn sub(&self, other: &Integer) -> (r: Integer)
        ensures
            r@ == self@ - other@,
    {
        self.add(&other.neg())
    }

    /// The product of two integers.
    pub fn mul(&self, other: &Integer) -> (r: Integer)
        ensures
            r@ == self@ * other@,
    {
        let m = self.magnitude.mul(&other.magnitude);
        let r = Integer { negative: self.negative != other.negative, magnitude: m };
        proof {
            let a = self.magnitude@ as int;
            let b = other.magnitude@ as int;
            assert((-a) * (-b) == a * b) by (nonlinear_arith);
            assert((-a) * b == -(a * b)) by (nonlinear_arith);
            assert(a * (-b) == -(a * b)) by (nonlinear_arith);
        }
        r
    }

    /// The product of an integer and a natural number.
    pub fn mul_natural(&self, other: &Natural) -> (r: Integer)
        ensures
            r@ == self@ * other@,
    {
        let m = self.magnitude.mul(other);
        let r = Integer { negative: self.negative, magnitude: m };
        proof {
            let a = self.magnitude@ as int;
            let b = other@ as int;
            assert((-a) * b == -(a * b)) by (nonlinear_arith);
        }
        r
    }

    /// Whether `self` is below `other`.
    pub fn lt(&self, other: &Integer) -> (r: bool)
        ensures
            r == (self@ < other@),
    {
        let d = other.sub(self);
        !d.is_zero() && !d.negative
    }
}

} // verus!
