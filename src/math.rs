//! Comparisons of scalars up to an absolute tolerance.
use vstd::prelude::*;
use crate::scalar::{fraction, Scalar};

verus! {

/// The tolerance that comparisons use when the caller gives none: `1e-10`.
pub open spec fn default_tolerance() -> real {
    fraction(1, 10_000_000_000)
}

/// The tolerance in force: the one given, or the default.
pub open spec fn tolerance_of(tolerance: Option<&Scalar>) -> real {
    match tolerance {
        Some(t) => t@,
        None => default_tolerance(),
    }
}

/// The absolute value of a real.
pub open spec fn abs(x: real) -> real {
    if x < 0real {
        -x
    } else {
        x
    }
}

/// `value` and `target` lie closer together than `tolerance`.
pub open spec fn close(value: real, target: real, tolerance: real) -> bool {
    abs(value - target) < tolerance
}

/// `value` lies within the default tolerance of zero.
pub open spec fn near_zero(value: real) -> bool {
    close(value, 0real, default_tolerance())
}

/// The first index at or after `i` whose entry is not near zero.
pub open spec fn first_nonzero_from(s: Seq<real>, i: int) -> Option<int>
    decreases s.len() - i,
{
    if i >= s.len() || i < 0 {
        None
    } else if !near_zero(s[i]) {
        Some(i)
    } else {
        first_nonzero_from(s, i + 1)
    }
}

/// The first index whose entry is not near zero.
pub open spec fn first_nonzero(s: Seq<real>) -> Option<int> {
    first_nonzero_from(s, 0)
}

/// What `first_nonzero_from` returns: the least index at or after `i` not near zero.
pub proof fn lemma_first_nonzero_from(s: Seq<real>, i: int)
    requires
        0 <= i,
    ensures
        match first_nonzero_from(s, i) {
            Some(k) => i <= k < s.len() && !near_zero(s[k]) && forall|j: int|
                i <= j < k ==> near_zero(#[trigger] s[j]),
            None => forall|j: int| i <= j < s.len() ==> near_zero(#[trigger] s[j]),
        },
    decreases s.len() - i,
{
    if i < s.len() && near_zero(s[i]) {
        lemma_first_nonzero_from(s, i + 1);
    }
}

/// A value not near zero is not zero.
pub proof fn lemma_nonzero_not_zero(x: real)
    requires
        !near_zero(x),
    ensures
        x != 0real,
{
    assert(default_tolerance() > 0real) by {
        assert((1 as real) / (10_000_000_000 as real) > 0real) by (nonlinear_arith);
    }
}

/// Zero lies within the default tolerance of zero.
pub proof fn lemma_zero_is_near_zero()
    ensures
        near_zero(0real),
{
    assert((1 as real) / (10_000_000_000 as real) > 0real) by (nonlinear_arith);
}

/// The default tolerance is positive.
pub proof fn lemma_tolerance_positive()
    ensures
        default_tolerance() > 0real,
{
    assert((1 as real) / (10_000_000_000 as real) > 0real) by (nonlinear_arith);
}

/// The default tolerance as a scalar.
pub fn tolerance() -> (r: Scalar)
    ensures
        r@ == default_tolerance(),
{
    Scalar::from_ratio(1, 10_000_000_000)
}

/// Whether `value` lies within `tolerance` (by default `1e-10`) of `target`.
pub fn eq_with_tolerance(value: &Scalar, target: &Scalar, tolerance: Option<&Scalar>) -> (r: bool)
    ensures
        r == close(value@, target@, tolerance_of(tolerance)),
{
    let t = match tolerance {
        Some(t) => t.clone(),
        None => self::tolerance(),
    };
    value.sub(target).abs().lt(&t)
}

/// Whether `value` lies within the default tolerance of `target`.
pub fn eq(value: &Scalar, target: &Scalar) -> (r: bool)
    ensures
        r == close(value@, target@, default_tolerance()),
{
    eq_with_tolerance(value, target, None)
}

/// Whether `value` lies at least `tolerance` away from `target`.
pub fn ne_with_tolerance(value: &Scalar, target: &Scalar, tolerance: Option<&Scalar>) -> (r: bool)
    ensures
        r == !close(value@, target@, tolerance_of(tolerance)),
{
    !eq_with_tolerance(value, target, tolerance)
}

/// Whether `value` lies at least the default tolerance away from `target`.
pub fn ne(value: &Scalar, target: &Scalar) -> (r: bool)
    ensures
        r == !close(value@, target@, default_tolerance()),
{
    !eq(value, target)
}

/// Whether `value` lies within `tolerance` (by default `1e-10`) of zero.
pub fn is_zero_with_tolerance(value: &Scalar, tolerance: Option<&Scalar>) -> (r: bool)
    ensures
        r == close(value@, 0real, tolerance_of(tolerance)),
{
    eq_with_tolerance(value, &Scalar::zero(), tolerance)
}

/// Whether `value` lies within the default tolerance of zero.
pub fn is_zero(value: &Scalar) -> (r: bool)
    ensures
        r == near_zero(value@),
{
    is_zero_with_tolerance(value, None)
}

/// The index of the first entry that is not near zero, or an error when there is none.
pub fn first_nonzero_index(values: &Vec<Scalar>) -> (r: Result<usize, String>)
    ensures
        match r {
            Ok(i) => first_nonzero(values@.map_values(|x: Scalar| x@)) == Some(i as int),
            Err(m) => first_nonzero(values@.map_values(|x: Scalar| x@)) is None && m@
                == "No nonzero elements found."@,
        },
{
    let ghost s = values@.map_values(|x: Scalar| x@);
    let n = values.len();
    let mut i: usize = 0;
    while i < n
        invariant
            n == values.len(),
            s == values@.map_values(|x: Scalar| x@),
            i <= n,
            first_nonzero_from(s, i as int) == first_nonzero(s),
        decreases n - i,
    {
        if !is_zero(&values[i]) {
            return Ok(i);
        }
        i = i + 1;
    }
    Err("No nonzero elements found.".to_string())
}

} // verus!
