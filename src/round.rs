//! Rounding to a number of decimal places.
use vstd::prelude::*;
use crate::scalar::{rounded, Scalar};

verus! {

/// A function that rounds a scalar to `precision` decimal places, halves away
/// from zero.
pub fn round_factory(precision: u32) -> (r: impl Fn(&Scalar) -> Scalar)
    ensures
        forall|x: &Scalar| #[trigger] r.requires((x,)),
        forall|x: &Scalar, y: Scalar| #[trigger]
            r.ensures((x,), y) ==> y@ == rounded(x@, precision as nat),
{
    move |x: &Scalar| -> (y: Scalar)
        ensures
            y@ == rounded(x@, precision as nat),
        { x.round(precision) }
}

} // verus!
