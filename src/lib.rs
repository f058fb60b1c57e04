//! Affine hyperplanes over exact rational numbers, and the solution of systems
//! of them by Gaussian elimination.
//!
//! Scalars are exact fractions of unbounded integers, viewed in specifications
//! as reals. Comparisons go through an absolute tolerance (by default `1e-10`),
//! so a coefficient below it counts as zero when pivots are chosen and when a
//! system is classified.

pub mod natural;
pub mod integer;
pub mod scalar;
pub mod math;
pub mod vector;
pub mod equation;
pub mod linear_system;
pub mod line;
pub mod matrix;
pub mod round;

pub use equation::{equation, Equation};
pub use line::Intersection;
pub use linear_system::{linear_system, LinearSystem, Solution};
pub use matrix::{identity, matrix, Matrix};
pub use scalar::Scalar;
pub use vector::{vector, Projection, Vector};
