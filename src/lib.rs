//! Evaluation of B-spline curves by the de Boor recursion.
//!
//! Knots, coefficients and parameter values are fixed-point integers in one
//! unit of the caller's choosing: the recursion only ever takes ratios of knot
//! differences, so the unit cancels out. Each blending step rounds towards
//! negative infinity.
use vstd::prelude::*;

pub mod ranges;
pub mod spline;

pub use ranges::{Bounds, PlotError};
pub use spline::{transpose, SplineCurve, SplineError};

verus! {

pub type LinearSpline = SplineCurve<1, 1>;

pub type CubicSpline = SplineCurve<3, 1>;

pub type QuinticSpline = SplineCurve<5, 1>;

pub type LinearSpline2D = SplineCurve<1, 2>;

pub type CubicSpline2D = SplineCurve<3, 2>;

pub type QuinticSpline2D = SplineCurve<5, 2>;

pub type LinearSpline3D = SplineCurve<1, 3>;

pub type CubicSpline3D = SplineCurve<3, 3>;

pub type QuinticSpline3D = SplineCurve<5, 3>;

} // verus!
