//! The primitives a path is made of. Each names its points by address.

use vstd::prelude::*;
use crate::computing::Address;

verus! {

/// An arc, possibly a spiral: it starts at a point, turns about a center, and
/// its deltas give the angle swept and the change of radius.
#[derive(Debug, Copy, Clone, PartialEq)]
pub struct Arc {
    pub start_point: Address,
    pub center: Address,
    pub deltas: Address,
}

/// A cubic Bézier curve: start, two controls, end.
#[derive(Debug, Copy, Clone, PartialEq)]
pub struct CubicCurve {
    pub points: [Address; 4],
}

/// A quadratic Bézier curve: start, control, end.
#[derive(Debug, Copy, Clone, PartialEq)]
pub struct QuadraticCurve {
    pub points: [Address; 3],
}

/// A straight line between two points.
#[derive(Debug, Copy, Clone, PartialEq)]
pub struct Line {
    pub points: [Address; 2],
}

} // verus!
