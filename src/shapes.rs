//! The primitive shapes whose geometry needs no parameters, and the kinds of
//! surface pattern.
use vstd::prelude::*;

verus! {

/// The axis-aligned cube spanning [-1, 1] on each axis.
#[derive(Clone, Copy, Debug, PartialEq, Eq, Structural)]
pub struct Cube {}

impl Cube {
    pub fn new() -> (r: Cube)
        ensures
            r == (Cube {}),
    {
        Cube {}
    }
}

/// The x-z plane through the origin.
#[derive(Clone, Copy, Debug, PartialEq, Eq, Structural)]
pub struct Plane {}

impl Plane {
    pub fn new() -> (r: Plane)
        ensures
            r == (Plane {}),
    {
        Plane {}
    }
}

/// How a pattern maps a point to one of its colors.
#[derive(Clone, Copy, Debug, PartialEq, Eq, Structural)]
pub enum PatternsKind {
    Stripe,
    Gradient,
    Ring,
    Checker,
}

} // verus!
