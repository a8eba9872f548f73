//! Geometric primitives that need no floating point.
use vstd::prelude::*;

verus! {

/// An enum over the X, Y and Z axis.
#[derive(Debug, Clone, Copy, PartialEq, Eq, Structural)]
pub enum Axis {
    X,
    Y,
    Z,
}

} // verus!
