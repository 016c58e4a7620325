//! The failure values raised by constructors and by knot removal.

use vstd::prelude::*;

verus! {

/// Structured failures of the spline kernel.
///
/// Validation failures are raised at construction; `CannotRemoveKnot` is
/// the only algorithmic failure in steady state and is expected as control
/// flow by callers such as `optimize`.
#[derive(Debug, Clone, Copy, PartialEq, Eq, Structural)]
pub enum Error {
    /// The control point sequence, or one of its rows, is empty.
    EmptyControlPoints,
    /// The knot vector is not longer than the control point sequence;
    /// carries the two lengths.
    TooShortKnotVector(usize, usize),
    /// The knot range is empty up to the linear tolerance.
    ZeroRange,
    /// The rows of a control net do not all have the same length.
    IrregularControlPoints,
    /// The knot at the carried index cannot be removed without changing
    /// the spline.
    CannotRemoveKnot(usize),
}

} // verus!
