//! The kinds of failure that end a request.

use vstd::prelude::*;

verus! {

/// Why no curve can be drawn for a request.
#[derive(Clone, Copy, Debug, PartialEq, Eq, Structural)]
pub enum CatenaryError {
    /// Neither root-finding method produced a usable shape parameter.
    SolverDivergence,
    /// The located endpoints do not reproduce the requested vertical distance.
    GeometryInconsistency,
    /// A value lies outside the domain of the function it was handed to.
    DomainError,
    /// A scalar is not finite, or a quantity is out of range.
    InvalidInput,
}

} // verus!
