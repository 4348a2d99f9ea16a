//! Decisions taken while a solved curve is placed on the screen.

use crate::error::CatenaryError;
use crate::ieee::at_most;
use crate::ieee::finite;
use crate::ieee::le;
use crate::ieee::lemma_order_of_magnitudes;
use crate::ieee::magnitude;
use crate::ieee::magnitude_of;
use crate::ieee::weight_of;
use crate::scalar::class_of;
use crate::scalar::Scalar;
use vstd::prelude::*;

verus! {

/// How far the rise between the located endpoints may differ from the
/// requested vertical distance: `1e-5` as a double's encoding.
pub const RESIDUAL_TOLERANCE: u64 = 0x3ee4_f8b5_88e3_68f1;

/// The residual is a number whose absolute value does not exceed
/// [`RESIDUAL_TOLERANCE`].
pub open spec fn within_tolerance(residual: u64) -> bool {
    finite(residual) && weight_of(residual) <= weight_of(RESIDUAL_TOLERANCE)
}

/// The tolerance read off the encodings: the residual's magnitude does not
/// exceed the tolerance's.
pub proof fn lemma_tolerance_by_encoding(residual: u64)
    ensures
        within_tolerance(residual) <==> magnitude_of(residual) <= RESIDUAL_TOLERANCE,
{
    if finite(residual) {
        lemma_order_of_magnitudes(residual, RESIDUAL_TOLERANCE);
    }
}

/// The curve's lowest point lies strictly between the endpoints: their
/// abscissas have opposite signs.
pub open spec fn opposite(left: Scalar, right: Scalar) -> bool {
    (left is Negative && right is Positive) || (left is Positive && right is Negative)
}

/// The lower of two heights given by their encodings; the second where they
/// cannot be compared.
pub open spec fn lower(y0: u64, y1: u64) -> u64 {
    if at_most(y0, y1) {
        y0
    } else {
        y1
    }
}

/// The height that the bottom row of the picture shows: the curve's lowest
/// height `a` where the lowest point lies between the endpoints at abscissas
/// `x0` and `x1`, else the lower of the endpoints' heights `y0` and `y1`.
pub open spec fn bottom_of(x0: u64, x1: u64, a: u64, y0: u64, y1: u64) -> u64 {
    if opposite(class_of(x0), class_of(x1)) {
        a
    } else {
        lower(y0, y1)
    }
}

/// Judges the closed form for the endpoints: `residual` is the
/// double, given by its encoding, by which the rise between the located
/// endpoints differs from the requested vertical distance. A residual beyond
/// the tolerance, of either sign, or one that is no number, is a
/// `GeometryInconsistency`.
pub fn check_residual(residual: u64) -> (verdict: Result<(), CatenaryError>)
    ensures
        verdict is Ok <==> within_tolerance(residual),
        verdict is Err ==> verdict == Err::<(), CatenaryError>(
            CatenaryError::GeometryInconsistency,
        ),
{
    proof {
        lemma_tolerance_by_encoding(residual);
    }
    if magnitude(residual) <= RESIDUAL_TOLERANCE {
        Ok(())
    } else {
        Err(CatenaryError::GeometryInconsistency)
    }
}

/// Guards the inverse of the curve: a catenary with lowest height `a`
/// has a point at height `y` only if `y` is at least `a`. Both are doubles
/// given by their encodings; a height below `a`, or one that is no number, is
/// a `DomainError`.
pub fn check_height(y: u64, a: u64) -> (verdict: Result<(), CatenaryError>)
    ensures
        verdict is Ok <==> at_most(a, y),
        verdict is Err ==> verdict == Err::<(), CatenaryError>(CatenaryError::DomainError),
{
    if le(a, y) {
        Ok(())
    } else {
        Err(CatenaryError::DomainError)
    }
}

/// Whether the curve's lowest point lies strictly between the endpoints, whose
/// abscissas have the given classes.
pub fn minimum_visible(left: Scalar, right: Scalar) -> (visible: bool)
    ensures
        visible == opposite(left, right),
{
    match (left, right) {
        (Scalar::Negative, Scalar::Positive) => true,
        (Scalar::Positive, Scalar::Negative) => true,
        _ => false,
    }
}

/// The lower of the two endpoints' heights, given by their encodings; see
/// [`lower`].
pub fn lower_of(y0: u64, y1: u64) -> (low: u64)
    ensures
        low == lower(y0, y1),
{
    if le(y0, y1) {
        y0
    } else {
        y1
    }
}

/// The height that the bottom row of the picture shows, see [`bottom_of`]. All
/// five arguments are doubles given by their encodings.
pub fn bottom_height(x0: u64, x1: u64, a: u64, y0: u64, y1: u64) -> (bottom: u64)
    ensures
        bottom == bottom_of(x0, x1, a, y0, y1),
{
    if minimum_visible(Scalar::from_bits(x0), Scalar::from_bits(x1)) {
        a
    } else {
        lower_of(y0, y1)
    }
}

} // verus!
