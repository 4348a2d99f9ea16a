//! What the solver is handed, and what follows each of its attempts.

use crate::error::CatenaryError;
use crate::ieee::at_most;
use crate::ieee::le;
use crate::scalar::class_of;
use crate::scalar::Scalar;
use vstd::prelude::*;

verus! {

/// The smallest slack the solver works with, `1e-3` as a double's encoding: a
/// cable as short as the straight line between its ends has no finite shape
/// parameter.
pub const MIN_SLACK: u64 = 0x3f50_624d_d2f1_a9fc;

/// The tolerance of both root finders, on the residual of the equation and on
/// the distance between two iterates: `1e-10` as a double's encoding.
pub const SOLVER_TOLERANCE: u64 = 0x3ddb_7cdf_d9d7_bdbb;

/// The shape parameter at which the derivative method starts: `20` as a
/// double's encoding.
pub const DERIVATIVE_START: u64 = 0x4034_0000_0000_0000;

/// The lower end of the interval that the bracketing method searches: `1` as
/// a double's encoding.
pub const BRACKET_LOW: u64 = 0x3ff0_0000_0000_0000;

/// The upper end of the interval that the bracketing method searches: `1e10`
/// as a double's encoding.
pub const BRACKET_HIGH: u64 = 0x4202_a05f_2000_0000;

/// The largest number of iterations of one root-finding attempt.
pub const MAX_ITERATIONS: usize = 10_000;

/// One of the two root-finding methods, in the order in which they are tried.
#[derive(Clone, Copy, Debug, PartialEq, Eq, Structural)]
pub enum Method {
    /// The fast method that follows the derivative.
    Derivative,
    /// The bracketing method over a wide interval.
    Bracketing,
}

/// What to do after a root-finding attempt.
#[derive(Clone, Copy, Debug, PartialEq, Eq, Structural)]
pub enum Step {
    /// Take the root as the shape parameter.
    Accept,
    /// Discard the attempt and run the given method.
    Retry(Method),
    /// Stop with the given error.
    Fail(CatenaryError),
}

/// One of the three inputs is not finite, or the horizontal distance is
/// negative.
pub open spec fn malformed(dist_h: Scalar, dist_v: Scalar, slack: Scalar) -> bool {
    dist_h is NotFinite || dist_v is NotFinite || slack is NotFinite || dist_h is Negative
}

/// The endpoints lie above one another although the cable is longer than
/// their distance: no catenary `a * cosh(x / a)` passes through both.
pub open spec fn degenerate(dist_h: Scalar, slack: Scalar) -> bool {
    dist_h is Zero && slack is Positive
}

/// A root-finding attempt gave a shape parameter that can be used: a finite
/// number above zero.
pub open spec fn usable(attempt: Option<Scalar>) -> bool {
    attempt == Some(Scalar::Positive)
}

/// The verdict on a request with the given classes of horizontal distance,
/// vertical distance and slack: malformed inputs are `InvalidInput`, otherwise
/// a degenerate request is a `DomainError`, and everything else is admitted.
pub open spec fn verdict_on(dist_h: Scalar, dist_v: Scalar, slack: Scalar) -> Result<
    (),
    CatenaryError,
> {
    if malformed(dist_h, dist_v, slack) {
        Err(CatenaryError::InvalidInput)
    } else if degenerate(dist_h, slack) {
        Err(CatenaryError::DomainError)
    } else {
        Ok(())
    }
}

/// What follows an attempt of `method`: a usable root is accepted, otherwise
/// the derivative method is followed by the bracketing method, and the
/// bracketing method by `SolverDivergence`.
pub open spec fn step_after(method: Method, attempt: Option<Scalar>) -> Step {
    if usable(attempt) {
        Step::Accept
    } else if method is Derivative {
        Step::Retry(Method::Bracketing)
    } else {
        Step::Fail(CatenaryError::SolverDivergence)
    }
}

/// Decides whether the solver may run on a request, from the classes of the
/// horizontal distance, the vertical distance and the slack; see
/// [`verdict_on`].
///
/// A slack that is negative or zero is admitted: the solver raises it to its
/// smallest slack, see [`raise_slack`].
pub fn check_inputs(dist_h: Scalar, dist_v: Scalar, slack: Scalar) -> (verdict: Result<
    (),
    CatenaryError,
>)
    ensures
        verdict == verdict_on(dist_h, dist_v, slack),
{
    let finite = !matches!(dist_h, Scalar::NotFinite) && !matches!(dist_v, Scalar::NotFinite)
        && !matches!(slack, Scalar::NotFinite);
    if !finite || matches!(dist_h, Scalar::Negative) {
        Err(CatenaryError::InvalidInput)
    } else if matches!(dist_h, Scalar::Zero) && matches!(slack, Scalar::Positive) {
        Err(CatenaryError::DomainError)
    } else {
        Ok(())
    }
}

/// Decides whether the solver may run on a request given by the encodings of
/// its three doubles: [`check_inputs`] on their classes.
pub fn check_request(dist_h: u64, dist_v: u64, slack: u64) -> (verdict: Result<
    (),
    CatenaryError,
>)
    ensures
        verdict == verdict_on(class_of(dist_h), class_of(dist_v), class_of(slack)),
{
    check_inputs(Scalar::from_bits(dist_h), Scalar::from_bits(dist_v), Scalar::from_bits(slack))
}

/// The two-step strategy of the solver: what follows an attempt of `method`
/// that returned a root of class `attempt`, or `None` when it returned none;
/// see [`step_after`]. There is no third attempt.
pub fn next_step(method: Method, attempt: Option<Scalar>) -> (step: Step)
    ensures
        step == step_after(method, attempt),
{
    match attempt {
        Some(Scalar::Positive) => Step::Accept,
        _ => match method {
            Method::Derivative => Step::Retry(Method::Bracketing),
            Method::Bracketing => Step::Fail(CatenaryError::SolverDivergence),
        },
    }
}

/// The slack that the solver works with: `slack` itself, raised to
/// [`MIN_SLACK`] where it is smaller or no number. All three are doubles given
/// by their encodings.
pub fn raise_slack(slack: u64) -> (raised: u64)
    ensures
        raised == (if at_most(MIN_SLACK, slack) {
            slack
        } else {
            MIN_SLACK
        }),
{
    if le(MIN_SLACK, slack) {
        slack
    } else {
        MIN_SLACK
    }
}

} // verus!
