//! The shape of a catenary: its one parameter.

use crate::error::CatenaryError;
use crate::ieee::at_most;
use crate::placement::check_height;
use crate::scalar::class_of;
use crate::scalar::Scalar;
use vstd::prelude::*;

verus! {

/// The catenary `y = a * cosh(x / a)`, whose lowest point is `(0, a)`, held by
/// the encoding of its shape parameter `a`: a finite number above zero.
#[derive(Clone, Copy, Debug)]
pub struct CenteredCatenary {
    a: u64,
}

impl View for CenteredCatenary {
    type V = u64;

    closed spec fn view(&self) -> u64 {
        self.a
    }
}

impl CenteredCatenary {
    #[verifier::type_invariant]
    spec fn inv(&self) -> bool {
        class_of(self.a) is Positive
    }

    /// The catenary with shape parameter `a`, a double given by its encoding.
    /// A parameter that is zero, negative or no number is `InvalidInput`.
    pub fn new(a: u64) -> (made: Result<CenteredCatenary, CatenaryError>)
        ensures
            match made {
                Ok(cat) => cat@ == a && class_of(a) is Positive,
                Err(e) => e == CatenaryError::InvalidInput && !(class_of(a) is Positive),
            },
    {
        match Scalar::from_bits(a) {
            Scalar::Positive => Ok(CenteredCatenary { a }),
            _ => Err(CatenaryError::InvalidInput),
        }
    }

    /// The encoding of the shape parameter, the height of the lowest point.
    pub fn a(&self) -> (a: u64)
        ensures
            a == self@,
            class_of(a) is Positive,
    {
        proof {
            use_type_invariant(self);
        }
        self.a
    }

    /// Whether the curve has a point at height `y`, a double given by its
    /// encoding: a height below the lowest point, or one that is no number,
    /// is a `DomainError`.
    pub fn admits(&self, y: u64) -> (verdict: Result<(), CatenaryError>)
        ensures
            verdict is Ok <==> at_most(self@, y),
            verdict is Err ==> verdict == Err::<(), CatenaryError>(CatenaryError::DomainError),
    {
        check_height(y, self.a)
    }
}

} // verus!
