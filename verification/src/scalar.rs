//! The class of a double: negative, zero, positive, or no finite number.

use crate::ieee::finite;
use crate::ieee::lemma_weight_of_zero;
use crate::ieee::magnitude;
use crate::ieee::magnitude_of;
use crate::ieee::sign_of;
use crate::ieee::scaled;
use crate::ieee::INFINITY;
use crate::ieee::SIGN_BIT;
use vstd::prelude::*;

verus! {

/// What the decisions of this crate need to know of a real number.
#[derive(Clone, Copy, Debug, PartialEq, Eq, Structural)]
pub enum Scalar {
    /// Not a number, or infinite.
    NotFinite,
    /// Finite and below zero.
    Negative,
    /// Zero, of either sign.
    Zero,
    /// Finite and above zero.
    Positive,
}

/// The class of what `bits` encodes as an IEEE 754 double.
pub open spec fn class_of(bits: u64) -> Scalar {
    if !finite(bits) {
        Scalar::NotFinite
    } else if scaled(bits) < 0 {
        Scalar::Negative
    } else if scaled(bits) == 0 {
        Scalar::Zero
    } else {
        Scalar::Positive
    }
}

/// The class read off the encoding: an exponent of all ones encodes no finite
/// number, a magnitude of zero encodes zero, and the sign bit tells the sign
/// of every other number.
pub open spec fn class_by_encoding(bits: u64) -> Scalar {
    if !finite(bits) {
        Scalar::NotFinite
    } else if magnitude_of(bits) == 0 {
        Scalar::Zero
    } else if sign_of(bits) {
        Scalar::Negative
    } else {
        Scalar::Positive
    }
}

/// The class read off the encoding is the class of the number.
pub proof fn lemma_class_by_encoding(bits: u64)
    ensures
        class_of(bits) == class_by_encoding(bits),
{
    if finite(bits) {
        lemma_weight_of_zero(bits);
    }
}

impl Scalar {
    /// Classifies a double given by its IEEE 754 encoding, as `f64::to_bits`
    /// returns it.
    pub fn from_bits(bits: u64) -> (class: Scalar)
        ensures
            class == class_of(bits),
            class == class_by_encoding(bits),
    {
        let m = magnitude(bits);
        proof {
            lemma_class_by_encoding(bits);
        }
        if m >= INFINITY {
            return Scalar::NotFinite;
        }
        if m == 0 {
            Scalar::Zero
        } else if bits >= SIGN_BIT {
            Scalar::Negative
        } else {
            Scalar::Positive
        }
    }
}

} // verus!
