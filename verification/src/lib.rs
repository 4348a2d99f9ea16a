//! Verified core of a catenary renderer.
//!
//! A cable hanging between two points follows a catenary
//! `y = a * cosh(x / a)`. Drawing it needs arithmetic on real numbers (solving
//! for `a`, locating the endpoints, evaluating the curve) and a number of
//! decisions on the results. The arithmetic is the caller's, in floating
//! point. The decisions are made here, and proved:
//!
//! - [`ieee`], [`scalar`] and [`rounding`] read doubles from their IEEE 754
//!   encodings: their class, their order, their ceiling and their nearest
//!   whole number.
//! - [`strategy`] decides which requests the solver takes and what follows
//!   each of its attempts; [`shape`] holds the parameter it accepts.
//! - [`placement`] judges the located endpoints and chooses the height that
//!   the bottom row shows; [`grid`] sizes the picture.
//! - [`catenary`] rasterizes the sampled curve by columns and by rows, and
//!   [`texture`] draws the pixels into an RGBA byte buffer.
//! - [`samples`] is the mathematical model of the sampled curve, and [`laws`]
//!   states what holds of all of the above.

pub mod catenary;
pub mod error;
pub mod grid;
pub mod ieee;
pub mod laws;
pub mod placement;
pub mod rounding;
pub mod samples;
pub mod scalar;
pub mod shape;
pub mod strategy;
pub mod texture;

pub use catenary::Catenary;
pub use error::CatenaryError;
pub use samples::Samples;
pub use scalar::Scalar;
pub use shape::CenteredCatenary;
