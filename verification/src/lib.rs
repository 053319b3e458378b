//! Reads, writes and applies world files: six-line text sidecars that carry
//! the affine transform mapping an image's pixel grid onto planar world
//! coordinates.
//!
//! Coefficients are exact decimal numbers ([`Dec`], a mantissa with a decimal
//! exponent) and points are exact rationals ([`Rat`]), so parsing,
//! serialization and the forward/inverse point mappings are all exact: no
//! rounding is involved anywhere in this crate.

use vstd::prelude::*;

pub mod num;
pub mod text;
pub mod world;

pub use num::Dec;
pub use num::Rat;
pub use world::WorldFile;

verus! {

/// Everything that can go wrong while reading, constructing or applying a
/// world file. Each operation's contract says exactly which variant it
/// returns, and when.
#[derive(Clone, Copy, Debug, PartialEq, Eq, Structural)]
pub enum Error {
    /// An underlying resource could not be opened, read, or written. Never
    /// produced by the verified core; reserved for the I/O layer around it.
    Io,
    /// Fewer than six lines were present, or a line is not a decimal number
    /// this crate can hold exactly.
    Parse,
    /// All six numbers parsed, but a scale coefficient is zero.
    Validation,
    /// An inverse mapping was requested on a singular transform.
    Domain,
    /// An exact intermediate value does not fit the fixed-width integers the
    /// arithmetic runs on.
    Overflow,
}

} // verus!
