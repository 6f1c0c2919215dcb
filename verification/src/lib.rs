//! A KZG polynomial commitment scheme over BLS12-381.
//!
//! The crate models scalar-field elements and curve points by their
//! canonical byte encodings, states exact contracts for the arithmetic,
//! transforms and commitment operations, and delegates the low-level
//! curve codec and pairing work to the `bls12_381` collaborator behind
//! trusted wrappers.

use vstd::prelude::*;

pub mod field;
pub mod curve;
pub mod fft;
pub mod poly;
pub mod setup;
pub mod engine;

verus! {

/// The failures that construction-time and per-call operations surface.
#[derive(Clone, Copy, Debug, PartialEq, Eq, Structural)]
pub enum Error {
    /// A malformed trusted-setup file or byte encoding.
    ParseError,
    /// Decoded bytes are not a valid curve point.
    InvalidPoint,
    /// Two sequences that must agree in length do not.
    LengthMismatch,
    /// A field inversion or division hit zero.
    DivisionByZero,
    /// A requested transform width exceeds the supported table.
    DomainOverflow,
}

} // verus!
