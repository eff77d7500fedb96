//! The error taxonomy: every failure of the codec is one of these values.

use vstd::prelude::*;

verus! {

#[derive(Debug, PartialEq, Eq, Structural)]
pub enum ValidationError {
    ExponentAll1s,
    MantissaAll0s,
    InvalidBitLength,
    ParseError,
    EmptyValues,
    InvalidSignBit,
    InvalidExponent,
    InvalidMantissa,
    InvalidMSBMantissa,
    InvalidLSBMantissa,
    EmptySignBit,
    EmptyExponent,
    EmptyMantissa,
}

} // verus!
