//! The 64-bit pipeline: an 11-bit exponent field biased by 1023 and a
//! 52-bit mantissa field.

use vstd::prelude::*;
use crate::helper::{
    chars_val, digits_of_chars, frac_chars, int_chars, text_sign, valid_decimal_text, SplitFloat,
};
use crate::ieee754::validation::ValidationError;
use crate::ieee754::{
    encode_bits, encode_ok, encode_parts, exp_value, exponent_value, mantissa_parts,
    validate_fields,
};
use crate::model::{all_ones, all_zeros, bits_val, decoded_integer, is_bit_seq, lemma_bits_of_len};
use vstd::arithmetic::power2::pow2;

verus! {

pub struct IEEE754_64bit {}

impl IEEE754_64bit {
    /// Rejects an exponent field that is not 11 bits long or is all ones
    /// (infinity and not-a-number patterns), and an 11-bit all-zero
    /// mantissa slice.
    pub fn validate(exponent_binaries: &[u8], mantissa_binaries: &[u8]) -> (r: Result<
        (),
        ValidationError,
    >)
        ensures
            exponent_binaries@.len() != 11 ==> r == Result::<(), ValidationError>::Err(
                ValidationError::InvalidBitLength,
            ),
            exponent_binaries@.len() == 11 && all_ones(exponent_binaries@) ==> r == Result::<
                (),
                ValidationError,
            >::Err(ValidationError::ExponentAll1s),
            exponent_binaries@.len() == 11 && !all_ones(exponent_binaries@) && (
            mantissa_binaries@.len() == 11 && all_zeros(mantissa_binaries@)) ==> r == Result::<
                (),
                ValidationError,
            >::Err(ValidationError::MantissaAll0s),
            exponent_binaries@.len() == 11 && !all_ones(exponent_binaries@) && !(
            mantissa_binaries@.len() == 11 && all_zeros(mantissa_binaries@)) ==> r == Result::<
                (),
                ValidationError,
            >::Ok(()),
    {
        validate_fields(exponent_binaries, mantissa_binaries, 11)
    }

    /// Reads the exponent field and lifts the bias of 1023 off it; a zero
    /// field decodes to the unbiased exponent zero.
    pub fn get_exponent(binaries: &[u8]) -> (r: Result<i32, ValidationError>)
        requires
            binaries@.len() <= 31,
        ensures
            binaries@.len() == 0 || !is_bit_seq(binaries@) ==> r == Result::<
                i32,
                ValidationError,
            >::Err(ValidationError::ParseError),
            binaries@.len() > 0 && is_bit_seq(binaries@) && bits_val(binaries@) == 0 ==> r
                == Result::<i32, ValidationError>::Ok(0),
            binaries@.len() > 0 && is_bit_seq(binaries@) && bits_val(binaries@) > 0 ==> (
            r matches Ok(e) && e == bits_val(binaries@) - 1023),
    {
        exponent_value(binaries, 1023)
    }

    /// Splits the mantissa field at the radix point the exponent names,
    /// returning the integer part (implicit leading one included) and the
    /// remaining fraction bits.  A 52-bit all-zero field with exponent
    /// zero is exactly zero.
    pub fn get_mantissa(binaries: &[u8], exponent: i32) -> (r: Result<
        (i64, Vec<u8>),
        ValidationError,
    >)
        ensures
            binaries@.len() == 52 && all_zeros(binaries@) && exponent == 0 ==> (r matches Ok(t)
                && t.0 == 0 && t.1@ == Seq::<u8>::empty()),
            !(binaries@.len() == 52 && all_zeros(binaries@) && exponent == 0) && (exponent < 0
                || exponent > binaries@.len()) ==> (r matches Err(m) && m
                == ValidationError::EmptyMantissa),
            !(binaries@.len() == 52 && all_zeros(binaries@) && exponent == 0) && 0 <= exponent
                <= binaries@.len() && (!is_bit_seq(binaries@.take(exponent as int))
                || decoded_integer(binaries@, exponent as int) > i64::MAX) ==> (r matches Err(m)
                && m == ValidationError::InvalidMSBMantissa),
            !(binaries@.len() == 52 && all_zeros(binaries@) && exponent == 0) && 0 <= exponent
                <= binaries@.len() && is_bit_seq(binaries@.take(exponent as int))
                && decoded_integer(binaries@, exponent as int) <= i64::MAX ==> (r matches Ok(t)
                && t.0 == decoded_integer(binaries@, exponent as int) && t.1@ == binaries@.skip(
                exponent as int,
            )),
    {
        mantissa_parts(binaries, exponent, 52, i64::MAX)
    }

    /// Encodes a number from its decimal text into the 64-bit pattern:
    /// split, binary expansion, normalization, rounding and assembly.
    pub fn get_binary(value: &str) -> (r: Result<Vec<u8>, String>)
        ensures
            !valid_decimal_text(value@) ==> (r matches Err(m) && m@ == "invalid decimal text"@),
            valid_decimal_text(value@) && chars_val(int_chars(value@)) > u64::MAX ==> (
            r matches Err(m) && m@ == "integer part out of range"@),
            valid_decimal_text(value@) && chars_val(int_chars(value@)) <= u64::MAX && !encode_ok(
                chars_val(int_chars(value@)),
                digits_of_chars(frac_chars(value@)),
                52,
            ) ==> (r matches Err(m) && m@ == "unable to round up, overflow"@),
            valid_decimal_text(value@) && chars_val(int_chars(value@)) <= u64::MAX && encode_ok(
                chars_val(int_chars(value@)),
                digits_of_chars(frac_chars(value@)),
                52,
            ) ==> (r matches Ok(v) && v@ == encode_bits(
                text_sign(value@),
                chars_val(int_chars(value@)),
                digits_of_chars(frac_chars(value@)),
                52,
                1023,
                64,
            )),
    {
        let split: (u8, u64, Vec<u8>) = match SplitFloat::split_64(value) {
            Ok(t) => t,
            Err(m) => {
                return Err(m);
            },
        };
        proof {
            vstd::arithmetic::power2::lemma2_to64();
            vstd::arithmetic::power2::lemma2_to64_rest();
            lemma_bits_of_len(split.1 as nat, 64);
            assert(exp_value(split.1 as nat, 1023) < pow2(11));
        }
        match encode_parts(split.0, split.1, split.2, 52, 1023, 64) {
            Ok(v) => Ok(v),
            Err(m) => Err(m),
        }
    }
}

} // verus!
