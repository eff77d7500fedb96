//! Conversion between IEEE-754 binary floating-point bit layouts and their
//! decoded numeric parts, for the 32-bit and 64-bit formats.
//!
//! The library works on plain bit sequences (`Vec<u8>` holding single bits)
//! and on the decimal text form of a number; callers that hold a native
//! float format it to text before encoding, and rebuild a float from the
//! decoded sign / integer / fraction parts after decoding.

use vstd::prelude::*;
use vstd::string::*;

pub mod helper;
pub mod ieee754;
pub mod model;

use crate::helper::{
    chars_val, digits_of_chars, frac_chars, int_chars, lemma_digits_of_chars, text_sign,
    valid_decimal_text,
};
use crate::ieee754::{
    bytes_to_bits, decode_spec, decode_value, encode_bits, encode_ok, lemma_encode_bits_shape,
    DecodedValue, IEEE754_32bit, IEEE754_64bit, ValidationError,
};
use crate::model::{
    bits_of_hex, bits_val, bytes_bits, hex_char_val, hex_chars_of, hex_digit_char, is_bit_seq,
    lemma_bits_of_width_inv,
};

verus! {

/// Returns the hexadecimal digit for a four-bit group value.
fn hex_digit_str(v: u8) -> (r: &'static str)
    requires
        v < 16,
    ensures
        r@ == seq![hex_digit_char(v as nat)],
{
    let r: &'static str = match v {
        0 => "0",
        1 => "1",
        2 => "2",
        3 => "3",
        4 => "4",
        5 => "5",
        6 => "6",
        7 => "7",
        8 => "8",
        9 => "9",
        10 => "A",
        11 => "B",
        12 => "C",
        13 => "D",
        14 => "E",
        _ => "F",
    };
    proof {
        reveal_strlit("0");
        reveal_strlit("1");
        reveal_strlit("2");
        reveal_strlit("3");
        reveal_strlit("4");
        reveal_strlit("5");
        reveal_strlit("6");
        reveal_strlit("7");
        reveal_strlit("8");
        reveal_strlit("9");
        reveal_strlit("A");
        reveal_strlit("B");
        reveal_strlit("C");
        reveal_strlit("D");
        reveal_strlit("E");
        reveal_strlit("F");
        assert(r@ =~= seq![hex_digit_char(v as nat)]);
    }
    r
}

#[derive(Debug)]
pub struct IEEE754;

impl IEEE754 {
    /// Renders a bit sequence as upper-case hexadecimal text, one digit
    /// for each four-bit group, most-significant group first.
    pub fn to_hex(binary: Vec<u8>) -> (r: Result<String, String>)
        ensures
            binary@.len() % 4 != 0 ==> (r matches Err(m) && m@
                == "binary length is not a multiple of four"@),
            binary@.len() % 4 == 0 && !is_bit_seq(binary@) ==> (r matches Err(m) && m@
                == "invalid binary digit"@),
            binary@.len() % 4 == 0 && is_bit_seq(binary@) ==> (r matches Ok(h) && h@
                == hex_chars_of(binary@)),
    {
        let n = binary.len();
        if n % 4 != 0 {
            return Err(String::from_str("binary length is not a multiple of four"));
        }
        let mut hex = String::new();
        let mut i: usize = 0;
        while i < n
            invariant
                i <= n,
                i % 4 == 0,
                n % 4 == 0,
                n == binary@.len(),
                is_bit_seq(binary@.take(i as int)),
                hex@ == hex_chars_of(binary@.take(i as int)),
            decreases n - i,
        {
            let b0 = binary[i];
            let b1 = binary[i + 1];
            let b2 = binary[i + 2];
            let b3 = binary[i + 3];
            if b0 > 1 || b1 > 1 || b2 > 1 || b3 > 1 {
                return Err(String::from_str("invalid binary digit"));
            }
            let v: u8 = b0 * 8 + b1 * 4 + b2 * 2 + b3;
            let ghost before = hex@;
            hex.append(hex_digit_str(v));
            proof {
                let group = binary@.subrange(i as int, i + 4);
                assert(bits_val(group) == v) by {
                    let g3 = binary@.subrange(i as int, i + 3);
                    let g2 = binary@.subrange(i as int, i + 2);
                    let g1 = binary@.subrange(i as int, i + 1);
                    assert(g1.drop_last() =~= Seq::<u8>::empty());
                    assert(bits_val(g1.drop_last()) == 0);
                    assert(g1.last() == b0);
                    assert(bits_val(g1) == (bits_val(g1.drop_last()) * 2 + g1.last()) as nat);
                    assert(g2.drop_last() =~= g1);
                    assert(g2.last() == b1);
                    assert(bits_val(g2) == (bits_val(g2.drop_last()) * 2 + g2.last()) as nat);
                    assert(g3.drop_last() =~= g2);
                    assert(g3.last() == b2);
                    assert(bits_val(g3) == (bits_val(g3.drop_last()) * 2 + g3.last()) as nat);
                    assert(group.drop_last() =~= g3);
                    assert(group.last() == b3);
                    assert(bits_val(group) == (bits_val(group.drop_last()) * 2
                        + group.last()) as nat);
                }
                let big = hex_chars_of(binary@.take(i + 4));
                assert(big =~= before.push(hex_digit_char(v as nat))) by {
                    assert(big.len() == (i + 4) / 4);
                    assert forall|j: int| 0 <= j < big.len() implies big[j] == before.push(
                        hex_digit_char(v as nat),
                    )[j] by {
                        if j < i / 4 {
                            assert(binary@.take(i + 4).subrange(4 * j, 4 * j + 4) =~= binary@.take(
                                i as int,
                            ).subrange(4 * j, 4 * j + 4));
                        } else {
                            assert(j == i / 4);
                            assert(binary@.take(i + 4).subrange(4 * j, 4 * j + 4) =~= group);
                        }
                    }
                }
                assert(hex@ =~= big);
                assert(is_bit_seq(binary@.take(i + 4)));
            }
            i = i + 4;
        }
        assert(binary@.take(n as int) =~= binary@);
        Ok(hex)
    }

    /// Encodes a number, given as decimal text, into the hexadecimal form
    /// of its 32-bit pattern.
    pub fn to_32bit_hex(value: &str) -> (r: Result<String, String>)
        ensures
            !valid_decimal_text(value@) ==> (r matches Err(m) && m@ == "invalid decimal text"@),
            valid_decimal_text(value@) && chars_val(int_chars(value@)) > u32::MAX ==> (
            r matches Err(m) && m@ == "integer part out of range"@),
            valid_decimal_text(value@) && chars_val(int_chars(value@)) <= u32::MAX && !encode_ok(
                chars_val(int_chars(value@)),
                digits_of_chars(frac_chars(value@)),
                23,
            ) ==> (r matches Err(m) && m@ == "unable to round up, overflow"@),
            valid_decimal_text(value@) && chars_val(int_chars(value@)) <= u32::MAX && encode_ok(
                chars_val(int_chars(value@)),
                digits_of_chars(frac_chars(value@)),
                23,
            ) ==> (r matches Ok(h) && h@ == hex_chars_of(
                encode_bits(
                    text_sign(value@),
                    chars_val(int_chars(value@)),
                    digits_of_chars(frac_chars(value@)),
                    23,
                    127,
                    32,
                ),
            )),
    {
        let binary: Vec<u8> = match IEEE754_32bit::get_binary(value) {
            Ok(b) => b,
            Err(m) => {
                return Err(m);
            },
        };
        proof {
            lemma_digits_of_chars(frac_chars(value@));
            lemma_encode_bits_shape(
                text_sign(value@),
                chars_val(int_chars(value@)),
                digits_of_chars(frac_chars(value@)),
                23,
                127,
                32,
            );
        }
        match IEEE754::to_hex(binary) {
            Ok(h) => Ok(h),
            Err(m) => {
                proof {
                    assert(false);
                }
                Err(m)
            },
        }
    }

    /// Encodes a number, given as decimal text, into the hexadecimal form
    /// of its 64-bit pattern.
    pub fn to_64bit_hex(value: &str) -> (r: Result<String, String>)
        ensures
            !valid_decimal_text(value@) ==> (r matches Err(m) && m@ == "invalid decimal text"@),
            valid_decimal_text(value@) && chars_val(int_chars(value@)) > u64::MAX ==> (
            r matches Err(m) && m@ == "integer part out of range"@),
            valid_decimal_text(value@) && chars_val(int_chars(value@)) <= u64::MAX && !encode_ok(
                chars_val(int_chars(value@)),
                digits_of_chars(frac_chars(value@)),
                52,
            ) ==> (r matches Err(m) && m@ == "unable to round up, overflow"@),
            valid_decimal_text(value@) && chars_val(int_chars(value@)) <= u64::MAX && encode_ok(
                chars_val(int_chars(value@)),
                digits_of_chars(frac_chars(value@)),
                52,
            ) ==> (r matches Ok(h) && h@ == hex_chars_of(
                encode_bits(
                    text_sign(value@),
                    chars_val(int_chars(value@)),
                    digits_of_chars(frac_chars(value@)),
                    52,
                    1023,
                    64,
                ),
            )),
    {
        let binary: Vec<u8> = match IEEE754_64bit::get_binary(value) {
            Ok(b) => b,
            Err(m) => {
                return Err(m);
            },
        };
        proof {
            lemma_digits_of_chars(frac_chars(value@));
            lemma_encode_bits_shape(
                text_sign(value@),
                chars_val(int_chars(value@)),
                digits_of_chars(frac_chars(value@)),
                52,
                1023,
                64,
            );
        }
        match IEEE754::to_hex(binary) {
            Ok(h) => Ok(h),
            Err(m) => {
                proof {
                    assert(false);
                }
                Err(m)
            },
        }
    }

    /// Expands byte values into one flat bit sequence.
    pub fn to_binary(values: Vec<u32>) -> (r: Result<Vec<u8>, ValidationError>)
        ensures
            values@.len() == 0 ==> r == Result::<Vec<u8>, ValidationError>::Err(
                ValidationError::EmptyValues,
            ),
            values@.len() > 0 ==> (r matches Ok(b) && b@ == bytes_bits(values@) && is_bit_seq(b@)),
    {
        bytes_to_bits(&values)
    }

    /// Decodes byte values as a 64-bit pattern into sign, integer part
    /// and fraction bits.
    pub fn to_64bit_parts(values: Vec<u32>) -> (r: Result<DecodedValue, ValidationError>)
        ensures
            decode_spec(values@, 11, 1023, 52, i64::MAX as int, r),
    {
        decode_value(&values, 11, 1023, 52, i64::MAX)
    }

    /// Decodes byte values as a 32-bit pattern into sign, integer part
    /// and fraction bits.
    pub fn to_32bit_parts(values: Vec<u32>) -> (r: Result<DecodedValue, ValidationError>)
        ensures
            decode_spec(values@, 8, 127, 23, i32::MAX as int, r),
    {
        decode_value(&values, 8, 127, 23, i32::MAX as i64)
    }
}

/// Two different four-bit group values never share a hexadecimal digit.
pub proof fn lemma_hex_digit_injective(a: nat, b: nat)
    requires
        a < 16,
        b < 16,
        hex_digit_char(a) == hex_digit_char(b),
    ensures
        a == b,
{
}

/// Reading a four-bit group's hexadecimal digit back gives the group's value.
pub proof fn lemma_hex_digit_value(v: nat)
    requires
        v < 16,
    ensures
        hex_char_val(hex_digit_char(v)) == v,
{
}

/// The hexadecimal rendering keeps every bit: expanding its digits back
/// into bits returns the original sequence.
pub proof fn lemma_hex_round_trip(s: Seq<u8>)
    requires
        is_bit_seq(s),
        s.len() % 4 == 0,
    ensures
        bits_of_hex(hex_chars_of(s)) =~= s,
{
    let h = hex_chars_of(s);
    let back = bits_of_hex(h);
    assert(back.len() == s.len());
    assert forall|idx: int| 0 <= idx < s.len() implies back[idx] == s[idx] by {
        let j = idx / 4;
        let group = s.subrange(4 * j, 4 * j + 4);
        assert(0 <= j < h.len());
        assert(h[j] == hex_digit_char(bits_val(group)));
        crate::model::lemma_bits_val_bound(group);
        assert(bits_val(group) < 16) by {
            vstd::arithmetic::power2::lemma2_to64();
        }
        lemma_hex_digit_value(bits_val(group));
        lemma_bits_of_width_inv(group);
        assert(back[idx] == crate::model::bits_of_width(hex_char_val(h[j]), 4)[idx % 4]);
        assert(group[idx % 4] == s[idx]);
    }
}

/// The rendering is injective: bit sequences with one hexadecimal text
/// are the same sequence.
pub proof fn lemma_to_hex_injective(a: Seq<u8>, b: Seq<u8>)
    requires
        is_bit_seq(a),
        is_bit_seq(b),
        a.len() % 4 == 0,
        b.len() % 4 == 0,
        hex_chars_of(a) == hex_chars_of(b),
    ensures
        a =~= b,
{
    lemma_hex_round_trip(a);
    lemma_hex_round_trip(b);
    assert(a.len() == b.len()) by {
        assert(hex_chars_of(a).len() == a.len() / 4);
        assert(hex_chars_of(b).len() == b.len() / 4);
    }
}

} // verus!
