//! The two IEEE-754 pipelines and what they share: field validation, the
//! exponent and mantissa codecs, and the assembly of encoded bit patterns.

use vstd::prelude::*;

pub mod ieee754_32bit;
pub mod ieee754_64bit;
pub mod validation;

pub use ieee754_32bit::IEEE754_32bit;
pub use ieee754_64bit::IEEE754_64bit;
pub use validation::ValidationError;

use crate::model::{
    all_ones, all_zeros, bits_of, bits_val, byte_bits, bytes_bits, decoded_integer, digits_val,
    frac_bits, frac_rem, frac_step_bit, frac_step_next, inc_bits, is_bit_seq, is_digit_seq,
    lemma_bits_of_len, lemma_bits_of_val, lemma_bits_val_bound, lemma_bits_val_prefix_le,
    bits_of_width, lemma_bits_of_width_val, lemma_bits_val_injective, lemma_byte_bits,
    lemma_bytes_bits, pow10,
};
use vstd::arithmetic::power2::pow2;
use crate::helper::round_up_needed;
use validation::ValidationError as VErr;

verus! {

/// The sign factor a decoded bit pattern carries: plus one for a clear
/// sign bit, minus one otherwise.
pub open spec fn decode_sign(b: Seq<u8>) -> i8 {
    if b[0] == 0 {
        1i8
    } else {
        -1i8
    }
}

/// A decoded value, taken apart into plain parts: the sign factor, the
/// integer magnitude, and the binary digits of the fractional magnitude
/// (digit `i` weighs two to the power `-(i + 1)`).
#[derive(Debug)]
pub struct DecodedValue {
    pub sign: i8,
    pub integer: i64,
    pub fraction: Vec<u8>,
}

/// Expands each value as `byte_bits` does and concatenates the results.
/// Relied on by both decode pipelines.
pub(crate) fn bytes_to_bits(values: &Vec<u32>) -> (r: Result<Vec<u8>, ValidationError>)
    ensures
        values@.len() == 0 ==> r == Result::<Vec<u8>, ValidationError>::Err(VErr::EmptyValues),
        values@.len() > 0 ==> (r matches Ok(b) && b@ == bytes_bits(values@) && is_bit_seq(b@)
            && b@.len() >= 8 * values@.len()),
{
    if values.len() == 0 {
        return Err(ValidationError::EmptyValues);
    }
    let mut binaries: Vec<u8> = Vec::new();
    let mut i: usize = 0;
    while i < values.len()
        invariant
            i <= values@.len(),
            binaries@ == bytes_bits(values@.take(i as int)),
            is_bit_seq(binaries@),
            binaries@.len() >= 8 * i,
        decreases values@.len() - i,
    {
        let v = values[i];
        let mut tmp: Vec<u8> = Vec::new();
        let mut rest: u32 = v;
        while rest > 0
            invariant
                bits_of(v as nat) == bits_of(rest as nat) + tmp@,
                is_bit_seq(tmp@),
            decreases rest,
        {
            let remainder: u8 = (rest % 2) as u8;
            let ghost before = tmp@;
            tmp.insert(0, remainder);
            proof {
                assert(tmp@ =~= seq![remainder] + before);
                assert(bits_of(rest as nat) == bits_of((rest as nat) / 2).push(
                    ((rest as nat) % 2) as u8,
                ));
                assert(bits_of((rest as nat) / 2) + (seq![remainder] + before) =~= (bits_of(
                    (rest as nat) / 2,
                ).push(remainder)) + before);
            }
            rest = rest / 2;
        }
        proof {
            assert(bits_of(0nat) =~= Seq::<u8>::empty());
            assert(tmp@ =~= bits_of(v as nat));
            lemma_bits_of_val(v as nat);
        }
        while tmp.len() < 8
            invariant
                is_bit_seq(tmp@),
                bits_val(tmp@) == v as nat,
                tmp@.len() >= bits_of(v as nat).len(),
                bits_of(v as nat).len() <= 8 ==> tmp@.len() <= 8,
                bits_of(v as nat).len() > 8 ==> tmp@ == bits_of(v as nat),
            decreases 8 - tmp@.len(),
        {
            let ghost before = tmp@;
            tmp.insert(0, 0);
            proof {
                assert(tmp@ =~= seq![0u8] + before);
                crate::model::lemma_bits_val_append(seq![0u8], before);
                crate::model::lemma_bits_val_single(0u8);
            }
        }
        proof {
            vstd::arithmetic::power2::lemma2_to64();
            lemma_bits_of_val(v as nat);
            lemma_byte_bits(v as nat);
            lemma_bits_of_len(v as nat, 8);
            if (v as nat) < 256 {
                assert(tmp@.len() == 8);
                lemma_bits_of_width_val(v as nat, 8);
                lemma_bits_val_injective(tmp@, byte_bits(v as nat));
            } else {
                assert(bits_of(v as nat).len() > 8);
                assert(tmp@ == bits_of(v as nat));
            }
            assert(tmp@ =~= byte_bits(v as nat));
        }
        binaries.append(&mut tmp);
        proof {
            assert(values@.take(i + 1).drop_last() =~= values@.take(i as int));
            assert(values@.take(i + 1).last() == values@[i as int]);
        }
        i = i + 1;
    }
    assert(values@.take(values@.len() as int) =~= values@);
    proof {
        lemma_bytes_bits(values@);
    }
    Ok(binaries)
}

/// Rejects the field combinations the codec does not represent: a full
/// exponent (infinity or not-a-number) and a `width`-long all-zero
/// mantissa.  The expected exponent width is `width`.
pub(crate) fn validate_fields(
    exponent_binaries: &[u8],
    mantissa_binaries: &[u8],
    width: usize,
) -> (r: Result<(), ValidationError>)
    ensures
        exponent_binaries@.len() != width ==> r == Result::<(), ValidationError>::Err(
            VErr::InvalidBitLength,
        ),
        exponent_binaries@.len() == width && all_ones(exponent_binaries@) ==> r == Result::<
            (),
            ValidationError,
        >::Err(VErr::ExponentAll1s),
        exponent_binaries@.len() == width && !all_ones(exponent_binaries@) && (
        mantissa_binaries@.len() == width && all_zeros(mantissa_binaries@)) ==> r == Result::<
            (),
            ValidationError,
        >::Err(VErr::MantissaAll0s),
        exponent_binaries@.len() == width && !all_ones(exponent_binaries@) && !(
        mantissa_binaries@.len() == width && all_zeros(mantissa_binaries@)) ==> r == Result::<
            (),
            ValidationError,
        >::Ok(()),
{
    if exponent_binaries.len() != width {
        return Err(ValidationError::InvalidBitLength);
    }
    let mut i: usize = 0;
    let mut exp_all_ones = true;
    while i < width
        invariant
            i <= width,
            width == exponent_binaries@.len(),
            exp_all_ones == (forall|j: int| 0 <= j < i ==> exponent_binaries@[j] == 1),
        decreases width - i,
    {
        if exponent_binaries[i] != 1 {
            exp_all_ones = false;
        }
        i = i + 1;
    }
    if exp_all_ones {
        return Err(ValidationError::ExponentAll1s);
    }
    if mantissa_binaries.len() == width {
        let mut k: usize = 0;
        let mut mant_all_zeros = true;
        while k < width
            invariant
                k <= width,
                width == mantissa_binaries@.len(),
                mant_all_zeros == (forall|j: int| 0 <= j < k ==> mantissa_binaries@[j] == 0),
            decreases width - k,
        {
            if mantissa_binaries[k] != 0 {
                mant_all_zeros = false;
            }
            k = k + 1;
        }
        if mant_all_zeros {
            return Err(ValidationError::MantissaAll0s);
        }
    }
    Ok(())
}

/// Reads an exponent field as an unsigned binary integer and lifts the
/// format's bias off it; a zero field stays at zero by convention.
pub(crate) fn exponent_value(binaries: &[u8], bias: u32) -> (r: Result<i32, ValidationError>)
    requires
        binaries@.len() <= 31,
        bias <= 1023,
    ensures
        binaries@.len() == 0 || !is_bit_seq(binaries@) ==> r == Result::<i32, ValidationError>::Err(
            VErr::ParseError,
        ),
        binaries@.len() > 0 && is_bit_seq(binaries@) && bits_val(binaries@) == 0 ==> r == Result::<
            i32,
            ValidationError,
        >::Ok(0),
        binaries@.len() > 0 && is_bit_seq(binaries@) && bits_val(binaries@) > 0 ==> (r matches Ok(e)
            && e == bits_val(binaries@) - bias),
{
    if binaries.len() == 0 {
        return Err(ValidationError::ParseError);
    }
    let mut acc: u32 = 0;
    let mut i: usize = 0;
    while i < binaries.len()
        invariant
            i <= binaries@.len(),
            binaries@.len() <= 31,
            acc == bits_val(binaries@.take(i as int)),
            is_bit_seq(binaries@.take(i as int)),
        decreases binaries@.len() - i,
    {
        let b = binaries[i];
        if b > 1 {
            assert(!is_bit_seq(binaries@));
            return Err(ValidationError::ParseError);
        }
        proof {
            assert(binaries@.take(i + 1).drop_last() =~= binaries@.take(i as int));
            assert(binaries@.take(i + 1).last() == binaries@[i as int]);
            lemma_bits_val_bound(binaries@.take(i as int));
            vstd::arithmetic::power2::lemma2_to64();
            vstd::arithmetic::power2::lemma_pow2_strictly_increases(i as nat, 31);
        }
        acc = acc * 2 + b as u32;
        i = i + 1;
    }
    assert(binaries@.take(binaries@.len() as int) =~= binaries@);
    if acc == 0 {
        return Ok(0);
    }
    proof {
        lemma_bits_val_bound(binaries@);
        vstd::arithmetic::power2::lemma2_to64();
        if binaries@.len() < 31 {
            vstd::arithmetic::power2::lemma_pow2_strictly_increases(binaries@.len(), 31);
        }
        assert(acc < pow2(31));
    }
    Ok(acc as i32 - bias as i32)
}

/// Splits a mantissa field at the radix point the exponent names: the first
/// `exponent` bits join the implicit leading one as the integer part, the
/// rest stay as fraction bits.  A `zero_width`-long all-zero field with a
/// zero exponent decodes to exactly zero; an integer part above `max` is
/// refused.
pub(crate) fn mantissa_parts(binaries: &[u8], exponent: i32, zero_width: usize, max: i64) -> (r:
    Result<(i64, Vec<u8>), ValidationError>)
    requires
        1 <= max,
    ensures
        binaries@.len() == zero_width && all_zeros(binaries@) && exponent == 0 ==> (r matches Ok(t)
            && t.0 == 0 && t.1@ == Seq::<u8>::empty()),
        !(binaries@.len() == zero_width && all_zeros(binaries@) && exponent == 0) && (exponent < 0
            || exponent > binaries@.len()) ==> (r matches Err(m) && m == VErr::EmptyMantissa),
        !(binaries@.len() == zero_width && all_zeros(binaries@) && exponent == 0) && 0 <= exponent
            <= binaries@.len() && (!is_bit_seq(binaries@.take(exponent as int)) || decoded_integer(
            binaries@,
            exponent as int,
        ) > max) ==> (r matches Err(m) && m == VErr::InvalidMSBMantissa),
        !(binaries@.len() == zero_width && all_zeros(binaries@) && exponent == 0) && 0 <= exponent
            <= binaries@.len() && is_bit_seq(binaries@.take(exponent as int)) && decoded_integer(
            binaries@,
            exponent as int,
        ) <= max ==> (r matches Ok(t) && t.0 == decoded_integer(binaries@, exponent as int)
            && t.1@ == binaries@.skip(exponent as int)),
{
    let n = binaries.len();
    if n == zero_width && exponent == 0 {
        let mut z: usize = 0;
        let mut zeros = true;
        while z < n
            invariant
                z <= n,
                n == binaries@.len(),
                zeros == (forall|j: int| 0 <= j < z ==> binaries@[j] == 0),
            decreases n - z,
        {
            if binaries[z] != 0 {
                zeros = false;
            }
            z = z + 1;
        }
        if zeros {
            return Ok((0, Vec::new()));
        }
    }
    assert(!(binaries@.len() == zero_width && all_zeros(binaries@) && exponent == 0));
    if exponent < 0 {
        return Err(ValidationError::EmptyMantissa);
    }
    let e = exponent as usize;
    if e > n {
        return Err(ValidationError::EmptyMantissa);
    }
    proof {
        assert(seq![1u8] + binaries@.take(0) =~= seq![1u8]);
        crate::model::lemma_bits_val_single(1u8);
    }
    let mut acc: u64 = 1;
    let mut i: usize = 0;
    while i < e
        invariant
            i <= e,
            e <= n,
            n == binaries@.len(),
            exponent == e,
            1 <= max,
            !(binaries@.len() == zero_width && all_zeros(binaries@) && exponent == 0),
            acc == bits_val(seq![1u8] + binaries@.take(i as int)),
            acc <= max,
            is_bit_seq(binaries@.take(i as int)),
        decreases e - i,
    {
        let b = binaries[i];
        if b > 1 {
            proof {
                assert(binaries@.take(e as int)[i as int] == binaries@[i as int]);
                assert(!is_bit_seq(binaries@.take(e as int)));
            }
            return Err(ValidationError::InvalidMSBMantissa);
        }
        proof {
            let p = seq![1u8] + binaries@.take(i as int);
            let q = seq![1u8] + binaries@.take(i + 1);
            assert(q.drop_last() =~= p);
            assert(q.last() == binaries@[i as int]);
        }
        let next: u64 = acc * 2 + b as u64;
        if next > max as u64 {
            proof {
                let p = seq![1u8] + binaries@.take(i + 1);
                let q = seq![1u8] + binaries@.take(e as int);
                assert(q =~= p + binaries@.subrange(i + 1, e as int));
                lemma_bits_val_prefix_le(p, binaries@.subrange(i + 1, e as int));
                assert(decoded_integer(binaries@, e as int) > max);
            }
            return Err(ValidationError::InvalidMSBMantissa);
        }
        acc = next;
        i = i + 1;
    }
    assert(acc == decoded_integer(binaries@, e as int));
    let mut fraction: Vec<u8> = Vec::new();
    let mut j: usize = e;
    while j < n
        invariant
            e <= j <= n,
            n == binaries@.len(),
            exponent == e,
            1 <= max,
            !(binaries@.len() == zero_width && all_zeros(binaries@) && exponent == 0),
            acc == decoded_integer(binaries@, e as int),
            acc <= max,
            is_bit_seq(binaries@.take(e as int)),
            fraction@ == binaries@.subrange(e as int, j as int),
        decreases n - j,
    {
        fraction.push(binaries[j]);
        assert(fraction@ =~= binaries@.subrange(e as int, j + 1));
        j = j + 1;
    }
    assert(fraction@ =~= binaries@.skip(e as int));
    Ok((acc as i64, fraction))
}

/// The exponent field's value for an integer magnitude: the magnitude's
/// bit count less one, rebiased; zero when the magnitude is zero.
pub open spec fn exp_value(ival: nat, bias: nat) -> nat {
    if ival == 0 {
        0
    } else {
        (bits_of(ival).len() - 1 + bias) as nat
    }
}

/// The mantissa buffer before trimming: the integer part's bits without
/// their leading one, then the fraction's expansion to at most `w + 1` bits.
pub open spec fn mantissa_pre(ival: nat, fdigits: Seq<u8>, w: nat) -> Seq<u8> {
    let ipart = if ival == 0 {
        Seq::<u8>::empty()
    } else {
        bits_of(ival).skip(1)
    };
    ipart + frac_bits(digits_val(fdigits), pow10(fdigits.len()), w + 1)
}

/// Whether encoding succeeds: the rounding engine fails only when it must
/// round an all-ones buffer up.
pub open spec fn encode_ok(ival: nat, fdigits: Seq<u8>, w: nat) -> bool {
    let m = mantissa_pre(ival, fdigits, w);
    m.len() <= w || !round_up_needed(m, w as int) || !all_ones(m.take(w as int))
}

/// The mantissa field actually emitted: the buffer itself when it fits,
/// else its first `w` bits, rounded up when the engine asks for it.
pub open spec fn mantissa_final(ival: nat, fdigits: Seq<u8>, w: nat) -> Seq<u8> {
    let m = mantissa_pre(ival, fdigits, w);
    if m.len() <= w {
        m
    } else if !round_up_needed(m, w as int) {
        m.take(w as int)
    } else {
        inc_bits(m.take(w as int))
    }
}

/// The full encoded pattern: the sign bit, the exponent field at the
/// format's fixed width (left-padded with zeros), the trimmed mantissa,
/// zero-padded on the right to `total` bits.
pub open spec fn encode_bits(
    sign: u8,
    ival: nat,
    fdigits: Seq<u8>,
    w: nat,
    bias: nat,
    total: nat,
) -> Seq<u8> {
    let body = seq![sign] + bits_of_width(exp_value(ival, bias), (total - w - 1) as nat)
        + mantissa_final(ival, fdigits, w);
    if body.len() >= total {
        body.take(total as int)
    } else {
        body + Seq::new((total - body.len()) as nat, |i: int| 0u8)
    }
}

/// Assembles the encoded pattern from a sign flag, an integer magnitude
/// and the fraction's decimal digits.  Relied on by both encode pipelines.
pub(crate) fn encode_parts(
    sign_bit: u8,
    ival: u64,
    frac_digits: Vec<u8>,
    w: usize,
    bias: u32,
    total: usize,
) -> (r: Result<Vec<u8>, String>)
    requires
        is_digit_seq(frac_digits@),
        1 <= w,
        w + 2 <= total,
        bias <= 1023,
        exp_value(ival as nat, bias as nat) < pow2((total - w - 1) as nat),
    ensures
        encode_ok(ival as nat, frac_digits@, w as nat) ==> (r matches Ok(v) && v@ == encode_bits(
            sign_bit,
            ival as nat,
            frac_digits@,
            w as nat,
            bias as nat,
            total as nat,
        )),
        !encode_ok(ival as nat, frac_digits@, w as nat) ==> (r matches Err(m) && m@
            == "unable to round up, overflow"@),
{
    let ghost ivaln = ival as nat;
    let ghost fd = frac_digits@;
    let ghost den = pow10(fd.len());
    let ghost num0 = digits_val(fd);

    // The integer magnitude's bits, most significant first.
    let mut integer_part: u64 = ival;
    let mut integer_part_bin: Vec<u8> = Vec::new();
    while integer_part > 0
        invariant
            bits_of(ivaln) == bits_of(integer_part as nat) + integer_part_bin@,
            is_bit_seq(integer_part_bin@),
        decreases integer_part,
    {
        let remainder: u8 = (integer_part % 2) as u8;
        let ghost before = integer_part_bin@;
        integer_part_bin.insert(0, remainder);
        proof {
            assert(integer_part_bin@ =~= seq![remainder] + before);
            assert(bits_of(integer_part as nat) == bits_of((integer_part as nat) / 2).push(
                ((integer_part as nat) % 2) as u8,
            ));
            assert(bits_of((integer_part as nat) / 2) + (seq![remainder] + before) =~= (bits_of(
                (integer_part as nat) / 2,
            ).push(remainder)) + before);
        }
        integer_part = integer_part / 2;
    }
    proof {
        assert(bits_of(0nat) =~= Seq::<u8>::empty());
        assert(integer_part_bin@ =~= bits_of(ivaln));
        lemma_bits_of_len(ivaln, 64);
        vstd::arithmetic::power2::lemma2_to64_rest();
        vstd::arithmetic::power2::lemma2_to64();
    }

    // The fraction's bits, by exact decimal doubling, at most `w + 1`.
    let mut digits = frac_digits;
    let mut fractional_part_bin: Vec<u8> = Vec::new();
    proof {
        crate::model::lemma_digits_val_bound(fd);
        crate::model::lemma_pow10_pos(fd.len());
    }
    while !crate::helper::digits_all_zero(&digits) && fractional_part_bin.len() <= w
        invariant
            w + 2 <= total,
            digits@.len() == fd.len(),
            is_digit_seq(digits@),
            digits_val(digits@) < den,
            den == pow10(fd.len()),
            1 <= den,
            num0 == digits_val(fd),
            fractional_part_bin@.len() <= w + 1,
            is_bit_seq(fractional_part_bin@),
            fractional_part_bin@ + frac_bits(
                digits_val(digits@),
                den,
                (w + 1 - fractional_part_bin@.len()) as nat,
            ) == frac_bits(num0, den, (w + 1) as nat),
        decreases w + 1 - fractional_part_bin@.len(),
    {
        let ghost cur = digits_val(digits@);
        let ghost budget = (w + 1 - fractional_part_bin@.len()) as nat;
        let ghost fbefore = fractional_part_bin@;
        let carry = crate::helper::double_digits(&mut digits);
        fractional_part_bin.push(carry);
        proof {
            let next = digits_val(digits@);
            assert(carry * den + next == 2 * cur);
            crate::model::lemma_digits_val_bound(digits@);
            assert(carry == frac_step_bit(cur, den) && next == frac_step_next(cur, den)) by {
                if carry == 0 {
                    assert(next == 2 * cur);
                    assert(2 * cur < den);
                } else {
                    assert(carry * den == den) by (nonlinear_arith)
                        requires
                            carry == 1,
                    ;
                    assert(next == 2 * cur - den);
                }
            }
            assert(cur > 0 && budget > 0);
            assert(frac_bits(cur, den, budget) == seq![carry] + frac_bits(
                next,
                den,
                (budget - 1) as nat,
            ));
            assert(fractional_part_bin@ =~= fbefore.push(carry));
            assert(fbefore + (seq![carry] + frac_bits(next, den, (budget - 1) as nat)) =~= (
            fbefore.push(carry)) + frac_bits(next, den, (budget - 1) as nat));
        }
    }
    proof {
        let left = (w + 1 - fractional_part_bin@.len()) as nat;
        if digits_val(digits@) == 0 || left == 0 {
            assert(frac_bits(digits_val(digits@), den, left) =~= Seq::<u8>::empty());
        }
        assert(fractional_part_bin@ + Seq::<u8>::empty() =~= fractional_part_bin@);
        assert(fractional_part_bin@ == frac_bits(num0, den, (w + 1) as nat));
    }

    // The exponent field, left-padded to the format's fixed width.
    let mut exponent: u32 = 0;
    if integer_part_bin.len() > 0 {
        exponent = (integer_part_bin.len() - 1) as u32 + bias;
    }
    assert(exponent == exp_value(ivaln, bias as nat));
    let ghost e0 = exponent as nat;
    let mut exponent_bin: Vec<u8> = Vec::new();
    while exponent > 0
        invariant
            bits_of(e0) == bits_of(exponent as nat) + exponent_bin@,
            is_bit_seq(exponent_bin@),
        decreases exponent,
    {
        let remainder: u8 = (exponent % 2) as u8;
        let ghost before = exponent_bin@;
        exponent_bin.insert(0, remainder);
        proof {
            assert(exponent_bin@ =~= seq![remainder] + before);
            assert(bits_of(exponent as nat) == bits_of((exponent as nat) / 2).push(
                ((exponent as nat) % 2) as u8,
            ));
            assert(bits_of((exponent as nat) / 2) + (seq![remainder] + before) =~= (bits_of(
                (exponent as nat) / 2,
            ).push(remainder)) + before);
        }
        exponent = exponent / 2;
    }
    proof {
        assert(bits_of(0nat) =~= Seq::<u8>::empty());
        assert(exponent_bin@ =~= bits_of(e0));
        lemma_bits_of_val(e0);
        lemma_bits_of_len(e0, (total - w - 1) as nat);
    }
    let exponent_width: usize = total - w - 1;
    while exponent_bin.len() < exponent_width
        invariant
            w + 2 <= total,
            exponent_width == total - w - 1,
            is_bit_seq(exponent_bin@),
            bits_val(exponent_bin@) == e0,
            exponent_bin@.len() <= exponent_width,
        decreases exponent_width - exponent_bin@.len(),
    {
        let ghost before = exponent_bin@;
        exponent_bin.insert(0, 0);
        proof {
            assert(exponent_bin@ =~= seq![0u8] + before);
            crate::model::lemma_bits_val_append(seq![0u8], before);
            crate::model::lemma_bits_val_single(0u8);
        }
    }
    proof {
        let ew = (total - w - 1) as nat;
        assert(exponent_bin@.len() == ew);
        lemma_bits_of_width_val(e0, ew);
        lemma_bits_val_injective(exponent_bin@, bits_of_width(e0, ew));
        assert(exponent_bin@ =~= bits_of_width(e0, ew));
    }

    // Drop the implicit leading one off the integer part.
    if integer_part_bin.len() > 0 {
        integer_part_bin.remove(0);
        proof {
            assert(integer_part_bin@ =~= bits_of(ivaln).skip(1));
        }
    }
    let ghost ipart = if ivaln == 0 {
        Seq::<u8>::empty()
    } else {
        bits_of(ivaln).skip(1)
    };
    assert(integer_part_bin@ == ipart);

    // The mantissa buffer, trimmed and rounded where it runs over.
    let mut mantissa_bin: Vec<u8> = Vec::new();
    mantissa_bin.append(&mut integer_part_bin);
    mantissa_bin.append(&mut fractional_part_bin);
    assert(mantissa_bin@ =~= mantissa_pre(ivaln, fd, w as nat));
    let ghost mpre = mantissa_pre(ivaln, fd, w as nat);
    let final_mantissa: Vec<u8> = if mantissa_bin.len() > w {
        match crate::helper::ComputeMantissaBits::compute(mantissa_bin, w) {
            Ok(v) => v,
            Err(m) => {
                proof {
                    assert(round_up_needed(mpre, w as int));
                    assert(all_ones(mpre.take(w as int)));
                    assert(!encode_ok(ivaln, fd, w as nat));
                }
                return Err(m);
            },
        }
    } else {
        mantissa_bin
    };
    proof {
        if mpre.len() > w && round_up_needed(mpre, w as int) {
            crate::model::lemma_inc_bits(mpre.take(w as int));
        }
    }
    assert(final_mantissa@ == mantissa_final(ivaln, fd, w as nat));
    assert(final_mantissa@.len() <= w);

    // Assembly and right padding.
    let mut binary: Vec<u8> = Vec::new();
    binary.push(sign_bit);
    binary.append(&mut exponent_bin);
    let mut tail = final_mantissa;
    binary.append(&mut tail);
    let ghost body = seq![sign_bit] + bits_of_width(
        exp_value(ivaln, bias as nat),
        (total - w - 1) as nat,
    ) + mantissa_final(ivaln, fd, w as nat);
    assert(binary@ =~= body);
    assert(body.len() <= total);
    while binary.len() < total
        invariant
            body.len() <= binary@.len() <= total,
            binary@ == body + Seq::new((binary@.len() - body.len()) as nat, |i: int| 0u8),
        decreases total - binary@.len(),
    {
        let ghost before = binary@;
        binary.push(0);
        proof {
            assert(binary@ =~= body + Seq::new((binary@.len() - body.len()) as nat, |i: int| 0u8));
        }
    }
    proof {
        assert(binary@.len() == total);
        assert(binary@ == encode_bits(sign_bit, ivaln, fd, w as nat, bias as nat, total as nat));
    }
    Ok(binary)
}

/// An encoded pattern is `total` bits of binary digits.
pub proof fn lemma_encode_bits_shape(sign: u8, ival: nat, fdigits: Seq<u8>, w: nat, bias: nat, total: nat)
    requires
        sign <= 1,
        is_digit_seq(fdigits),
        encode_ok(ival, fdigits, w),
    ensures
        encode_bits(sign, ival, fdigits, w, bias, total).len() == total,
        is_bit_seq(encode_bits(sign, ival, fdigits, w, bias, total)),
{
    let e = exp_value(ival, bias);
    let ebits = bits_of_width(e, (total - w - 1) as nat);
    let mpre = mantissa_pre(ival, fdigits, w);
    let m = mantissa_final(ival, fdigits, w);
    let body = seq![sign] + ebits + m;
    assert(is_bit_seq(ebits)) by {
        assert(forall|j: int|
            0 <= j < ebits.len() ==> ebits[j] == ((e / pow2(
                (ebits.len() - 1 - j) as nat,
            )) % 2) as u8);
    }
    lemma_bits_of_val(ival);
    crate::model::lemma_digits_val_bound(fdigits);
    crate::model::lemma_pow10_pos(fdigits.len());
    crate::model::lemma_frac_bits(digits_val(fdigits), pow10(fdigits.len()), w + 1);
    assert(is_bit_seq(mpre)) by {
        let ipart = if ival == 0 {
            Seq::<u8>::empty()
        } else {
            bits_of(ival).skip(1)
        };
        let fb = frac_bits(digits_val(fdigits), pow10(fdigits.len()), w + 1);
        assert(forall|j: int| 0 <= j < ipart.len() ==> ipart[j] == bits_of(ival)[j + 1]);
        assert(forall|j: int| 0 <= j < mpre.len() ==> mpre[j] == if j < ipart.len() {
            ipart[j]
        } else {
            fb[j - ipart.len()]
        });
    }
    assert(is_bit_seq(m)) by {
        if mpre.len() > w && round_up_needed(mpre, w as int) {
            crate::model::lemma_inc_bits(mpre.take(w as int));
        }
    }
    assert(is_bit_seq(body)) by {
        assert(forall|j: int| 0 <= j < ebits.len() ==> body[j + 1] == ebits[j]);
        assert(forall|j: int| 0 <= j < m.len() ==> body[j + 1 + ebits.len()] == m[j]);
        assert(body[0] == sign);
    }
    let out = encode_bits(sign, ival, fdigits, w, bias, total);
    if body.len() >= total {
        assert(forall|j: int| 0 <= j < out.len() ==> out[j] == body[j]);
    } else {
        assert(forall|j: int|
            0 <= j < out.len() ==> out[j] == if j < body.len() {
                body[j]
            } else {
                0u8
            });
    }
}

/// What decoding a run of byte values must yield, for a format whose
/// exponent field is `ew` bits wide with bias `bias`, whose mantissa
/// field is `zw` bits wide, and whose integer part may reach `max`: each
/// rejected shape with its error, and for the rest the sign, integer
/// part and fraction bits.
pub open spec fn decode_spec(
    values: Seq<u32>,
    ew: int,
    bias: nat,
    zw: int,
    max: int,
    r: Result<DecodedValue, ValidationError>,
) -> bool {
    let b = bytes_bits(values);
    let ex = b.subrange(1, 1 + ew);
    let mant = b.skip(1 + ew);
    if values.len() == 0 {
        r matches Err(m) && m == ValidationError::EmptyValues
    } else if b.len() < 1 + ew {
        r matches Err(m) && m == ValidationError::InvalidExponent
    } else if all_ones(ex) {
        r matches Err(m) && m == ValidationError::ExponentAll1s
    } else if mant.len() == ew && all_zeros(mant) {
        r matches Err(m) && m == ValidationError::MantissaAll0s
    } else {
        let ev = bits_val(ex);
        let e = if ev == 0 {
            0
        } else {
            ev - bias
        };
        if mant.len() == zw && all_zeros(mant) && e == 0 {
            r matches Ok(t) && t.sign == decode_sign(b) && t.integer == 0 && t.fraction@
                == Seq::<u8>::empty()
        } else if e < 0 || e > mant.len() {
            r matches Err(m) && m == ValidationError::EmptyMantissa
        } else if decoded_integer(mant, e) > max {
            r matches Err(m) && m == ValidationError::InvalidMSBMantissa
        } else {
            r matches Ok(t) && t.sign == decode_sign(b) && t.integer == decoded_integer(mant, e)
                && t.fraction@ == mant.skip(e)
        }
    }
}

/// Reads the sign off the leading bit: plus one for zero, minus one for
/// anything else.
pub(crate) fn get_sign_bit(binaries: &[u8]) -> (r: Result<i8, ValidationError>)
    ensures
        binaries@.len() == 0 ==> r == Result::<i8, ValidationError>::Err(
            ValidationError::EmptySignBit,
        ),
        binaries@.len() > 0 ==> r == Result::<i8, ValidationError>::Ok(decode_sign(binaries@)),
{
    if binaries.len() == 0 {
        return Err(ValidationError::EmptySignBit);
    }
    if binaries[0] == 0 {
        Ok(1)
    } else {
        Ok(-1)
    }
}

/// The whole decode pipeline: byte expansion, sign, field validation,
/// exponent and mantissa codecs.  Relied on by both formats.
pub(crate) fn decode_value(values: &Vec<u32>, ew: usize, bias: u32, zw: usize, max: i64) -> (r:
    Result<DecodedValue, ValidationError>)
    requires
        1 <= ew <= 31,
        bias <= 1023,
        1 <= max,
    ensures
        decode_spec(values@, ew as int, bias as nat, zw as int, max as int, r),
{
    let binaries = match bytes_to_bits(values) {
        Ok(b) => b,
        Err(m) => {
            return Err(m);
        },
    };
    let sign_bit: i8 = match get_sign_bit(binaries.as_slice()) {
        Ok(s) => s,
        Err(m) => {
            proof {
                assert(false);
            }
            return Err(m);
        },
    };
    if binaries.len() < 1 + ew {
        return Err(ValidationError::InvalidExponent);
    }
    let exponent_binaries = vstd::slice::slice_subrange(binaries.as_slice(), 1, 1 + ew);
    let mantissa_binaries = vstd::slice::slice_subrange(binaries.as_slice(), 1 + ew, binaries.len());
    proof {
        assert(mantissa_binaries@ =~= bytes_bits(values@).skip(1 + ew));
    }
    match validate_fields(exponent_binaries, mantissa_binaries, ew) {
        Ok(u) => u,
        Err(m) => {
            proof {
                assert(exponent_binaries@.len() == ew);
            }
            return Err(m);
        },
    };
    let exponent: i32 = match exponent_value(exponent_binaries, bias) {
        Ok(e) => e,
        Err(m) => {
            proof {
                assert(is_bit_seq(exponent_binaries@));
                assert(false);
            }
            return Err(m);
        },
    };
    let parts: (i64, Vec<u8>) = match mantissa_parts(mantissa_binaries, exponent, zw, max) {
        Ok(t) => t,
        Err(m) => {
            return Err(m);
        },
    };
    Ok(DecodedValue { sign: sign_bit, integer: parts.0, fraction: parts.1 })
}

/// A value held as the byte values of its bit pattern, ready to decode.
#[derive(Debug)]
pub struct IEEE754 {
    values: Vec<u32>,
}

impl View for IEEE754 {
    type V = Seq<u32>;

    closed spec fn view(&self) -> Seq<u32> {
        self.values@
    }
}

impl IEEE754 {
    pub fn new(values: Vec<u32>) -> (r: Self)
        ensures
            r@ == values@,
    {
        Self { values }
    }

    /// Expands the held byte values into one flat bit sequence.
    pub fn to_binary(&self) -> (r: Result<Vec<u8>, ValidationError>)
        ensures
            self@.len() == 0 ==> r == Result::<Vec<u8>, ValidationError>::Err(
                ValidationError::EmptyValues,
            ),
            self@.len() > 0 ==> (r matches Ok(b) && b@ == bytes_bits(self@) && is_bit_seq(b@)),
    {
        bytes_to_bits(&self.values)
    }

    /// Decodes the held bytes as a 64-bit pattern into sign, integer part
    /// and fraction bits.
    pub fn to_64bit_parts(&self) -> (r: Result<DecodedValue, ValidationError>)
        ensures
            decode_spec(self@, 11, 1023, 52, i64::MAX as int, r),
    {
        decode_value(&self.values, 11, 1023, 52, i64::MAX)
    }

    /// Decodes the held bytes as a 32-bit pattern into sign, integer part
    /// and fraction bits.
    pub fn to_32bit_parts(&self) -> (r: Result<DecodedValue, ValidationError>)
        ensures
            decode_spec(self@, 8, 127, 23, i32::MAX as int, r),
    {
        decode_value(&self.values, 8, 127, 23, i32::MAX as i64)
    }
}

/// Encode inverts into decode: for a normal, exactly representable value
/// (integer magnitude at least one, not the bare magnitude one with an
/// empty fraction, and the fraction's binary expansion complete within
/// the mantissa width) the encoded pattern carries the sign bit
/// unchanged, an exponent field that is neither all ones nor out of
/// range, an integer part that decodes back to the same magnitude, and
/// fraction bits worth exactly the original fraction.
pub proof fn lemma_encode_then_decode(
    sign: u8,
    ival: nat,
    fdigits: Seq<u8>,
    w: nat,
    ew: nat,
    bias: nat,
)
    requires
        sign <= 1,
        is_digit_seq(fdigits),
        1 <= ival,
        2 <= ival || digits_val(fdigits) > 0,
        1 <= ew,
        1 <= bias,
        exp_value(ival, bias) < pow2(ew) - 1,
        frac_rem(digits_val(fdigits), pow10(fdigits.len()), w + 1) == 0,
        mantissa_pre(ival, fdigits, w).len() <= w,
    ensures
        ({
            let b = encode_bits(sign, ival, fdigits, w, bias, (1 + ew + w) as nat);
            let ex = b.subrange(1, 1 + ew as int);
            let mant = b.skip(1 + ew as int);
            let fb = frac_bits(digits_val(fdigits), pow10(fdigits.len()), w + 1);
            let e = bits_of(ival).len() - 1;
            &&& b.len() == 1 + ew + w
            &&& is_bit_seq(b)
            &&& b[0] == sign
            &&& mant.len() == w
            &&& !all_ones(ex)
            &&& bits_val(ex) == e + bias
            &&& 0 <= e <= mant.len()
            &&& e == 0 ==> !all_zeros(mant)
            &&& decoded_integer(mant, e) == ival
            &&& mant.skip(e) =~= fb + Seq::new((w - e - fb.len()) as nat, |i: int| 0u8)
            &&& digits_val(fdigits) * pow2((w - e) as nat) == bits_val(mant.skip(e)) * pow10(
                fdigits.len(),
            )
        }),
{
    let total = (1 + ew + w) as nat;
    let den = pow10(fdigits.len());
    let num = digits_val(fdigits);
    let ev = exp_value(ival, bias);
    let ebits = bits_of_width(ev, ew);
    let ibits = bits_of(ival);
    let e = ibits.len() - 1;
    let ipart = ibits.skip(1);
    let fb = frac_bits(num, den, w + 1);
    let mpre = mantissa_pre(ival, fdigits, w);
    let b = encode_bits(sign, ival, fdigits, w, bias, total);

    crate::model::lemma_digits_val_bound(fdigits);
    crate::model::lemma_pow10_pos(fdigits.len());
    crate::model::lemma_frac_bits(num, den, w + 1);
    lemma_bits_of_val(ival);
    crate::model::lemma_bits_of_leading_one(ival);
    assert(e >= 0);
    assert(mpre =~= ipart + fb);
    assert(ipart.len() == e);
    assert(e + fb.len() <= w);

    // the exponent field is exactly `ew` bits long and carries `ev`
    lemma_bits_of_width_val(ev, ew);
    assert(ebits.len() == ew);

    // the whole pattern: body and padding
    assert(is_bit_seq(mpre)) by {
        assert(forall|j: int| 0 <= j < ipart.len() ==> ipart[j] == ibits[j + 1]);
    }
    lemma_encode_bits_shape(sign, ival, fdigits, w, bias, total);
    assert(mantissa_final(ival, fdigits, w) == mpre);
    let body = seq![sign] + ebits + mpre;
    assert(body.len() == 1 + ew + e + fb.len() <= total);
    let pad = Seq::new((total - body.len()) as nat, |i: int| 0u8);
    assert(b == body + pad);
    assert(b.len() == total);
    assert(b[0] == sign);

    let ex = b.subrange(1, 1 + ew as int);
    assert(ex =~= ebits) by {
        assert forall|j: int| 0 <= j < ew implies ex[j] == ebits[j] by {
            assert(b[1 + j] == body[1 + j]);
            assert(body[1 + j] == ebits[j]);
        }
    }
    assert(bits_val(ex) == ev);
    assert(ev == e + bias);

    // with magnitude one the mantissa still carries a one: the fraction
    // is non-empty and its expansion ends on a set bit
    if e == 0 {
        assert(ibits.len() == 1);
        assert(ival == 1) by {
            assert(ibits.drop_last() =~= Seq::<u8>::empty());
            assert(bits_val(ibits.drop_last()) == 0);
            assert(ibits.last() == 1);
            assert(bits_val(ibits) == (bits_val(ibits.drop_last()) * 2 + ibits.last()) as nat);
        }
        assert(num > 0);
        assert(fb.len() > 0 && fb.last() == 1);
    }

    // a full exponent field would carry the value pow2(ew) - 1
    assert(!all_ones(ex)) by {
        if all_ones(ex) {
            crate::model::lemma_bits_val_ones(ex);
        }
    }

    let mant = b.skip(1 + ew as int);
    assert(mant.len() == w);
    let zeros = Seq::new((w - e - fb.len()) as nat, |i: int| 0u8);
    assert(mant =~= ipart + fb + zeros) by {
        assert(forall|j: int| 0 <= j < mpre.len() ==> mant[j] == mpre[j]);
        assert(forall|j: int| mpre.len() <= j < w ==> mant[j] == 0);
        assert(forall|j: int| 0 <= j < ipart.len() ==> (ipart + fb + zeros)[j] == ipart[j]);
        assert(forall|j: int|
            0 <= j - ipart.len() < fb.len() ==> (ipart + fb + zeros)[j] == fb[j - ipart.len()]);
        assert(forall|j: int|
            0 <= j - ipart.len() - fb.len() < zeros.len() ==> (ipart + fb + zeros)[j] == 0);
    }

    // the integer part decodes back: the implicit one rejoins its bits
    assert(mant.take(e as int) =~= ipart);
    assert(seq![1u8] + ipart =~= ibits);
    assert(decoded_integer(mant, e as int) == ival);

    // the fraction bits survive, padded with zeros
    assert(mant.skip(e as int) =~= fb + zeros);
    if e == 0 {
        assert(mant[e + fb.len() - 1] == fb.last());
        assert(!all_zeros(mant));
    }

    // and they are worth exactly the original decimal fraction
    crate::model::lemma_bits_val_append(fb, zeros);
    crate::model::lemma_bits_val_zeros(zeros);
    assert(bits_val(fb + zeros) == bits_val(fb) * pow2(zeros.len()));
    assert(num * pow2(fb.len()) == bits_val(fb) * den);
    vstd::arithmetic::power2::lemma_pow2_adds(fb.len(), zeros.len());
    assert((w - e) as nat == fb.len() + zeros.len());
    assert(num * pow2((w - e) as nat) == num * (pow2(fb.len()) * pow2(zeros.len())));
    assert(num * (pow2(fb.len()) * pow2(zeros.len())) == (num * pow2(fb.len())) * pow2(
        zeros.len(),
    )) by (nonlinear_arith);
    assert((bits_val(fb) * den) * pow2(zeros.len()) == (bits_val(fb) * pow2(zeros.len())) * den)
        by (nonlinear_arith);
}

/// The 32-bit round trip: decoding an encoded, exactly representable
/// normal 32-bit value returns its parts unchanged.
pub proof fn lemma_round_trip_32(sign: u8, ival: nat, fdigits: Seq<u8>)
    requires
        sign <= 1,
        is_digit_seq(fdigits),
        1 <= ival,
        2 <= ival || digits_val(fdigits) > 0,
        frac_rem(digits_val(fdigits), pow10(fdigits.len()), 24) == 0,
        mantissa_pre(ival, fdigits, 23).len() <= 23,
    ensures
        ({
            let b = encode_bits(sign, ival, fdigits, 23, 127, 32);
            let ex = b.subrange(1, 9);
            let mant = b.skip(9);
            let e = bits_of(ival).len() - 1;
            &&& b.len() == 32
            &&& is_bit_seq(b)
            &&& b[0] == sign
            &&& !all_ones(ex)
            &&& bits_val(ex) - 127 == e
            &&& e == 0 ==> !all_zeros(mant)
            &&& decoded_integer(mant, e) == ival
            &&& digits_val(fdigits) * pow2((23 - e) as nat) == bits_val(mant.skip(e)) * pow10(
                fdigits.len(),
            )
        }),
{
    assert(bits_of(ival).len() >= 1) by {
        lemma_bits_of_val(ival);
    }
    assert(bits_of(ival).len() - 1 <= 23) by {
        assert(mantissa_pre(ival, fdigits, 23).len() >= bits_of(ival).skip(1).len());
    }
    assert(exp_value(ival, 127) < pow2(8) - 1) by {
        vstd::arithmetic::power2::lemma2_to64();
    }
    lemma_encode_then_decode(sign, ival, fdigits, 23, 8, 127);
}

/// The 64-bit round trip: decoding an encoded, exactly representable
/// normal 64-bit value returns its parts unchanged.
pub proof fn lemma_round_trip_64(sign: u8, ival: nat, fdigits: Seq<u8>)
    requires
        sign <= 1,
        is_digit_seq(fdigits),
        1 <= ival,
        2 <= ival || digits_val(fdigits) > 0,
        frac_rem(digits_val(fdigits), pow10(fdigits.len()), 53) == 0,
        mantissa_pre(ival, fdigits, 52).len() <= 52,
    ensures
        ({
            let b = encode_bits(sign, ival, fdigits, 52, 1023, 64);
            let ex = b.subrange(1, 12);
            let mant = b.skip(12);
            let e = bits_of(ival).len() - 1;
            &&& b.len() == 64
            &&& is_bit_seq(b)
            &&& b[0] == sign
            &&& !all_ones(ex)
            &&& bits_val(ex) - 1023 == e
            &&& e == 0 ==> !all_zeros(mant)
            &&& decoded_integer(mant, e) == ival
            &&& digits_val(fdigits) * pow2((52 - e) as nat) == bits_val(mant.skip(e)) * pow10(
                fdigits.len(),
            )
        }),
{
    assert(bits_of(ival).len() >= 1) by {
        lemma_bits_of_val(ival);
    }
    assert(bits_of(ival).len() - 1 <= 52) by {
        assert(mantissa_pre(ival, fdigits, 52).len() >= bits_of(ival).skip(1).len());
    }
    assert(exp_value(ival, 1023) < pow2(11) - 1) by {
        vstd::arithmetic::power2::lemma2_to64();
    }
    lemma_encode_then_decode(sign, ival, fdigits, 52, 11, 1023);
}

} // verus!
