//! The rounding engine for mantissa buffers and the splitter that takes a
//! number's decimal text apart into sign, integer part and fraction digits.

use vstd::prelude::*;
use vstd::string::*;
use crate::model::{
    all_ones, all_zeros, bits_val, digits_val, inc_bits, is_bit_seq, is_digit_seq,
    lemma_digits_val_append, lemma_digits_val_zero, lemma_inc_bits, lemma_inc_bits_form, pow10,
};

verus! {

/// Whether the rounding engine rounds the first `length` bits of `input` up:
/// the guard bit asks for it, and either the round bit, a sticky bit, or the
/// last retained bit confirms it.
pub open spec fn round_up_needed(input: Seq<u8>, length: int) -> bool {
    let guard = if input.len() > length {
        input[length]
    } else {
        0u8
    };
    let round = if input.len() > length + 1 {
        input[length + 1]
    } else {
        0u8
    };
    let sticky_one = exists|j: int| length + 2 <= j < input.len() && input[j] == 1;
    guard == 1 && (round == 1 || sticky_one || (length > 0 && input[length - 1] == 1))
}

pub open spec fn is_digit_char(c: char) -> bool {
    48 <= c as u32 && c as u32 <= 57
}

/// The value of a decimal digit character.
pub open spec fn char_digit(c: char) -> u8 {
    ((c as u32) - 48) as u8
}

pub open spec fn all_digit_chars(s: Seq<char>) -> bool {
    forall|i: int| 0 <= i < s.len() ==> is_digit_char(s[i])
}

/// Value of a digit-character sequence read as an unsigned decimal integer.
pub open spec fn chars_val(s: Seq<char>) -> nat
    decreases s.len(),
{
    if s.len() == 0 {
        0
    } else {
        (chars_val(s.drop_last()) * 10 + char_digit(s.last())) as nat
    }
}

pub open spec fn digits_of_chars(s: Seq<char>) -> Seq<u8> {
    Seq::new(s.len(), |i: int| char_digit(s[i]))
}

pub open spec fn has_negative_sign(s: Seq<char>) -> bool {
    s.len() > 0 && s[0] == '-'
}

/// The sign flag the splitter reports: one for a leading minus.
pub open spec fn text_sign(s: Seq<char>) -> u8 {
    if has_negative_sign(s) {
        1u8
    } else {
        0u8
    }
}

pub open spec fn unsigned_text(s: Seq<char>) -> Seq<char> {
    if has_negative_sign(s) {
        s.skip(1)
    } else {
        s
    }
}

/// Index of the first radix point, or the length where there is none.
pub open spec fn dot_pos(u: Seq<char>) -> int
    decreases u.len(),
{
    if u.len() == 0 {
        0
    } else if u[0] == '.' {
        0
    } else {
        1 + dot_pos(u.skip(1))
    }
}

/// The characters before the radix point, sign stripped.
pub open spec fn int_chars(s: Seq<char>) -> Seq<char> {
    unsigned_text(s).take(dot_pos(unsigned_text(s)))
}

/// The characters after the radix point, sign stripped; empty without one.
pub open spec fn frac_chars(s: Seq<char>) -> Seq<char> {
    let u = unsigned_text(s);
    if dot_pos(u) < u.len() {
        u.skip(dot_pos(u) + 1)
    } else {
        Seq::empty()
    }
}

/// Decimal text the splitter accepts: an optional minus, a non-empty run of
/// digits, and optionally a radix point followed by digits only.
pub open spec fn valid_decimal_text(s: Seq<char>) -> bool {
    int_chars(s).len() > 0 && all_digit_chars(int_chars(s)) && all_digit_chars(frac_chars(s))
}

pub proof fn lemma_dot_pos(u: Seq<char>)
    ensures
        0 <= dot_pos(u) <= u.len(),
        forall|j: int| 0 <= j < dot_pos(u) ==> u[j] != '.',
        dot_pos(u) < u.len() ==> u[dot_pos(u)] == '.',
    decreases u.len(),
{
    if u.len() > 0 && u[0] != '.' {
        let t = u.skip(1);
        lemma_dot_pos(t);
        assert forall|j: int| 0 <= j < dot_pos(u) implies u[j] != '.' by {
            if j > 0 {
                assert(t[j - 1] == u[j]);
                assert(t[j - 1] != '.');
            }
        }
    }
}

pub proof fn lemma_dot_pos_unique(u: Seq<char>, p: int)
    requires
        0 <= p <= u.len(),
        p == u.len() || u[p] == '.',
        forall|j: int| 0 <= j < p ==> u[j] != '.',
    ensures
        dot_pos(u) == p,
    decreases u.len(),
{
    if u.len() == 0 {
    } else if p == 0 {
    } else {
        assert(u[0] != '.');
        let t = u.skip(1);
        assert(forall|j: int| 0 <= j < t.len() ==> t[j] == u[j + 1]);
        lemma_dot_pos_unique(t, p - 1);
    }
}

/// A digit run's value only grows as more digits are appended.
pub proof fn lemma_chars_val_prefix(s: Seq<char>, k: int)
    requires
        0 <= k <= s.len(),
    ensures
        chars_val(s.take(k)) <= chars_val(s),
    decreases s.len(),
{
    if k < s.len() {
        assert(s.take(k) =~= s.drop_last().take(k));
        lemma_chars_val_prefix(s.drop_last(), k);
        assert(chars_val(s.drop_last()) * 10 >= chars_val(s.drop_last()) * 1);
    } else {
        assert(s.take(k) =~= s);
    }
}

/// Digit characters turn into digit values.
pub proof fn lemma_digits_of_chars(s: Seq<char>)
    requires
        all_digit_chars(s),
    ensures
        is_digit_seq(digits_of_chars(s)),
{
}

/// Parses signed decimal text into a sign flag, the integer part's value
/// and the fraction's digits, refusing an integer part above `max`.
fn split_decimal_text(input: &str, max: u64) -> (r: Result<(u8, u64, Vec<u8>), String>)
    requires
        max >= 9,
    ensures
        !valid_decimal_text(input@) ==> (r matches Err(m) && m@ == "invalid decimal text"@),
        valid_decimal_text(input@) && chars_val(int_chars(input@)) > max ==> (r matches Err(m)
            && m@ == "integer part out of range"@),
        valid_decimal_text(input@) && chars_val(int_chars(input@)) <= max ==> (r matches Ok(t)
            && t.0 == text_sign(input@) && t.1 == chars_val(int_chars(input@)) && t.2@
            == digits_of_chars(frac_chars(input@))),
{
    let n = input.unicode_len();
    let off: usize = if n > 0 && input.get_char(0) == '-' {
        1
    } else {
        0
    };
    let ghost u = unsigned_text(input@);
    proof {
        assert(u.len() == n - off);
        assert(forall|j: int| 0 <= j < u.len() ==> u[j] == input@[j + off]);
        lemma_dot_pos(u);
    }
    // First pass: find the radix point and refuse any stray character.
    let mut seen_dot = false;
    let mut p: usize = n;  // index of the radix point, n for none
    let mut k: usize = off;
    while k < n
        invariant
            off <= k <= n,
            off <= 1,
            n == input@.len(),
            u == unsigned_text(input@),
            u.len() == n - off,
            forall|j: int| 0 <= j < u.len() ==> u[j] == input@[j + off],
            !seen_dot ==> p == n && (forall|j: int| 0 <= j < k - off ==> u[j] != '.'),
            !seen_dot ==> (forall|j: int| 0 <= j < k - off ==> is_digit_char(u[j])),
            seen_dot ==> off < p < k && u[p - off] == '.' && dot_pos(u) == p - off,
            seen_dot ==> (forall|j: int| 0 <= j < p - off ==> is_digit_char(u[j])),
            seen_dot ==> (forall|j: int| p - off < j < k - off ==> is_digit_char(u[j])),
        decreases n - k,
    {
        let c = input.get_char(k);
        let cv = c as u32;
        if c == '.' {
            if seen_dot {
                // a second radix point lands among the fraction's characters
                proof {
                    let fc = frac_chars(input@);
                    assert(fc.len() == u.len() - (p - off) - 1);
                    assert(0 <= k - p - 1 < fc.len());
                    assert(fc[k - p - 1] == u[k - off]);
                    assert(!is_digit_char(fc[k - p - 1]));
                    assert(!all_digit_chars(fc));
                    assert(!valid_decimal_text(input@));
                }
                return Err(String::from_str("invalid decimal text"));
            }
            if k == off {
                // the integer part would be empty
                proof {
                    assert(u[0] == '.');
                    lemma_dot_pos_unique(u, 0);
                    assert(int_chars(input@).len() == 0);
                    assert(!valid_decimal_text(input@));
                }
                return Err(String::from_str("invalid decimal text"));
            }
            seen_dot = true;
            p = k;
            proof {
                lemma_dot_pos_unique(u, p - off);
            }
        } else if 48 <= cv && cv <= 57 {
            assert(is_digit_char(u[k - off]));
        } else {
            proof {
                lemma_dot_pos(u);
                assert(u[k - off] != '.' && !is_digit_char(u[k - off]));
                if seen_dot {
                    let fc = frac_chars(input@);
                    assert(fc.len() == u.len() - (p - off) - 1);
                    assert(0 <= k - p - 1 < fc.len());
                    assert(fc[k - p - 1] == u[k - off]);
                    assert(!is_digit_char(fc[k - p - 1]));
                    assert(!all_digit_chars(fc));
                } else {
                    // no radix point so far, so this character belongs to
                    // the integer part
                    if dot_pos(u) <= k - off {
                        if dot_pos(u) < u.len() {
                            assert(u[dot_pos(u)] == '.');
                        }
                        assert(false);
                    }
                    assert(int_chars(input@)[k - off] == u[k - off]);
                    assert(!all_digit_chars(int_chars(input@)));
                }
                assert(!valid_decimal_text(input@));
            }
            return Err(String::from_str("invalid decimal text"));
        }
        k = k + 1;
    }
    proof {
        if !seen_dot {
            lemma_dot_pos_unique(u, u.len() as int);
        }
    }
    let ghost dp = dot_pos(u);
    if n == off {
        // nothing after the sign: the integer part is empty
        proof {
            assert(u.len() == 0);
            assert(int_chars(input@).len() == 0);
            assert(!valid_decimal_text(input@));
        }
        return Err(String::from_str("invalid decimal text"));
    }
    let int_end: usize = if seen_dot {
        p
    } else {
        n
    };
    proof {
        assert(dp == int_end - off);
        assert(int_chars(input@) =~= u.take(dp));
        assert(int_chars(input@).len() > 0);
        assert(all_digit_chars(int_chars(input@)));
        if seen_dot {
            assert(frac_chars(input@) =~= u.skip(dp + 1));
        } else {
            assert(frac_chars(input@) =~= Seq::<char>::empty());
        }
        assert(all_digit_chars(frac_chars(input@)));
        assert(valid_decimal_text(input@));
    }
    let ghost ic = int_chars(input@);
    // Second pass: accumulate the integer part, watching the bound.
    let mut acc: u64 = 0;
    k = off;
    while k < int_end
        invariant
            off <= k <= int_end,
            off <= 1,
            int_end <= n,
            n == input@.len(),
            max >= 9,
            u == unsigned_text(input@),
            ic == int_chars(input@),
            u.len() == n - off,
            ic.len() == int_end - off,
            forall|j: int| 0 <= j < u.len() ==> u[j] == input@[j + off],
            forall|j: int| 0 <= j < ic.len() ==> ic[j] == u[j],
            all_digit_chars(ic),
            valid_decimal_text(input@),
            acc == chars_val(ic.take(k - off)),
            acc <= max,
        decreases int_end - k,
    {
        let c = input.get_char(k);
        let cv = c as u32;
        assert(is_digit_char(ic[k - off]));
        let d = (cv - 48) as u8;
        assert(d == char_digit(ic[k - off]));
        assert(d <= 9);
        proof {
            assert(ic.take(k - off + 1).drop_last() =~= ic.take(k - off));
            assert(ic.take(k - off + 1).last() == ic[k - off]);
            assert(chars_val(ic.take(k - off + 1)) == acc * 10 + d);
        }
        if acc > (max - d as u64) / 10 {
            proof {
                assert(acc * 10 + d > max) by (nonlinear_arith)
                    requires
                        acc > (max - d as u64) / 10,
                        d <= 9,
                        d <= max,
                ;
                lemma_chars_val_prefix(ic, k - off + 1);
                assert(ic.take(ic.len() as int) =~= ic);
                assert(chars_val(ic) > max);
            }
            return Err(String::from_str("integer part out of range"));
        }
        proof {
            assert(acc * 10 + d <= max) by (nonlinear_arith)
                requires
                    acc <= (max - d as u64) / 10,
                    d <= 9,
                    d <= max,
            ;
        }
        acc = acc * 10 + d as u64;
        k = k + 1;
    }
    proof {
        assert(ic.take(ic.len() as int) =~= ic);
        assert(acc == chars_val(ic));
    }
    // Third pass: collect the fraction's digits.
    let mut frac: Vec<u8> = Vec::new();
    let ghost fc = frac_chars(input@);
    if seen_dot {
        k = p + 1;
        while k < n
            invariant
                p + 1 <= k <= n,
                off <= 1,
                off <= p,
                n == input@.len(),
                u == unsigned_text(input@),
                fc == frac_chars(input@),
                u.len() == n - off,
                dot_pos(u) == p - off,
                p - off < u.len(),
                fc.len() == n - p - 1,
                forall|j: int| 0 <= j < u.len() ==> u[j] == input@[j + off],
                forall|j: int| 0 <= j < fc.len() ==> fc[j] == u[j + p - off + 1],
                all_digit_chars(fc),
                frac@ == digits_of_chars(fc).take(k - p - 1),
            decreases n - k,
        {
            let c = input.get_char(k);
            let cv = c as u32;
            assert(fc[k - p - 1] == u[k - off]);
            assert(is_digit_char(fc[k - p - 1]));
            let d = (cv - 48) as u8;
            frac.push(d);
            assert(frac@ =~= digits_of_chars(fc).take(k - p));
            k = k + 1;
        }
    }
    assert(frac@ =~= digits_of_chars(fc));
    let sign: u8 = if off == 1 {
        1
    } else {
        0
    };
    assert(sign == text_sign(input@));
    Ok((sign, acc, frac))
}

pub struct ComputeMantissaBits;

impl ComputeMantissaBits {
    /// Adds one to the bit pattern, flipping the trailing ones to zero and
    /// the rightmost zero to one; an all-ones pattern cannot absorb the
    /// carry and is reported as overflow.
    pub fn round_up(bits: &mut Vec<u8>) -> (r: Result<Vec<u8>, String>)
        requires
            is_bit_seq(old(bits)@),
        ensures
            old(bits)@.len() == 0 ==> (r matches Err(m) && m@
                == "unable to round up, no bit to compare"@ && final(bits)@ == old(bits)@),
            old(bits)@.len() > 0 && all_ones(old(bits)@) ==> (r matches Err(m) && m@
                == "unable to round up, overflow"@ && final(bits)@.len() == old(bits)@.len()
                && all_zeros(final(bits)@)),
            old(bits)@.len() > 0 && !all_ones(old(bits)@) ==> (r matches Ok(v) && v@ == inc_bits(
                old(bits)@,
            ) && final(bits)@ == inc_bits(old(bits)@) && v@.len() == old(bits)@.len() && is_bit_seq(
                v@,
            ) && bits_val(v@) == bits_val(old(bits)@) + 1),
    {
        let n = bits.len();
        if n == 0 {
            return Err(String::from_str("unable to round up, no bit to compare"));
        }
        let ghost orig = bits@;
        let mut i: usize = n;
        while i > 0 && bits[i - 1] == 1
            invariant
                i <= n,
                n == bits@.len(),
                n == orig.len(),
                is_bit_seq(orig),
                forall|j: int| 0 <= j < i ==> bits@[j] == orig[j],
                forall|j: int| i <= j < n ==> bits@[j] == 0,
                forall|j: int| i <= j < n ==> orig[j] == 1,
            decreases i,
        {
            let ghost before = bits@;
            assert(before[i - 1] == orig[i - 1]);
            bits.set(i - 1, 0);
            assert(bits@ == before.update(i - 1, 0u8));
            i = i - 1;
        }
        if i == 0 {
            assert(forall|j: int| 0 <= j < n ==> orig[j] == 1);
            assert(forall|j: int| 0 <= j < n ==> bits@[j] == 0);
            assert(all_ones(orig));
            assert(all_zeros(bits@));
            return Err(String::from_str("unable to round up, overflow"));
        }
        assert(orig[i - 1] == 0);
        bits.set(i - 1, 1);
        proof {
            let k = i - 1;
            assert(!all_ones(orig));
            lemma_inc_bits_form(orig, k);
            let want = Seq::new(
                orig.len(),
                |j: int| if j < k { orig[j] } else if j == k { 1u8 } else { 0u8 },
            );
            assert forall|j: int| 0 <= j < n implies bits@[j] == want[j] by {
                if j < k {
                    assert(bits@[j] == orig[j]);
                } else if j == k {
                } else {
                    assert(bits@[j] == 0);
                }
            }
            assert(bits@ =~= want);
            assert(bits@ =~= inc_bits(orig));
            lemma_inc_bits(orig);
        }
        Ok(bits.clone())
    }

    /// Trims the mantissa buffer to `length` bits, rounding up when the
    /// guard, round and sticky bits beyond the retained part call for it.
    pub fn compute(input: Vec<u8>, length: usize) -> (r: Result<Vec<u8>, String>)
        requires
            is_bit_seq(input@),
            input@.len() >= length,
        ensures
            !round_up_needed(input@, length as int) ==> (r matches Ok(v) && v@ == input@.take(
                length as int,
            )),
            round_up_needed(input@, length as int) && length > 0 && all_ones(
                input@.take(length as int),
            ) ==> (r matches Err(m) && m@ == "unable to round up, overflow"@),
            round_up_needed(input@, length as int) && length == 0 ==> (r matches Err(m) && m@
                == "unable to round up, no bit to compare"@),
            round_up_needed(input@, length as int) && !all_ones(input@.take(length as int))
                && length > 0 ==> (r matches Ok(v) && v@ == inc_bits(input@.take(length as int))),
    {
        let mut bits: Vec<u8> = Vec::new();
        let mut k: usize = 0;
        while k < length
            invariant
                k <= length,
                length <= input@.len(),
                is_bit_seq(input@),
                bits@ == input@.take(k as int),
            decreases length - k,
        {
            bits.push(input[k]);
            assert(bits@ =~= input@.take(k + 1));
            k = k + 1;
        }
        let guard_bit: u8 = if input.len() > length {
            input[length]
        } else {
            0
        };
        let round_bit: u8 = if input.len() > length && input.len() - length > 1 {
            input[length + 1]
        } else {
            0
        };
        let mut sticky_one = false;
        if input.len() > length && input.len() - length > 2 {
            let mut j: usize = length + 2;
            while j < input.len()
                invariant
                    length + 2 <= j <= input@.len(),
                    sticky_one == exists|t: int| length + 2 <= t < j && input@[t] == 1,
                decreases input@.len() - j,
            {
                if input[j] == 1 {
                    sticky_one = true;
                }
                j = j + 1;
            }
        }
        assert(sticky_one == exists|t: int| length + 2 <= t < input@.len() && input@[t] == 1);
        let mut is_round_up = false;
        if guard_bit == 1 {
            if round_bit == 1 {
                is_round_up = true;
            } else {
                if sticky_one {
                    is_round_up = true;
                } else {
                    if bits.len() > 0 && bits[bits.len() - 1] == 1 {
                        is_round_up = true;
                    }
                }
            }
        }
        assert(is_round_up == round_up_needed(input@, length as int));
        if is_round_up {
            match Self::round_up(&mut bits) {
                Ok(v) => Ok(v),
                Err(e) => Err(e),
            }
        } else {
            Ok(bits)
        }
    }
}

/// Splits a number's decimal text into sign, integer magnitude and
/// fraction digits, one entry point per float format.
pub struct SplitFloat;

impl SplitFloat {
    /// Splits text rendered from a 32-bit float: the integer part must fit
    /// in a `u32`.
    pub fn split_32(input: &str) -> (r: Result<(u8, u32, Vec<u8>), String>)
        ensures
            !valid_decimal_text(input@) ==> (r matches Err(m) && m@ == "invalid decimal text"@),
            valid_decimal_text(input@) && chars_val(int_chars(input@)) > u32::MAX ==> (
            r matches Err(m) && m@ == "integer part out of range"@),
            valid_decimal_text(input@) && chars_val(int_chars(input@)) <= u32::MAX ==> (
            r matches Ok(t) && t.0 == text_sign(input@) && t.1 == chars_val(int_chars(input@))
                && t.2@ == digits_of_chars(frac_chars(input@)) && is_digit_seq(t.2@)),
    {
        match split_decimal_text(input, 0xffff_ffff) {
            Ok((sign, ivalue, frac)) => Ok((sign, ivalue as u32, frac)),
            Err(m) => Err(m),
        }
    }

    /// Splits text rendered from a 64-bit float: the integer part must fit
    /// in a `u64`.
    pub fn split_64(input: &str) -> (r: Result<(u8, u64, Vec<u8>), String>)
        ensures
            !valid_decimal_text(input@) ==> (r matches Err(m) && m@ == "invalid decimal text"@),
            valid_decimal_text(input@) && chars_val(int_chars(input@)) > u64::MAX ==> (
            r matches Err(m) && m@ == "integer part out of range"@),
            valid_decimal_text(input@) && chars_val(int_chars(input@)) <= u64::MAX ==> (
            r matches Ok(t) && t.0 == text_sign(input@) && t.1 == chars_val(int_chars(input@))
                && t.2@ == digits_of_chars(frac_chars(input@)) && is_digit_seq(t.2@)),
    {
        match split_decimal_text(input, u64::MAX) {
            Ok(t) => Ok(t),
            Err(m) => Err(m),
        }
    }
}

/// Whether every digit is zero, which is when the digit run's value is zero.
pub(crate) fn digits_all_zero(digits: &Vec<u8>) -> (r: bool)
    requires
        is_digit_seq(digits@),
    ensures
        r == (digits_val(digits@) == 0),
{
    let mut i: usize = 0;
    let mut zeros = true;
    while i < digits.len()
        invariant
            i <= digits@.len(),
            zeros == (forall|j: int| 0 <= j < i ==> digits@[j] == 0),
        decreases digits@.len() - i,
    {
        if digits[i] != 0 {
            zeros = false;
        }
        i = i + 1;
    }
    proof {
        lemma_digits_val_zero(digits@);
    }
    zeros
}

/// Doubles the decimal fraction the digits spell, in place, and returns the
/// unit digit that carries out: twice the old value is the carry scaled by
/// ten to the number of digits, plus the new value.
pub(crate) fn double_digits(digits: &mut Vec<u8>) -> (carry: u8)
    requires
        is_digit_seq(old(digits)@),
    ensures
        final(digits)@.len() == old(digits)@.len(),
        is_digit_seq(final(digits)@),
        carry <= 1,
        carry * pow10(old(digits)@.len()) + digits_val(final(digits)@) == 2 * digits_val(
            old(digits)@,
        ),
{
    let ghost orig = digits@;
    let n = digits.len();
    let mut carry: u8 = 0;
    let mut j: usize = n;
    while j > 0
        invariant
            j <= n,
            n == digits@.len(),
            n == orig.len(),
            is_digit_seq(orig),
            is_digit_seq(digits@),
            carry <= 1,
            forall|t: int| 0 <= t < j ==> digits@[t] == orig[t],
            carry * pow10((n - j) as nat) + digits_val(digits@.skip(j as int)) == 2 * digits_val(
                orig.skip(j as int),
            ),
        decreases j,
    {
        let d: u8 = digits[j - 1];
        let doubled: u8 = d * 2 + carry;
        let new_digit: u8 = doubled % 10;
        let new_carry: u8 = doubled / 10;
        let ghost before = digits@;
        digits.set(j - 1, new_digit);
        proof {
            let k = j - 1;
            let p = pow10((n - j) as nat);
            assert(digits@ =~= before.update(k as int, new_digit));
            assert(digits@.skip(k as int) =~= seq![new_digit] + before.skip(j as int));
            assert(orig.skip(k as int) =~= seq![orig[k as int]] + orig.skip(j as int));
            lemma_digits_val_append(seq![new_digit], before.skip(j as int));
            lemma_digits_val_append(seq![orig[k as int]], orig.skip(j as int));
            assert(digits_val(seq![new_digit]) == new_digit) by {
                let sd = seq![new_digit];
                assert(sd.drop_last() =~= Seq::<u8>::empty());
                assert(digits_val(sd.drop_last()) == 0);
                assert(sd.last() == new_digit);
                assert(digits_val(sd) == (digits_val(sd.drop_last()) * 10 + sd.last()) as nat);
            }
            assert(digits_val(seq![orig[k as int]]) == orig[k as int]) by {
                let sd = seq![orig[k as int]];
                assert(sd.drop_last() =~= Seq::<u8>::empty());
                assert(digits_val(sd.drop_last()) == 0);
                assert(sd.last() == orig[k as int]);
                assert(digits_val(sd) == (digits_val(sd.drop_last()) * 10 + sd.last()) as nat);
            }
            assert(pow10((n - k) as nat) == 10 * p);
            // fold the processed digit into the carry identity
            assert(2 * digits_val(orig.skip(k as int)) == 2 * (d * p) + 2 * digits_val(
                orig.skip(j as int),
            )) by (nonlinear_arith)
                requires
                    digits_val(orig.skip(k as int)) == (orig[k as int]) * p + digits_val(
                        orig.skip(j as int),
                    ),
                    orig[k as int] == d,
            ;
            assert(2 * digits_val(orig.skip(j as int)) == carry * p + digits_val(
                before.skip(j as int),
            ));
            assert(doubled == new_carry * 10 + new_digit);
            assert(digits_val(digits@.skip(k as int)) == new_digit * p + digits_val(
                before.skip(j as int),
            ));
            assert(new_carry * (10 * p) + new_digit * p + digits_val(before.skip(j as int)) == (
            new_carry * 10 + new_digit) * p + digits_val(before.skip(j as int)))
                by (nonlinear_arith);
            assert((2 * d + carry) * p == 2 * (d * p) + carry * p) by (nonlinear_arith);
            assert(new_carry * pow10((n - k) as nat) + digits_val(digits@.skip(k as int)) == 2
                * digits_val(orig.skip(k as int)));
        }
        carry = new_carry;
        j = j - 1;
    }
    proof {
        assert(digits@.skip(0) =~= digits@);
        assert(orig.skip(0) =~= orig);
    }
    carry
}

} // verus!
