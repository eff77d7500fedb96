//! The mathematical model: values of bit and digit sequences, minimal binary
//! representations, and the binary expansion of a decimal fraction.

use vstd::prelude::*;
use vstd::arithmetic::power2::pow2;
use vstd::arithmetic::power::pow;

verus! {

/// Every element is a single binary digit.
pub open spec fn is_bit_seq(s: Seq<u8>) -> bool {
    forall|i: int| 0 <= i < s.len() ==> s[i] == 0 || s[i] == 1
}

/// Every element is a single decimal digit.
pub open spec fn is_digit_seq(s: Seq<u8>) -> bool {
    forall|i: int| 0 <= i < s.len() ==> s[i] < 10
}

/// Value of a bit sequence read as an unsigned binary integer,
/// most-significant bit first.
pub open spec fn bits_val(s: Seq<u8>) -> nat
    decreases s.len(),
{
    if s.len() == 0 {
        0
    } else {
        (bits_val(s.drop_last()) * 2 + s.last()) as nat
    }
}

/// Value of a digit sequence read as an unsigned decimal integer,
/// most-significant digit first.
pub open spec fn digits_val(s: Seq<u8>) -> nat
    decreases s.len(),
{
    if s.len() == 0 {
        0
    } else {
        (digits_val(s.drop_last()) * 10 + s.last()) as nat
    }
}

pub open spec fn pow10(n: nat) -> nat
    decreases n,
{
    if n == 0 {
        1
    } else {
        10 * pow10((n - 1) as nat)
    }
}

/// The minimal big-endian binary representation of `n`: empty for zero,
/// otherwise starting with a 1 bit.
pub open spec fn bits_of(n: nat) -> Seq<u8>
    decreases n,
{
    if n == 0 {
        Seq::empty()
    } else {
        bits_of(n / 2).push((n % 2) as u8)
    }
}

/// The fixed-width big-endian binary representation of `n`.
pub open spec fn bits_of_width(n: nat, w: nat) -> Seq<u8> {
    Seq::new(w, |i: int| ((n / pow2((w - 1 - i) as nat)) % 2) as u8)
}

pub proof fn lemma_pow2_zero()
    ensures
        pow2(0) == 1,
{
    vstd::arithmetic::power2::lemma_pow2(0);
    vstd::arithmetic::power::lemma_pow0(2);
}

pub proof fn lemma_bits_val_bound(s: Seq<u8>)
    requires
        is_bit_seq(s),
    ensures
        bits_val(s) < pow2(s.len()),
    decreases s.len(),
{
    if s.len() == 0 {
        lemma_pow2_zero();
    } else {
        vstd::arithmetic::power2::lemma_pow2_unfold(s.len());
        lemma_bits_val_bound(s.drop_last());
    }
}

pub proof fn lemma_bits_val_append(a: Seq<u8>, b: Seq<u8>)
    ensures
        bits_val(a + b) == bits_val(a) * pow2(b.len()) + bits_val(b),
    decreases b.len(),
{
    if b.len() == 0 {
        assert(a + b =~= a);
        lemma_pow2_zero();
        assert(bits_val(b) == 0);
        assert(pow2(b.len()) == 1);
        assert(bits_val(a) * pow2(b.len()) == bits_val(a)) by (nonlinear_arith)
            requires
                pow2(b.len()) == 1,
        ;
        assert(bits_val(a + b) == bits_val(a) * pow2(b.len()) + bits_val(b));
    } else {
        lemma_bits_val_append(a, b.drop_last());
        assert((a + b).drop_last() =~= a + b.drop_last());
        assert((a + b).len() == a.len() + b.len());
        assert((a + b).last() == b.last());
        vstd::arithmetic::power2::lemma_pow2_unfold(b.len());
        let va = bits_val(a);
        let vd = bits_val(b.drop_last());
        let p1 = pow2((b.len() - 1) as nat);
        assert(bits_val(a + b) == (va * p1 + vd) * 2 + b.last());
        assert(pow2(b.len()) == 2 * p1);
        assert((va * p1 + vd) * 2 == va * (2 * p1) + vd * 2) by (nonlinear_arith);
        assert(va * pow2(b.len()) == va * (2 * p1));
        assert(bits_val(b) == vd * 2 + b.last());
    }
}

pub proof fn lemma_bits_val_zeros(s: Seq<u8>)
    requires
        forall|i: int| 0 <= i < s.len() ==> s[i] == 0,
    ensures
        bits_val(s) == 0,
    decreases s.len(),
{
    if s.len() > 0 {
        lemma_bits_val_zeros(s.drop_last());
    }
}

/// The minimal representation reproduces the value it was taken from.
pub proof fn lemma_bits_of_val(n: nat)
    ensures
        bits_val(bits_of(n)) == n,
        is_bit_seq(bits_of(n)),
    decreases n,
{
    if n > 0 {
        lemma_bits_of_val(n / 2);
        assert(bits_of(n).drop_last() =~= bits_of(n / 2));
    }
}

/// The minimal representation of a positive number starts with a 1 bit.
pub proof fn lemma_bits_of_leading_one(n: nat)
    requires
        n > 0,
    ensures
        bits_of(n).len() > 0,
        bits_of(n)[0] == 1,
    decreases n,
{
    if n / 2 > 0 {
        lemma_bits_of_leading_one(n / 2);
    } else {
        assert(bits_of(n / 2) =~= Seq::<u8>::empty());
        assert(n == 1);
    }
}

/// `bits_of(n)` has at most `w` bits exactly when `n < pow2(w)`.
pub proof fn lemma_bits_of_len(n: nat, w: nat)
    ensures
        bits_of(n).len() <= w <==> n < pow2(w),
    decreases w,
{
    if w == 0 {
        lemma_pow2_zero();
        if n > 0 {
            assert(bits_of(n).len() > 0);
        }
    } else {
        vstd::arithmetic::power2::lemma_pow2_unfold(w);
        lemma_bits_of_len(n / 2, (w - 1) as nat);
        if n == 0 {
            vstd::arithmetic::power2::lemma_pow2_pos(w);
        } else {
            assert(bits_of(n).len() == bits_of(n / 2).len() + 1);
            assert(n / 2 < pow2((w - 1) as nat) <==> n < pow2(w));
        }
    }
}

pub open spec fn all_ones(s: Seq<u8>) -> bool {
    forall|i: int| 0 <= i < s.len() ==> s[i] == 1
}

pub open spec fn all_zeros(s: Seq<u8>) -> bool {
    forall|i: int| 0 <= i < s.len() ==> s[i] == 0
}

pub proof fn lemma_bits_val_ones(s: Seq<u8>)
    requires
        all_ones(s),
    ensures
        bits_val(s) == pow2(s.len()) - 1,
    decreases s.len(),
{
    if s.len() == 0 {
        lemma_pow2_zero();
    } else {
        vstd::arithmetic::power2::lemma_pow2_unfold(s.len());
        lemma_bits_val_ones(s.drop_last());
    }
}

/// The successor of a bit pattern: trailing ones turn to zeros and the
/// rightmost zero turns to one.  On an all-ones pattern every bit is cleared.
pub open spec fn inc_bits(s: Seq<u8>) -> Seq<u8>
    decreases s.len(),
{
    if s.len() == 0 {
        s
    } else if s.last() == 0 {
        s.drop_last().push(1)
    } else {
        inc_bits(s.drop_last()).push(0)
    }
}

pub proof fn lemma_inc_bits(s: Seq<u8>)
    requires
        is_bit_seq(s),
        !all_ones(s),
    ensures
        inc_bits(s).len() == s.len(),
        is_bit_seq(inc_bits(s)),
        bits_val(inc_bits(s)) == bits_val(s) + 1,
    decreases s.len(),
{
    if s.len() == 0 {
    } else if s.last() == 0 {
        assert(inc_bits(s) == s.drop_last().push(1));
        assert(inc_bits(s).drop_last() =~= s.drop_last());
    } else {
        let i = choose|i: int| 0 <= i < s.len() && s[i] != 1;
        assert(0 <= i < s.len() - 1);
        assert(s.drop_last()[i] != 1);
        lemma_inc_bits(s.drop_last());
        assert(inc_bits(s) == inc_bits(s.drop_last()).push(0));
        assert(inc_bits(s).drop_last() =~= inc_bits(s.drop_last()));
    }
}

/// Where the rightmost zero sits at position `k`, the successor keeps the
/// prefix, sets bit `k`, and clears everything after it.
pub proof fn lemma_inc_bits_form(s: Seq<u8>, k: int)
    requires
        is_bit_seq(s),
        0 <= k < s.len(),
        s[k] == 0,
        forall|j: int| k < j < s.len() ==> s[j] == 1,
    ensures
        inc_bits(s) =~= Seq::new(s.len(), |j: int| if j < k { s[j] } else if j == k { 1u8 } else { 0u8 }),
    decreases s.len(),
{
    if k == s.len() - 1 {
        assert(s.last() == 0);
    } else {
        assert(s.last() == 1);
        assert(s.drop_last()[k] == 0);
        lemma_inc_bits_form(s.drop_last(), k);
    }
}

/// Two bit sequences of one length and one value are the same sequence.
pub proof fn lemma_bits_val_injective(a: Seq<u8>, b: Seq<u8>)
    requires
        is_bit_seq(a),
        is_bit_seq(b),
        a.len() == b.len(),
        bits_val(a) == bits_val(b),
    ensures
        a =~= b,
    decreases a.len(),
{
    if a.len() > 0 {
        assert(bits_val(a) % 2 == a.last() && bits_val(a) / 2 == bits_val(a.drop_last()))
            by (nonlinear_arith)
            requires
                bits_val(a) == bits_val(a.drop_last()) * 2 + a.last(),
                a.last() == 0 || a.last() == 1,
        ;
        assert(bits_val(b) % 2 == b.last() && bits_val(b) / 2 == bits_val(b.drop_last()))
            by (nonlinear_arith)
            requires
                bits_val(b) == bits_val(b.drop_last()) * 2 + b.last(),
                b.last() == 0 || b.last() == 1,
        ;
        lemma_bits_val_injective(a.drop_last(), b.drop_last());
        assert(forall|i: int| 0 <= i < a.len() - 1 ==> a[i] == a.drop_last()[i] && b[i]
            == b.drop_last()[i]);
    }
}

/// `bits_of_width` renders the value it was built from.
pub proof fn lemma_bits_of_width_val(n: nat, w: nat)
    requires
        n < pow2(w),
    ensures
        bits_of_width(n, w).len() == w,
        is_bit_seq(bits_of_width(n, w)),
        bits_val(bits_of_width(n, w)) == n,
    decreases w,
{
    let s = bits_of_width(n, w);
    if w == 0 {
        lemma_pow2_zero();
        assert(s =~= Seq::<u8>::empty());
    } else {
        vstd::arithmetic::power2::lemma_pow2_unfold(w);
        lemma_bits_of_width_val(n / 2, (w - 1) as nat);
        assert(s.drop_last() =~= bits_of_width(n / 2, (w - 1) as nat)) by {
            assert forall|i: int| 0 <= i < w - 1 implies s[i] == bits_of_width(
                n / 2,
                (w - 1) as nat,
            )[i] by {
                let e = (w - 1 - i) as nat;
                vstd::arithmetic::power2::lemma_pow2_unfold(e);
                vstd::arithmetic::power2::lemma_pow2_pos((e - 1) as nat);
                vstd::arithmetic::div_mod::lemma_div_denominator(
                    n as int,
                    2,
                    pow2((e - 1) as nat) as int,
                );
            }
        }
        lemma_pow2_zero();
        assert(s.last() == (n / 1) % 2);
        assert(n / 1 == n) by (nonlinear_arith);
        assert(n / 2 * 2 + n % 2 == n) by (nonlinear_arith);
    }
}

/// A bit sequence is recovered from its value and width.
pub proof fn lemma_bits_of_width_inv(s: Seq<u8>)
    requires
        is_bit_seq(s),
    ensures
        bits_of_width(bits_val(s), s.len()) =~= s,
{
    lemma_bits_val_bound(s);
    lemma_bits_of_width_val(bits_val(s), s.len());
    lemma_bits_val_injective(bits_of_width(bits_val(s), s.len()), s);
}

pub proof fn lemma_digits_val_bound(s: Seq<u8>)
    requires
        is_digit_seq(s),
    ensures
        digits_val(s) < pow10(s.len()),
    decreases s.len(),
{
    if s.len() > 0 {
        lemma_digits_val_bound(s.drop_last());
    }
}

pub proof fn lemma_digits_val_append(a: Seq<u8>, b: Seq<u8>)
    ensures
        digits_val(a + b) == digits_val(a) * pow10(b.len()) + digits_val(b),
    decreases b.len(),
{
    if b.len() == 0 {
        assert(a + b =~= a);
        assert(digits_val(a) * pow10(0) == digits_val(a)) by (nonlinear_arith)
            requires
                pow10(0) == 1,
        ;
    } else {
        lemma_digits_val_append(a, b.drop_last());
        assert((a + b).drop_last() =~= a + b.drop_last());
        assert((a + b).last() == b.last());
        let va = digits_val(a);
        let vd = digits_val(b.drop_last());
        let p1 = pow10((b.len() - 1) as nat);
        assert(digits_val(a + b) == (va * p1 + vd) * 10 + b.last());
        assert(pow10(b.len()) == 10 * p1);
        assert((va * p1 + vd) * 10 == va * (10 * p1) + vd * 10) by (nonlinear_arith);
        assert(va * pow10(b.len()) == va * (10 * p1));
        assert(digits_val(b) == vd * 10 + b.last());
    }
}

pub proof fn lemma_pow10_pos(n: nat)
    ensures
        pow10(n) >= 1,
    decreases n,
{
    if n > 0 {
        lemma_pow10_pos((n - 1) as nat);
    }
}

/// The bit expansion of one byte value: eight bits for a value below 256,
/// the minimal representation for anything larger.
pub open spec fn byte_bits(v: nat) -> Seq<u8> {
    if v < 256 {
        bits_of_width(v, 8)
    } else {
        bits_of(v)
    }
}

/// The concatenated bit expansion of a run of byte values.
pub open spec fn bytes_bits(vs: Seq<u32>) -> Seq<u8>
    decreases vs.len(),
{
    if vs.len() == 0 {
        Seq::empty()
    } else {
        bytes_bits(vs.drop_last()) + byte_bits(vs.last() as nat)
    }
}

pub proof fn lemma_byte_bits(v: nat)
    ensures
        is_bit_seq(byte_bits(v)),
        byte_bits(v).len() >= 8,
        v < 256 ==> byte_bits(v).len() == 8,
        bits_val(byte_bits(v)) == v,
{
    if v < 256 {
        lemma_pow2_zero();
        lemma_bits_of_len(v, 8);
        assert(pow2(8) == 256) by {
            vstd::arithmetic::power2::lemma2_to64();
        }
        lemma_bits_of_width_val(v, 8);
    } else {
        lemma_bits_of_val(v);
        lemma_bits_of_len(v, 8);
        assert(pow2(8) == 256) by {
            vstd::arithmetic::power2::lemma2_to64();
        }
    }
}

pub proof fn lemma_bytes_bits(vs: Seq<u32>)
    ensures
        is_bit_seq(bytes_bits(vs)),
        bytes_bits(vs).len() >= 8 * vs.len(),
        (forall|i: int| 0 <= i < vs.len() ==> vs[i] < 256) ==> bytes_bits(vs).len() == 8 * vs.len(),
    decreases vs.len(),
{
    if vs.len() > 0 {
        lemma_bytes_bits(vs.drop_last());
        lemma_byte_bits(vs.last() as nat);
        assert(forall|i: int| 0 <= i < vs.len() - 1 ==> vs.drop_last()[i] == vs[i]);
    }
}

pub proof fn lemma_bits_val_single(b: u8)
    ensures
        bits_val(seq![b]) == b,
{
    let s = seq![b];
    assert(s.drop_last() =~= Seq::<u8>::empty());
    assert(bits_val(s.drop_last()) == 0);
    assert(s.last() == b);
    assert(bits_val(s) == (bits_val(s.drop_last()) * 2 + s.last()) as nat);
}

/// A prefix never outweighs the whole bit sequence.
pub proof fn lemma_bits_val_prefix_le(a: Seq<u8>, b: Seq<u8>)
    ensures
        bits_val(a) <= bits_val(a + b),
{
    lemma_bits_val_append(a, b);
    vstd::arithmetic::power2::lemma_pow2_pos(b.len());
    assert(bits_val(a) * pow2(b.len()) >= bits_val(a) * 1) by (nonlinear_arith)
        requires
            pow2(b.len()) >= 1,
    ;
}

/// The decoded integer part: the implicit leading one followed by the first
/// `e` mantissa bits.
pub open spec fn decoded_integer(mant: Seq<u8>, e: int) -> nat {
    bits_val(seq![1u8] + mant.take(e))
}

/// The bit produced by one doubling of the fraction `num / den`.
pub open spec fn frac_step_bit(num: nat, den: nat) -> u8 {
    if 2 * num >= den {
        1u8
    } else {
        0u8
    }
}

/// The numerator left after one doubling of the fraction `num / den`.
pub open spec fn frac_step_next(num: nat, den: nat) -> nat {
    if 2 * num >= den {
        (2 * num - den) as nat
    } else {
        2 * num
    }
}

/// Binary expansion of the fraction `num / den`, most-significant bit first,
/// stopping when the remainder reaches zero or `budget` bits are out.
pub open spec fn frac_bits(num: nat, den: nat, budget: nat) -> Seq<u8>
    decreases budget,
{
    if num == 0 || budget == 0 {
        Seq::empty()
    } else {
        seq![frac_step_bit(num, den)] + frac_bits(frac_step_next(num, den), den, (budget - 1) as nat)
    }
}

/// The numerator still unexpanded once `frac_bits` has stopped.
pub open spec fn frac_rem(num: nat, den: nat, budget: nat) -> nat
    decreases budget,
{
    if num == 0 || budget == 0 {
        num
    } else {
        frac_rem(frac_step_next(num, den), den, (budget - 1) as nat)
    }
}

/// What one expansion run means: the bits taken out and the remainder left
/// together recover the original numerator, scaled by the bits taken.
pub proof fn lemma_frac_bits(num: nat, den: nat, budget: nat)
    requires
        0 < den,
        num < den,
    ensures
        is_bit_seq(frac_bits(num, den, budget)),
        frac_bits(num, den, budget).len() <= budget,
        frac_rem(num, den, budget) < den,
        num * pow2(frac_bits(num, den, budget).len()) == bits_val(frac_bits(num, den, budget))
            * den + frac_rem(num, den, budget),
        frac_bits(num, den, budget).len() < budget ==> frac_rem(num, den, budget) == 0,
        frac_rem(num, den, budget) == 0 && num > 0 && budget > 0 ==> frac_bits(
            num,
            den,
            budget,
        ).last() == 1,
    decreases budget,
{
    let fb = frac_bits(num, den, budget);
    if num == 0 || budget == 0 {
        lemma_pow2_zero();
        assert(fb =~= Seq::<u8>::empty());
        assert(num * pow2(0) == num) by (nonlinear_arith)
            requires
                pow2(0) == 1,
        ;
    } else {
        let b = frac_step_bit(num, den);
        let next = frac_step_next(num, den);
        assert(2 * num == b * den + next) by {
            if 2 * num >= den {
                assert(b == 1 && next == 2 * num - den);
                assert(1 * den == den) by (nonlinear_arith);
            } else {
                assert(b == 0 && next == 2 * num);
                assert(0 * den == 0) by (nonlinear_arith);
            }
        }
        lemma_frac_bits(next, den, (budget - 1) as nat);
        let tail = frac_bits(next, den, (budget - 1) as nat);
        assert(fb == seq![b] + tail);
        assert(fb.len() == 1 + tail.len());
        assert(fb.drop_first() =~= tail);
        lemma_bits_val_append(seq![b], tail);
        assert(bits_val(seq![b]) == b) by {
            let sb = seq![b];
            assert(sb.drop_last() =~= Seq::<u8>::empty());
            assert(bits_val(sb.drop_last()) == 0);
            assert(sb.last() == b);
            assert(bits_val(sb) == bits_val(sb.drop_last()) * 2 + sb.last());
        }
        assert(bits_val(fb) == b * pow2(tail.len()) + bits_val(tail));
        // 2 * num == b * den + next, so scaling the tail identity by two
        // and folding the first bit in recovers the identity for fb.
        assert(next * pow2(tail.len()) == bits_val(tail) * den + frac_rem(
            next,
            den,
            (budget - 1) as nat,
        ));
        vstd::arithmetic::power2::lemma_pow2_unfold(fb.len());
        assert(pow2(fb.len()) == 2 * pow2(tail.len()));
        assert(num * (2 * pow2(tail.len())) == (2 * num) * pow2(tail.len())) by (nonlinear_arith);
        assert((2 * num) * pow2(tail.len()) == b * den * pow2(tail.len()) + next * pow2(tail.len()))
            by (nonlinear_arith)
            requires
                2 * num == b * den + next,
        ;
        assert(b * den * pow2(tail.len()) + bits_val(tail) * den == (b * pow2(tail.len())
            + bits_val(tail)) * den) by (nonlinear_arith);
        assert(num * pow2(fb.len()) == num * (2 * pow2(tail.len())));
        assert((b * pow2(tail.len()) + bits_val(tail)) * den == bits_val(fb) * den);
        if frac_rem(num, den, budget) == 0 {
            if tail.len() == 0 {
                assert(next == frac_rem(next, den, (budget - 1) as nat) || budget - 1 == 0);
                if budget == 1 {
                    // the remainder is next itself, which is zero, so the
                    // produced bit was a one: 2 * num >= den since num > 0
                    // would otherwise leave next == 2 * num > 0
                    if b == 0 {
                        assert(next == 2 * num);
                    }
                } else {
                    if b == 0 {
                        assert(next == 2 * num && next > 0);
                        assert(frac_bits(next, den, (budget - 1) as nat).len() > 0);
                    }
                }
                assert(fb.last() == b);
            } else {
                assert(fb.last() == tail.last());
                assert(next > 0) by {
                    if next == 0 {
                        assert(tail.len() == 0);
                    }
                }
            }
        }
    }
}

/// Hexadecimal digit for a four-bit group value, upper case.
pub open spec fn hex_digit_char(v: nat) -> char {
    if v == 0 {
        '0'
    } else if v == 1 {
        '1'
    } else if v == 2 {
        '2'
    } else if v == 3 {
        '3'
    } else if v == 4 {
        '4'
    } else if v == 5 {
        '5'
    } else if v == 6 {
        '6'
    } else if v == 7 {
        '7'
    } else if v == 8 {
        '8'
    } else if v == 9 {
        '9'
    } else if v == 10 {
        'A'
    } else if v == 11 {
        'B'
    } else if v == 12 {
        'C'
    } else if v == 13 {
        'D'
    } else if v == 14 {
        'E'
    } else {
        'F'
    }
}

/// The value a hexadecimal digit stands for.
pub open spec fn hex_char_val(c: char) -> nat {
    if c == '0' {
        0
    } else if c == '1' {
        1
    } else if c == '2' {
        2
    } else if c == '3' {
        3
    } else if c == '4' {
        4
    } else if c == '5' {
        5
    } else if c == '6' {
        6
    } else if c == '7' {
        7
    } else if c == '8' {
        8
    } else if c == '9' {
        9
    } else if c == 'A' {
        10
    } else if c == 'B' {
        11
    } else if c == 'C' {
        12
    } else if c == 'D' {
        13
    } else if c == 'E' {
        14
    } else {
        15
    }
}

/// The hexadecimal rendering of a bit sequence: one digit for each
/// four-bit group, most-significant group first.
pub open spec fn hex_chars_of(s: Seq<u8>) -> Seq<char> {
    Seq::new(s.len() / 4, |i: int| hex_digit_char(bits_val(s.subrange(4 * i, 4 * i + 4))))
}

/// The bit sequence a hexadecimal digit sequence stands for.
pub open spec fn bits_of_hex(h: Seq<char>) -> Seq<u8> {
    Seq::new(4 * h.len(), |i: int| bits_of_width(hex_char_val(h[i / 4]), 4)[i % 4])
}

pub proof fn lemma_digits_val_zero(s: Seq<u8>)
    requires
        is_digit_seq(s),
    ensures
        digits_val(s) == 0 <==> (forall|i: int| 0 <= i < s.len() ==> s[i] == 0),
    decreases s.len(),
{
    if s.len() > 0 {
        lemma_digits_val_zero(s.drop_last());
        if digits_val(s) == 0 {
            assert(forall|i: int| 0 <= i < s.len() - 1 ==> s[i] == s.drop_last()[i]);
        } else if forall|i: int| 0 <= i < s.len() ==> s[i] == 0 {
            assert(forall|i: int| 0 <= i < s.len() - 1 ==> s.drop_last()[i] == s[i]);
        }
    }
}

} // verus!
