//! IEEE 754 binary64 numbers as 64-bit patterns.
//!
//! Bit 63 is the sign, bits 62..52 the exponent, bits 51..0 the fraction. A
//! pattern whose exponent is all ones is an infinity when the fraction is zero
//! and a NaN otherwise. Everything here is integer reasoning on the pattern.
use vstd::arithmetic::div_mod::lemma_fundamental_div_mod;
use vstd::arithmetic::power2::{
    lemma2_to64, lemma2_to64_rest, lemma_pow2_adds, lemma_pow2_pos,
    lemma_pow2_strictly_increases, lemma_pow2_unfold, pow2,
};
use vstd::prelude::*;

verus! {

/// The sign bit alone: the pattern of negative zero.
pub const SIGN_BIT: u64 = 0x8000_0000_0000_0000;

/// The pattern of positive zero.
pub const POSITIVE_ZERO: u64 = 0;

/// The pattern of positive infinity.
pub const POSITIVE_INFINITY: u64 = 0x7FF0_0000_0000_0000;

/// The pattern of negative infinity.
pub const NEGATIVE_INFINITY: u64 = 0xFFF0_0000_0000_0000;

/// Whether the sign bit is set.
pub open spec fn negative(bits: u64) -> bool {
    bits >= SIGN_BIT
}

/// The pattern with the sign bit cleared.
pub open spec fn magnitude(bits: u64) -> u64 {
    if bits >= SIGN_BIT {
        (bits - SIGN_BIT) as u64
    } else {
        bits
    }
}

/// Whether the pattern is a NaN, whatever its payload.
pub open spec fn nan(bits: u64) -> bool {
    magnitude(bits) > POSITIVE_INFINITY
}

/// Whether the pattern is one of the two infinities.
pub open spec fn infinite(bits: u64) -> bool {
    magnitude(bits) == POSITIVE_INFINITY
}

/// Whether the pattern is one of the two zeros.
pub open spec fn zero(bits: u64) -> bool {
    magnitude(bits) == 0
}

/// The place of a number on the number line, as an integer that grows with the
/// number: the magnitude, negated under a sign bit. Both zeros rank 0. Only
/// meaningful for patterns that are not NaN.
pub open spec fn rank(bits: u64) -> int {
    if negative(bits) {
        -(magnitude(bits) as int)
    } else {
        magnitude(bits) as int
    }
}

/// Numeric equality: neither is NaN and both denote the same number. The two
/// zeros are equal; a NaN equals nothing, itself included.
pub open spec fn numerically_equal(a: u64, b: u64) -> bool {
    !nan(a) && !nan(b) && rank(a) == rank(b)
}

/// Numeric order: neither is NaN and `a` denotes the greater number.
pub open spec fn numerically_greater(a: u64, b: u64) -> bool {
    !nan(a) && !nan(b) && rank(a) > rank(b)
}

/// Equality of numbers as values of a column: numeric equality, and besides
/// that any NaN equals any NaN.
pub open spec fn same_number(a: u64, b: u64) -> bool {
    (nan(a) && nan(b)) || numerically_equal(a, b)
}

fn magnitude_of(bits: u64) -> (m: u64)
    ensures
        m == magnitude(bits),
{
    if bits >= SIGN_BIT {
        bits - SIGN_BIT
    } else {
        bits
    }
}

/// Whether `bits` is a NaN.
pub fn is_nan(bits: u64) -> (r: bool)
    ensures
        r == nan(bits),
{
    magnitude_of(bits) > POSITIVE_INFINITY
}

/// Whether `bits` is positive or negative infinity.
pub fn is_infinite(bits: u64) -> (r: bool)
    ensures
        r == infinite(bits),
{
    magnitude_of(bits) == POSITIVE_INFINITY
}

/// Whether `bits` is positive or negative zero.
pub fn is_zero(bits: u64) -> (r: bool)
    ensures
        r == zero(bits),
{
    magnitude_of(bits) == 0
}

/// Whether the sign bit of `bits` is clear.
pub fn is_sign_positive(bits: u64) -> (r: bool)
    ensures
        r == !negative(bits),
{
    bits < SIGN_BIT
}

/// Whether `a` and `b` are numerically equal.
pub fn equal(a: u64, b: u64) -> (r: bool)
    ensures
        r == numerically_equal(a, b),
{
    if is_nan(a) || is_nan(b) {
        false
    } else if is_zero(a) {
        is_zero(b)
    } else {
        a == b
    }
}

/// Whether `a` is numerically greater than `b`. False when either is NaN.
pub fn greater(a: u64, b: u64) -> (r: bool)
    ensures
        r == numerically_greater(a, b),
{
    if is_nan(a) || is_nan(b) {
        false
    } else if a >= SIGN_BIT {
        b >= SIGN_BIT && magnitude_of(a) < magnitude_of(b)
    } else if b >= SIGN_BIT {
        a > 0 || magnitude_of(b) > 0
    } else {
        a > b
    }
}

/// Whether `a` and `b` are the same number as column values: numerically
/// equal, or both NaN.
pub fn same(a: u64, b: u64) -> (r: bool)
    ensures
        r == same_number(a, b),
{
    (is_nan(a) && is_nan(b)) || equal(a, b)
}

/// Equality of numbers is reflexive, symmetric and transitive, NaN included.
pub proof fn same_number_is_equivalence(a: u64, b: u64, c: u64)
    ensures
        same_number(a, a),
        same_number(a, b) ==> same_number(b, a),
        same_number(a, b) && same_number(b, c) ==> same_number(a, c),
{
}

/// Any NaN equals any NaN, the infinities equal only themselves, and an
/// infinity equals no finite number.
pub proof fn special_numbers_compare(a: u64, b: u64)
    ensures
        nan(a) && nan(b) ==> same_number(a, b),
        nan(a) && !nan(b) ==> !same_number(a, b),
        same_number(POSITIVE_INFINITY, POSITIVE_INFINITY),
        same_number(NEGATIVE_INFINITY, NEGATIVE_INFINITY),
        !same_number(POSITIVE_INFINITY, NEGATIVE_INFINITY),
        infinite(a) && same_number(a, b) ==> b == a,
{
}

/// Two to the power 52: the weight of the exponent field, and the hidden
/// leading bit of a significand.
pub const HIDDEN_BIT: u64 = 0x0010_0000_0000_0000;

/// The position of the highest set bit of `n`: the `e` with
/// `2^e <= n < 2^(e+1)`. Zero for `n == 0`.
pub open spec fn exponent_of(n: nat) -> nat
    decreases n,
{
    if n <= 1 {
        0
    } else {
        1 + exponent_of(n / 2)
    }
}

/// `n / unit`, rounded to the nearest integer, a tie going to the even one.
pub open spec fn rounded(n: nat, unit: nat) -> nat {
    let kept = n / unit;
    let lost = n % unit;
    if 2 * lost > unit || (2 * lost == unit && kept % 2 == 1) {
        kept + 1
    } else {
        kept
    }
}

/// The 53-bit significand of the number nearest to `n`, which is not zero:
/// `n` scaled so that its highest bit has weight `2^52`, rounded to the
/// nearest integer with ties to even when bits are lost. Rounding may carry
/// it to `2^53`.
pub open spec fn significand_of(n: nat) -> nat {
    let e = exponent_of(n);
    if e <= 52 {
        n * pow2((52 - e) as nat)
    } else {
        rounded(n, pow2((e - 52) as nat))
    }
}

/// The pattern of the number nearest to the count `n`, ties to even: what a
/// conversion of the integer `n` to binary64 gives. Exact below `2^53`.
///
/// The exponent field holds `1023 + e` and the fraction the significand
/// without its hidden bit; a significand carried to `2^53` raises the
/// exponent by one through the same sum.
pub open spec fn count_bits(n: nat) -> nat {
    if n == 0 {
        0
    } else {
        (1022 + exponent_of(n)) * pow2(52) + significand_of(n)
    }
}

/// The highest set bit of `n` weighs at most `n`, and twice its weight is more
/// than `n`.
pub proof fn exponent_brackets(n: nat)
    requires
        n >= 1,
    ensures
        pow2(exponent_of(n)) <= n < 2 * pow2(exponent_of(n)),
    decreases n,
{
    if n <= 1 {
        lemma2_to64();
    } else {
        exponent_brackets(n / 2);
        lemma_pow2_unfold(exponent_of(n));
    }
}

/// Only one power of two brackets `n`.
pub proof fn exponent_is_unique(n: nat, e: nat)
    requires
        pow2(e) <= n < 2 * pow2(e),
    ensures
        exponent_of(n) == e,
{
    lemma_pow2_pos(e);
    let f = exponent_of(n);
    exponent_brackets(n);
    if f < e {
        lemma_pow2_unfold(f + 1);
        if f + 1 < e {
            lemma_pow2_strictly_increases(f + 1, e);
        }
    } else if e < f {
        lemma_pow2_unfold(e + 1);
        if e + 1 < f {
            lemma_pow2_strictly_increases(e + 1, f);
        }
    }
}

/// A number below `bound * unit` holds `unit` fewer than `bound` times.
proof fn quotient_is_below(n: nat, unit: nat, bound: nat)
    requires
        unit > 0,
        n < bound * unit,
    ensures
        n / unit < bound,
{
    lemma_fundamental_div_mod(n as int, unit as int);
    let q = n as int / unit as int;
    let r = n as int % unit as int;
    assert(q < bound) by (nonlinear_arith)
        requires
            n == unit * q + r,
            r >= 0,
            unit > 0,
            n < bound * unit,
    ;
}

/// The pattern of the number nearest to `count`, ties to even.
pub fn from_count(count: usize) -> (bits: u64)
    ensures
        bits == count_bits(count as nat),
{
    let n: u64 = count as u64;
    if n == 0 {
        return 0;
    }
    let mut e: u64 = 0;
    let mut top: u64 = 1;
    proof {
        lemma2_to64();
    }
    while n - top >= top
        invariant
            top == pow2(e as nat),
            1 <= top <= n,
            e <= 63,
        decreases n - top,
    {
        proof {
            lemma_pow2_unfold((e + 1) as nat);
            if e >= 63 {
                lemma2_to64_rest();
                lemma_pow2_unfold(64);
            }
        }
        top = top * 2;
        e = e + 1;
    }
    proof {
        exponent_is_unique(n as nat, e as nat);
        lemma2_to64_rest();
    }
    let significand: u64 = if e <= 52 {
        let scale: u64 = HIDDEN_BIT / top;
        proof {
            let s = pow2((52 - e) as nat);
            lemma_pow2_adds(e as nat, (52 - e) as nat);
            lemma_pow2_pos((52 - e) as nat);
            assert(HIDDEN_BIT as int == top * s);
            assert((top * s) / (top as int) == s) by (nonlinear_arith)
                requires
                    top > 0,
            ;
            assert(n * s < 2 * (top * s)) by (nonlinear_arith)
                requires
                    n < 2 * top,
                    s > 0,
            ;
        }
        n * scale
    } else {
        let unit: u64 = top / HIDDEN_BIT;
        proof {
            let u = pow2((e - 52) as nat);
            lemma_pow2_adds(52, (e - 52) as nat);
            lemma_pow2_pos((e - 52) as nat);
            assert(top as int == HIDDEN_BIT * u);
            assert((HIDDEN_BIT * u) / (HIDDEN_BIT as int) == u) by (nonlinear_arith);
            lemma_pow2_unfold((e - 52) as nat);
            assert(u >= 2) by {
                lemma_pow2_pos((e - 53) as nat);
            }
            quotient_is_below(n as nat, u, 2 * HIDDEN_BIT as nat);
        }
        let kept: u64 = n / unit;
        let lost: u64 = n % unit;
        if 2 * lost > unit || (2 * lost == unit && kept % 2 == 1) {
            kept + 1
        } else {
            kept
        }
    };
    (1022 + e) * HIDDEN_BIT + significand
}

/// A count converts to a number that is finite and not negative, and to zero
/// only when it is zero.
pub proof fn count_bits_is_finite(n: nat)
    requires
        n <= u64::MAX,
    ensures
        0 <= count_bits(n) < POSITIVE_INFINITY,
        count_bits(n) == 0 <==> n == 0,
{
    if n > 0 {
        let e = exponent_of(n);
        exponent_brackets(n);
        lemma2_to64();
        lemma2_to64_rest();
        if e > 63 {
            lemma_pow2_strictly_increases(64, e);
        }
        if e <= 52 {
            let s = pow2((52 - e) as nat);
            lemma_pow2_adds(e, (52 - e) as nat);
            lemma_pow2_pos((52 - e) as nat);
            assert(n * s < 2 * (pow2(e) * s)) by (nonlinear_arith)
                requires
                    n < 2 * pow2(e),
                    s > 0,
            ;
        } else {
            let u = pow2((e - 52) as nat);
            lemma_pow2_adds(52, (e - 52) as nat);
            lemma_pow2_pos((e - 52) as nat);
            quotient_is_below(n, u, 2 * pow2(52));
        }
        assert((1022 + e) * pow2(52) <= 1085 * pow2(52)) by (nonlinear_arith)
            requires
                e <= 63,
        ;
    }
}

/// Numbers that are numerically equal have one pattern, unless they are the
/// two zeros.
pub proof fn equal_numbers_share_a_pattern(a: u64, b: u64)
    requires
        numerically_equal(a, b),
    ensures
        a == b || (zero(a) && zero(b)),
{
}

/// A count whose highest bit is no higher than bit 52 converts exactly: its
/// significand, scaled back by the power of two that brought the highest bit
/// to weight `2^52`, is the count. So every count below `2^53` has a number
/// of its own.
pub proof fn small_counts_convert_exactly(n: nat)
    requires
        1 <= n,
        exponent_of(n) <= 52,
    ensures
        pow2(52) <= significand_of(n) < 2 * pow2(52),
        significand_of(n) == n * pow2((52 - exponent_of(n)) as nat),
        count_bits(n) == (1023 + exponent_of(n)) * pow2(52) + (significand_of(n) - pow2(52)),
{
    let e = exponent_of(n);
    let s = pow2((52 - e) as nat);
    exponent_brackets(n);
    lemma_pow2_adds(e, (52 - e) as nat);
    lemma_pow2_pos((52 - e) as nat);
    assert(pow2(e) * s <= n * s < 2 * (pow2(e) * s)) by (nonlinear_arith)
        requires
            pow2(e) <= n < 2 * pow2(e),
            s > 0,
    ;
    assert((1022 + e) * pow2(52) + pow2(52) == (1023 + e) * pow2(52)) by (nonlinear_arith);
}

/// Rounding to the nearest keeps within half a unit: the rounded quotient,
/// scaled back by the unit, is off the number by no more than half the unit.
pub proof fn rounded_is_nearest(n: nat, unit: nat)
    requires
        unit > 0,
    ensures
        2 * (rounded(n, unit) * unit - n) <= unit,
        2 * (n - rounded(n, unit) * unit) <= unit,
{
    lemma_fundamental_div_mod(n as int, unit as int);
    let kept = n as int / unit as int;
    let lost = n as int % unit as int;
    assert((kept + 1) * unit == kept * unit + unit) by (nonlinear_arith);
    assert(unit * kept == kept * unit) by (nonlinear_arith);
}

} // verus!
