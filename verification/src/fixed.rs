//! Fixed-point sample arithmetic.
//!
//! A sample is an `i64` whose value is scaled by [`FP_ONE`]: the integer
//! `FP_ONE` stands for the real number `1.0`. Fractional delay amounts use the
//! same scale, so a delay of `d` slots plus a fraction `f / FP_ONE` of a slot
//! is carried as the single integer `d * FP_ONE + f`.

use vstd::prelude::*;
use vstd::arithmetic::div_mod::{lemma_div_is_ordered, lemma_div_multiples_vanish, lemma_div_pos_is_pos};

verus! {

/// The fixed-point scale: this integer stands for the real number `1.0`.
pub const FP_ONE: u64 = 0x1_0000_0000;

/// Largest number of slots a delay line may hold; keeps every index and every
/// scaled delay comfortably inside the machine integer types.
pub const MAX_CAPACITY: usize = 0x0100_0000;

/// Linear interpolation between samples `a` (weight `1 - f/FP_ONE`) and `b`
/// (weight `f/FP_ONE`), with the quotient rounded toward zero.
pub open spec fn lerp(a: int, b: int, f: int) -> int {
    let num = a * (FP_ONE as int - f) + b * f;
    if num >= 0 {
        num / (FP_ONE as int)
    } else {
        -((-num) / (FP_ONE as int))
    }
}

/// The two interpolation weights add up to exactly the scale.
proof fn lemma_weights_total(v: int, f: int, k: int)
    by (nonlinear_arith)
    ensures
        v * (k - f) + v * f == v * k,
        k * v == v * k,
{
}

/// The weighted sum of two samples lies between the scaled extremes, and so
/// does each of its two addends.
proof fn lemma_num_bound(a: int, b: int, lo: int, hi: int, f: int, k: int)
    by (nonlinear_arith)
    requires
        lo <= a <= hi,
        lo <= b <= hi,
        0 <= f <= k,
    ensures
        lo * k <= a * (k - f) + b * f <= hi * k,
        lo <= 0 <= hi ==> lo * k <= a * (k - f) <= hi * k,
        lo <= 0 <= hi ==> lo * k <= b * f <= hi * k,
{
}

/// A scaled value divided by the scale, rounding toward zero, is the value
/// itself, whatever its sign.
proof fn lemma_scaled_div_exact(v: int, k: int)
    requires
        0 < k,
    ensures
        v >= 0 ==> (v * k) / k == v,
        v < 0 ==> -((-(v * k)) / k) == v,
{
    if v >= 0 {
        lemma_div_multiples_vanish(v, k);
        lemma_weights_total(v, 0, k);
    } else {
        lemma_div_multiples_vanish(-v, k);
        lemma_weights_total(-v, 0, k);
        assert(-(v * k) == (-v) * k) by (nonlinear_arith);
    }
}

/// Interpolating anywhere between two equal samples returns that sample: the
/// weights add up to exactly one, so no rounding occurs.
pub proof fn lemma_lerp_const(v: int, f: int)
    requires
        0 <= f < FP_ONE,
    ensures
        lerp(v, v, f) == v,
{
    let k = FP_ONE as int;
    lemma_weights_total(v, f, k);
    lemma_scaled_div_exact(v, k);
}

/// A weight of zero returns the first sample exactly.
pub proof fn lemma_lerp_frac_zero(a: int, b: int)
    ensures
        lerp(a, b, 0) == a,
{
    let k = FP_ONE as int;
    assert(a * (k - 0) + b * 0 == a * k) by (nonlinear_arith);
    lemma_scaled_div_exact(a, k);
}

/// Interpolation never leaves the closed interval spanned by its two samples.
pub proof fn lemma_lerp_range(a: int, b: int, f: int)
    requires
        0 <= f < FP_ONE,
    ensures
        (if a <= b { a } else { b }) <= lerp(a, b, f),
        lerp(a, b, f) <= (if a <= b { b } else { a }),
{
    let k = FP_ONE as int;
    let lo = if a <= b { a } else { b };
    let hi = if a <= b { b } else { a };
    let num = a * (k - f) + b * f;
    lemma_num_bound(a, b, lo, hi, f, k);
    lemma_scaled_div_exact(lo, k);
    lemma_scaled_div_exact(hi, k);
    if num >= 0 {
        lemma_div_pos_is_pos(num, k);
        lemma_div_is_ordered(num, hi * k, k);
        if lo >= 0 {
            lemma_div_is_ordered(lo * k, num, k);
        }
    } else {
        lemma_div_pos_is_pos(-num, k);
        lemma_div_is_ordered(-num, -(lo * k), k);
        assert(-(lo * k) == (-lo) * k) by (nonlinear_arith);
        lemma_div_multiples_vanish(-lo, k);
        assert((-lo) * k == k * (-lo)) by (nonlinear_arith);
        if hi < 0 {
            lemma_div_is_ordered(-(hi * k), -num, k);
            assert(-(hi * k) == (-hi) * k) by (nonlinear_arith);
            lemma_div_multiples_vanish(-hi, k);
            assert((-hi) * k == k * (-hi)) by (nonlinear_arith);
        }
    }
}

/// Computes [`lerp`] exactly, using a wide intermediate so that no overflow
/// can occur for any pair of `i64` samples.
pub fn lerp_exec(a: i64, b: i64, f: u64) -> (r: i64)
    requires
        f < FP_ONE,
    ensures
        r as int == lerp(a as int, b as int, f as int),
{
    proof {
        lemma_lerp_range(a as int, b as int, f as int);
        lemma_num_bound(a as int, b as int, i64::MIN as int, i64::MAX as int,
            f as int, FP_ONE as int);
        lemma_scaled_div_exact(i64::MIN as int, FP_ONE as int);
        lemma_scaled_div_exact(i64::MAX as int, FP_ONE as int);
    }
    let num: i128 = (a as i128) * ((FP_ONE - f) as i128) + (b as i128) * (f as i128);
    if num >= 0 {
        let q: u128 = (num as u128) / (FP_ONE as u128);
        proof {
            lemma_div_pos_is_pos(num as int, FP_ONE as int);
            lemma_div_is_ordered(num as int, (i64::MAX as int) * (FP_ONE as int),
                FP_ONE as int);
            lemma_div_multiples_vanish(i64::MAX as int, FP_ONE as int);
            assert((i64::MAX as int) * (FP_ONE as int)
                == (FP_ONE as int) * (i64::MAX as int)) by (nonlinear_arith);
        }
        q as i64
    } else {
        let q: u128 = ((-num) as u128) / (FP_ONE as u128);
        proof {
            lemma_div_pos_is_pos(-num as int, FP_ONE as int);
            lemma_div_is_ordered(-num as int, -((i64::MIN as int) * (FP_ONE as int)),
                FP_ONE as int);
            assert(-((i64::MIN as int) * (FP_ONE as int))
                == (-(i64::MIN as int)) * (FP_ONE as int)) by (nonlinear_arith);
            lemma_div_multiples_vanish(-(i64::MIN as int), FP_ONE as int);
            assert((-(i64::MIN as int)) * (FP_ONE as int)
                == (FP_ONE as int) * (-(i64::MIN as int))) by (nonlinear_arith);
        }
        (-(q as i128)) as i64
    }
}

} // verus!
