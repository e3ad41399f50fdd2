//! How far a rounded result is from the exact one.
use vstd::arithmetic::mul::{lemma_mul_inequality, lemma_mul_strictly_positive};
use vstd::arithmetic::power2::{lemma_pow2_pos, lemma_pow2_strictly_increases, pow2};
use vstd::prelude::*;

use crate::arith::nearest;
use crate::binary::{self, Binary64, HIDDEN64, INFINITY64};
use crate::exact::{self, size};
use crate::rounding::{self, units64};

verus! {

/// Two to the number of bits of a significand.
pub const PRECISION: u64 = 0x20_0000_0000_0000;

/// The power of two past the largest finite value.
pub proof fn lemma_top()
    ensures
        units64(INFINITY64 as nat) == pow2(2098),
{
    vstd::arithmetic::power2::lemma2_to64_rest();
    vstd::arithmetic::power2::lemma_pow2_adds(52, 2046);
    assert(units64(INFINITY64 as nat) == (HIDDEN64 + 0) * pow2(2046));
}

/// A power of two in range is a value.
pub proof fn lemma_power_value(k: nat)
    requires
        k < 2098,
    ensures
        nearest(pow2(k), 1) < INFINITY64,
        units64(nearest(pow2(k), 1)) == pow2(k),
{
    let p = pow2(k);
    lemma_top();
    lemma_pow2_strictly_increases(k, 2098);
    assert(1 * p == p) by (nonlinear_arith);
    exact::lemma_representable(1, k);
    exact::representable_values_are_not_rounded(p);
}

/// A ratio of at most `2^2097` does not overflow.
pub proof fn lemma_no_overflow(a: nat, b: nat)
    requires
        b > 0,
        a <= pow2(2097) * b,
    ensures
        nearest(a, b) < INFINITY64,
        units64(nearest(a, b)) <= pow2(2097),
{
    let big = pow2(2097);
    lemma_power_value(2097);
    assert((big * b) * 1 == big * b) by (nonlinear_arith);
    exact::nearest_depends_on_the_ratio(big * b, b, big, 1);
    exact::rounding_is_monotone(a, big * b, b);
    exact::lemma_order(nearest(a, b), nearest(big, 1));
    exact::lemma_order(nearest(big, 1), nearest(a, b));
}

/// A step is at most the value divided by the hidden bit, from the hidden bit on, and one
/// below it.
pub proof fn lemma_step_is_small(mag: nat)
    ensures
        units64(mag) >= HIDDEN64 ==> binary::ulp(mag, HIDDEN64 as nat) * HIDDEN64 <= units64(mag),
        units64(mag) < HIDDEN64 ==> binary::ulp(mag, HIDDEN64 as nat) == 1,
{
    let h = HIDDEN64 as nat;
    exact::lemma_parts(mag);
    let p = pow2(exact::scale(mag));
    lemma_pow2_pos(exact::scale(mag));
    vstd::arithmetic::power2::lemma2_to64();
    let m = exact::significand(mag);
    if m >= h {
        lemma_mul_inequality(h as int, m as int, p as int);
        assert(h * p == p * h) by (nonlinear_arith);
        lemma_mul_inequality(1, p as int, m as int);
        assert(p * m == m * p) by (nonlinear_arith);
    } else {
        assert(exact::scale(mag) == 0);
        assert(m * 1 == m) by (nonlinear_arith);
    }
}

/// The error of a rounded ratio is at most half a step, above or below.
proof fn lemma_half_step(mag: nat, a: nat, b: nat) -> (step: nat)
    requires
        b > 0,
        mag < INFINITY64,
        rounding::nearest_even(mag, a, b),
    ensures
        2 * size(units64(mag) * b - a) <= step * b,
        units64(mag) >= HIDDEN64 ==> step * HIDDEN64 <= units64(mag),
        units64(mag) < HIDDEN64 ==> step == 1,
{
    let h = HIDDEN64 as nat;
    let u = units64(mag);
    if u * b <= a {
        let v = units64(mag + 1);
        binary::lemma_units_step(mag, h);
        let step = binary::ulp(mag, h);
        assert((u + step) * b == u * b + step * b) by (nonlinear_arith);
        lemma_mul_strictly_positive(step as int, b as int);
        assert(rounding::distance(mag, a, b) <= rounding::distance(mag + 1, a, b));
        lemma_step_is_small(mag);
        step
    } else {
        assert(units64(0) == 0);
        assert(0 * b == 0) by (nonlinear_arith);
        let down = (mag - 1) as nat;
        let v = units64(down);
        binary::lemma_units_step(down, h);
        let step = binary::ulp(down, h);
        assert((v + step) * b == v * b + step * b) by (nonlinear_arith);
        lemma_mul_strictly_positive(step as int, b as int);
        assert(rounding::distance(mag, a, b) <= rounding::distance(down, a, b));
        lemma_step_is_small(down);
        step
    }
}

/// The error of rounding is relative to the result from the hidden bit on, and at most half
/// a least positive number below it.
pub proof fn rounding_error_is_bounded(a: nat, b: nat)
    requires
        b > 0,
        nearest(a, b) < INFINITY64,
    ensures
        ({
            let s = units64(nearest(a, b));
            &&& s >= HIDDEN64 ==> size(s * b - a) * PRECISION <= s * b
            &&& s < HIDDEN64 ==> 2 * size(s * b - a) <= b
        }),
{
    exact::every_ratio_has_a_nearest_value(a, b);
    let s = units64(nearest(a, b));
    let step = lemma_half_step(nearest(a, b), a, b);
    if s >= HIDDEN64 {
        let h = HIDDEN64 as nat;
        lemma_mul_inequality((step * h) as int, s as int, b as int);
        assert((step * h) * b == (step * b) * h) by (nonlinear_arith);
    } else {
        assert(1 * b == b) by (nonlinear_arith);
    }
}

/// The relative error of rounding an integer is at most half a unit of roundoff.
pub proof fn rounding_error_is_relative(n: nat)
    requires
        n <= pow2(2097),
    ensures
        nearest(n, 1) < INFINITY64,
        size(n - units64(nearest(n, 1))) * PRECISION <= n,
{
    let big = pow2(2097);
    assert(big * 1 == big) by (nonlinear_arith);
    lemma_no_overflow(n, 1);
    let s = units64(nearest(n, 1));
    assert(s * 1 == s) by (nonlinear_arith);
    if n < PRECISION {
        vstd::arithmetic::power2::lemma2_to64();
        vstd::arithmetic::power2::lemma2_to64_rest();
        lemma_top();
        lemma_pow2_strictly_increases(53, 2098);
        assert(n * 1 == n) by (nonlinear_arith);
        exact::lemma_representable(n, 0);
        exact::representable_values_are_not_rounded(n);
    } else {
        lemma_integer_half_step(n);
    }
}

/// The nearest value to an integer past the significands is within half a step of it.
proof fn lemma_integer_half_step(n: nat)
    requires
        n >= PRECISION,
        nearest(n, 1) < INFINITY64,
    ensures
        size(n - units64(nearest(n, 1))) * PRECISION <= n,
{
    let h = HIDDEN64 as nat;
    let s = nearest(n, 1);
    exact::every_ratio_has_a_nearest_value(n, 1);
    let u = units64(s);
    assert(u * 1 == u) by (nonlinear_arith);
    let e = size(n - u);
    if u <= n {
        rounding_error_is_bounded(n, 1);
    } else {
        // Below the result, the step is that of the value under it.
        assert(units64(0) == 0);
        let down = (s - 1) as nat;
        let v = units64(down);
        assert(v * 1 == v) by (nonlinear_arith);
        binary::lemma_units_step(down, h);
        let step = binary::ulp(down, h);
        assert(rounding::distance(s, n, 1) <= rounding::distance(down, n, 1));
        assert(2 * e <= step);
        lemma_step_is_small(down);
        assert(step * HIDDEN64 <= v);
    }
}

/// The rounding error of a sum: relative to the sum, and no larger than either addend.
pub proof fn lemma_sum_error(x: Binary64, y: Binary64)
    requires
        x.is_finite(),
        y.is_finite(),
        size(x.value() + y.value()) <= pow2(2097),
    ensures
        x.plus(y).is_finite(),
        size(x.value() + y.value() - x.plus(y).value()) * PRECISION <= size(
            x.value() + y.value(),
        ),
        size(x.value() + y.value() - x.plus(y).value()) <= x.units(),
        size(x.value() + y.value() - x.plus(y).value()) <= y.units(),
{
    let n = size(x.value() + y.value());
    exact::lemma_sum_value(x, y);
    rounding_error_is_relative(n);
    let (a, b) = (x.magnitude() as nat, y.magnitude() as nat);
    exact::lemma_order(a, b);
    exact::lemma_order(b, a);
    if x.magnitude() >= y.magnitude() {
        exact::lemma_fast_two_sum(x, y);
    } else {
        exact::sums_commute(x, y);
        exact::lemma_fast_two_sum(y, x);
    }
    assert(units64(0) == 0);
    assert(size(x.value() + y.value() - x.plus(y).value()) == size(
        n - units64(nearest(n, 1)),
    )) by {
        if x.value() + y.value() == 0 {
            exact::representable_values_are_not_rounded(0);
        }
    }
}

/// The rounding error of a product: relative to the result from the hidden bit on, and at
/// most half a least positive number below it.
pub proof fn lemma_product_error(x: Binary64, y: Binary64)
    requires
        x.is_finite(),
        y.is_finite(),
        x.units() * y.units() <= pow2(2097) * pow2(1074),
    ensures
        ({
            let r = x.times(y);
            let d = size(r.units() * pow2(1074) - x.units() * y.units());
            &&& r.is_finite()
            &&& r.negative() == (x.negative() != y.negative())
            &&& r.units() <= pow2(2097)
            &&& r.units() >= HIDDEN64 ==> d * PRECISION <= r.units() * pow2(1074)
            &&& r.units() < HIDDEN64 ==> 2 * d <= pow2(1074)
        }),
{
    let t = pow2(1074);
    lemma_pow2_pos(1074);
    let a = x.units() * y.units();
    lemma_no_overflow(a, t);
    rounding_error_is_bounded(a, t);
    exact::lemma_signed_value(x.negative() != y.negative(), nearest(a, t));
}

} // verus!
