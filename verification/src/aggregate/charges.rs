//! What the bounds on the errors of the weights of a moving average are worth.
use vstd::arithmetic::mul::{lemma_mul_inequality, lemma_mul_upper_bound};
use vstd::arithmetic::power2::{
    lemma_pow2_adds, lemma_pow2_pos, lemma_pow2_strictly_increases, lemma_pow2_unfold, pow2,
};
use vstd::prelude::*;

use crate::aggregate::accuracy::MANY;
use crate::aggregate::cancellation;
use crate::aggregate::chain::{self, complement, unit};
use crate::aggregate::ema::{absolute_error, alpha_in_range, grid, roundings, two};
use crate::aggregate::laws::{self, one};
use crate::arith::{self, nearest, signed};
use crate::binary::{Binary64, HIDDEN64, INFINITY64};
use crate::close::lemma_size_times;
use crate::exact::{self, size};
use crate::rounding::{self, units64};
use crate::roundoff::{self, PRECISION};
use crate::scalar::Real;

verus! {

/// The unit of roundoff.
pub open spec fn epsilon() -> Binary64 {
    <Binary64 as Real>::spec_epsilon()
}

/// The smallest normal value.
pub open spec fn min_normal() -> Binary64 {
    <Binary64 as Real>::spec_min_normal()
}

/// The constants in least positive numbers.
pub proof fn lemma_constants()
    ensures
        epsilon().is_finite(),
        !epsilon().negative(),
        epsilon().units() == pow2(1022),
        min_normal().is_finite(),
        !min_normal().negative(),
        min_normal().units() == HIDDEN64,
        two().is_finite(),
        !two().negative(),
        two().units() == 2 * unit(),
{
    vstd::arithmetic::power2::lemma2_to64();
    vstd::arithmetic::power2::lemma2_to64_rest();
    lemma_pow2_adds(52, 970);
    assert(units64(0x3cb0_0000_0000_0000) == (HIDDEN64 + 0) * pow2(970));
    assert(units64(0x0010_0000_0000_0000) == (HIDDEN64 + 0) * pow2(0));
    lemma_pow2_adds(52, 1023);
    assert(units64(0x4000_0000_0000_0000) == (HIDDEN64 + 0) * pow2(1023));
    lemma_pow2_unfold(1075);
}

/// An exact product of nonnegative values.
pub proof fn lemma_exact_product(x: Binary64, y: Binary64, n: nat)
    requires
        x.is_finite(),
        y.is_finite(),
        !x.negative(),
        !y.negative(),
        x.units() * y.units() == n * unit(),
        exact::representable(n),
    ensures
        x.times(y).is_finite(),
        !x.times(y).negative(),
        x.times(y).units() == n,
{
    let a = x.units() * y.units();
    lemma_pow2_pos(1074);
    assert(a * 1 == a) by (nonlinear_arith);
    exact::nearest_depends_on_the_ratio(a, unit(), n, 1);
    exact::representable_values_are_not_rounded(n);
    exact::lemma_signed_value(false, nearest(a, unit()));
}

/// A small multiple of a power of two is a value.
pub proof fn lemma_multiple(k: nat, e: nat)
    requires
        k < 0x20_0000_0000_0000,
        e <= 2000,
    ensures
        exact::representable(k * pow2(e)),
{
    roundoff::lemma_top();
    vstd::arithmetic::power2::lemma2_to64_rest();
    lemma_pow2_pos(e);
    lemma_mul_inequality(k as int, 0x20_0000_0000_0000, pow2(e) as int);
    lemma_pow2_adds(53, e);
    lemma_pow2_strictly_increases(53 + e, 2098);
    exact::lemma_representable(k, e);
}

/// The number of roundings is exact, and so is its product with the unit of roundoff.
proof fn lemma_roundings(k: nat)
    requires
        k <= MANY,
    ensures
        ({
            let x = roundings(k).times(epsilon());
            &&& x.is_finite()
            &&& !x.negative()
            &&& x.units() == (2 * k + 2) * pow2(1022)
        }),
{
    lemma_constants();
    let t = unit();
    lemma_pow2_pos(1074);
    lemma_multiple(k, 1074);
    exact::representable_values_are_not_rounded(k * t);
    let x = signed(false, nearest(k * t, 1));
    exact::lemma_signed_value(false, nearest(k * t, 1));
    assert((2 * t) * (k * t) == ((2 * k) * t) * t) by (nonlinear_arith);
    lemma_multiple(2 * k, 1074);
    lemma_exact_product(two(), x, (2 * k) * t);
    let y = two().times(x);
    assert((2 * k + 2) * t == (2 * k) * t + 2 * t) by (nonlinear_arith);
    lemma_multiple(2 * k + 2, 1074);
    exact::representable_sums_are_exact(y, two());
    let z = roundings(k);
    assert(z == y.plus(two()));
    cancellation::lemma_sum_grows(y, two());
    assert(z.units() == (2 * k + 2) * t);
    let e = pow2(1022);
    let c = 2 * k + 2;
    assert((c * t) * e == (c * e) * t) by (nonlinear_arith);
    lemma_multiple(c, 1022);
    lemma_exact_product(z, epsilon(), c * e);
}

/// The relative part of the bound on the error of a weight.
pub open spec fn relative_charge(w: Binary64, k: nat) -> Binary64 {
    roundings(k).times(epsilon()).times(w)
}

/// The relative part is `2k + 2` units of roundoff of the weight, rounded.
pub proof fn lemma_relative_charge(w: Binary64, k: nat)
    requires
        k <= MANY,
        w.is_finite(),
        !w.negative(),
        w.units() <= unit(),
    ensures
        ({
            let c = relative_charge(w, k);
            let y = (2 * k + 2) * w.units();
            &&& c.is_finite()
            &&& !c.negative()
            &&& c.units() <= pow2(1053)
            &&& c.units() >= HIDDEN64 ==> size(c.units() * HIDDEN64 - y) * PRECISION <= c.units()
                * HIDDEN64
            &&& c.units() < HIDDEN64 ==> 2 * size(c.units() * HIDDEN64 - y) <= HIDDEN64
        }),
{
    lemma_roundings(k);
    let x = roundings(k).times(epsilon());
    let (u, t, e, h, n) = (w.units(), unit(), pow2(1022), HIDDEN64 as nat, 2 * k + 2);
    lemma_pow2_pos(1074);
    lemma_pow2_pos(1022);
    vstd::arithmetic::power2::lemma2_to64();
    vstd::arithmetic::power2::lemma2_to64_rest();
    lemma_pow2_adds(52, 1022);
    let a = (n * e) * u;
    let y = n * u;
    assert(a * h == y * t) by (nonlinear_arith)
        requires
            a == (n * e) * u,
            y == n * u,
            t == h * e,
    ;
    exact::nearest_depends_on_the_ratio(a, t, y, h);
    // At most `2^31 * 2^1074 / 2^52`.
    lemma_mul_upper_bound(n as int, pow2(31) as int, u as int, t as int);
    lemma_pow2_adds(31, 1074);
    lemma_pow2_adds(1053, 52);
    let big = pow2(1053);
    exact::rounding_is_monotone(y, big * h, h);
    assert((big * h) * 1 == big * h) by (nonlinear_arith);
    exact::nearest_depends_on_the_ratio(big * h, h, big, 1);
    roundoff::lemma_power_value(1053);
    exact::lemma_order(nearest(y, h), nearest(big, 1));
    exact::lemma_order(nearest(big, 1), nearest(y, h));
    exact::lemma_signed_value(false, nearest(a, t));
    roundoff::rounding_error_is_bounded(y, h);
}

/// The grid is one least positive number.
pub proof fn lemma_grid()
    ensures
        grid::<Binary64>().is_finite(),
        !grid::<Binary64>().negative(),
        grid::<Binary64>().units() == 1,
{
    lemma_constants();
    vstd::arithmetic::power2::lemma2_to64();
    vstd::arithmetic::power2::lemma2_to64_rest();
    lemma_pow2_adds(52, 1022);
    let t = unit();
    assert(1 * t == t) by (nonlinear_arith);
    lemma_multiple(1, 0);
    lemma_exact_product(min_normal(), epsilon(), 1);
}

/// The damping of the errors of a chain.
pub open spec fn damping(b: Binary64) -> Binary64 {
    one().over(one().minus(b))
}

/// What is left of one, of the damping: `v` is one less the complement.
pub proof fn lemma_damping(b: Binary64)
    requires
        b.is_finite(),
        !b.negative(),
        b.units() + pow2(1021) <= unit(),
    ensures
        ({
            let v = (unit() - b.units()) as nat;
            let d = damping(b).units();
            &&& damping(b).is_finite()
            &&& !damping(b).negative()
            &&& unit() <= d <= pow2(1127)
            &&& size(d * v - unit() * unit()) * PRECISION <= 4 * (unit() * unit())
            &&& v == pow2(1021) ==> d == pow2(1127)
        }),
{
    let t = unit();
    let v = (t - b.units()) as nat;
    laws::lemma_one_units();
    exact::lemma_negated_value(b);
    exact::lemma_signed_value(!b.negative(), b.magnitude() as nat);
    let minus = b.negated();
    exact::lemma_sum_value(one(), minus);
    let x = one().minus(b);
    lemma_pow2_pos(1021);
    lemma_pow2_strictly_increases(1074, 2097);
    roundoff::rounding_error_is_relative(v);
    let y = x.units();
    assert(y == units64(nearest(v, 1)));
    // Between `2^-53` and one.
    roundoff::lemma_power_value(1021);
    roundoff::lemma_power_value(1074);
    exact::rounding_is_monotone(pow2(1021), v, 1);
    exact::rounding_is_monotone(v, t, 1);
    exact::lemma_order(nearest(pow2(1021), 1), nearest(v, 1));
    exact::lemma_order(nearest(v, 1), nearest(pow2(1021), 1));
    exact::lemma_order(nearest(v, 1), nearest(t, 1));
    exact::lemma_order(nearest(t, 1), nearest(v, 1));
    assert(pow2(1021) <= y <= t);
    assert(units64(0) == 0);
    exact::lemma_order(0, x.magnitude() as nat);
    let a = t * t;
    let d = damping(b);
    // Between one and `2^53`.
    lemma_pow2_pos(1074);
    lemma_mul_inequality(y as int, t as int, t as int);
    assert(t * y == y * t) by (nonlinear_arith);
    exact::rounding_is_monotone(t * y, a, y);
    assert((t * y) * 1 == t * y) by (nonlinear_arith);
    exact::nearest_depends_on_the_ratio(t * y, y, t, 1);
    let big = pow2(1127);
    lemma_pow2_adds(1127, 1021);
    lemma_pow2_adds(1074, 1074);
    roundoff::lemma_power_value(1127);
    lemma_mul_inequality(pow2(1021) as int, y as int, big as int);
    assert(pow2(1021) * big == big * pow2(1021) && y * big == big * y) by (nonlinear_arith);
    exact::rounding_is_monotone(a, big * y, y);
    assert((big * y) * 1 == big * y) by (nonlinear_arith);
    exact::nearest_depends_on_the_ratio(big * y, y, big, 1);
    exact::lemma_order(nearest(t, 1), nearest(a, y));
    exact::lemma_order(nearest(a, y), nearest(t, 1));
    exact::lemma_order(nearest(a, y), nearest(big, 1));
    exact::lemma_order(nearest(big, 1), nearest(a, y));
    exact::lemma_signed_value(false, nearest(a, y));
    roundoff::rounding_error_is_bounded(a, y);
    vstd::arithmetic::power2::lemma2_to64_rest();
    lemma_pow2_strictly_increases(52, 1074);
    lemma_damping_arithmetic(d.units(), y, v, a);
    if v == pow2(1021) {
        exact::nearest_depends_on_the_ratio(a, y, big, 1);
    }
}

/// The arithmetic of the damping.
proof fn lemma_damping_arithmetic(d: nat, y: nat, v: nat, a: nat)
    requires
        size(v - y) * PRECISION <= v,
        size(d * y - a) * PRECISION <= d * y,
    ensures
        size(d * v - a) * PRECISION <= 4 * a,
{
    let p = PRECISION as nat;
    let (x, z) = (size(v - y), size(d * y - a));
    assert(d * v - a == d * (v - y) + (d * y - a)) by (nonlinear_arith);
    lemma_size_times(v - y, d);
    assert(d * (v - y) == (v - y) * d) by (nonlinear_arith);
    let (dv, xd) = (d * v, x * d);
    assert(xd * p <= dv) by (nonlinear_arith)
        requires
            x * p <= v,
            dv == d * v,
            xd == x * d,
    ;
    assert(z * (p - 1) <= a);
    assert(size(d * v - a) <= xd + z);
}

/// The absolute part of the bound for the oldest window: the damping, rounded to an integer.
pub proof fn lemma_oldest_charge(alpha: Binary64)
    requires
        alpha_in_range(alpha),
        complement(alpha).units() < unit(),
    ensures
        ({
            let c = absolute_error(alpha, complement(alpha), true);
            let d = damping(complement(alpha)).units();
            let t = unit();
            &&& c.is_finite()
            &&& !c.negative()
            &&& 1 <= c.units() <= pow2(60)
            &&& 3 * t <= 2 * d ==> c.units() >= 2
            &&& 2 * d <= 3 * (c.units() * t)
            &&& c.units() < HIDDEN64 ==> 2 * size(c.units() * t - d) <= t
            &&& c.units() >= HIDDEN64 ==> size(c.units() * t - d) * PRECISION <= c.units() * t
        }),
{
    let b = complement(alpha);
    chain::lemma_complement(alpha);
    lemma_below_one(b);
    lemma_damping(b);
    lemma_grid();
    let t = unit();
    let x = damping(b);
    let d = x.units();
    let c = absolute_error(alpha, b, true);
    assert(c == x.times(grid()));
    lemma_pow2_pos(1074);
    lemma_pow2_strictly_increases(1127, 1130);
    lemma_charge_of(x);
    let k = c.units();
    // At least one, and two from three halves on.
    exact::rounding_is_monotone(t, d, t);
    assert(t * 1 == 1 * t) by (nonlinear_arith);
    exact::nearest_depends_on_the_ratio(t, t, 1, 1);
    vstd::arithmetic::power2::lemma2_to64();
    roundoff::lemma_power_value(0);
    exact::lemma_order(nearest(1, 1), nearest(d, t));
    exact::lemma_order(nearest(d, t), nearest(1, 1));
    if 3 * t <= 2 * d {
        lemma_three_halves(d);
    }
    assert(1 * t <= k * t) by (nonlinear_arith)
        requires
            k >= 1,
    ;
    if k >= 2 {
        assert(2 * t <= k * t) by (nonlinear_arith)
            requires
                k >= 2,
        ;
    }
}

/// A complement below one is below it as a value.
pub proof fn lemma_below_one(b: Binary64)
    requires
        b.is_finite(),
        !b.negative(),
    ensures
        b.below(one()) == (b.units() < unit()),
{
    laws::lemma_one_units();
    exact::lemma_order(b.magnitude() as nat, one().magnitude() as nat);
    exact::lemma_order(one().magnitude() as nat, b.magnitude() as nat);
}

/// A value times the grid: the value in units, rounded to an integer.
proof fn lemma_charge_of(x: Binary64)
    requires
        x.is_finite(),
        !x.negative(),
        x.units() <= pow2(1130),
    ensures
        ({
            let c = x.times(grid());
            let (d, t) = (x.units(), unit());
            &&& c.is_finite()
            &&& !c.negative()
            &&& c.units() == units64(nearest(d, t))
            &&& c.units() <= pow2(60)
            &&& c.units() < HIDDEN64 ==> 2 * size(c.units() * t - d) <= t
            &&& c.units() >= HIDDEN64 ==> size(c.units() * t - d) * PRECISION <= c.units() * t
        }),
{
    lemma_grid();
    let (d, t) = (x.units(), unit());
    lemma_pow2_pos(1074);
    assert(d * 1 == d) by (nonlinear_arith);
    let big = pow2(60);
    lemma_pow2_adds(60, 1074);
    lemma_pow2_strictly_increases(1130, 1134);
    exact::rounding_is_monotone(d, big * t, t);
    assert((big * t) * 1 == big * t) by (nonlinear_arith);
    exact::nearest_depends_on_the_ratio(big * t, t, big, 1);
    roundoff::lemma_power_value(60);
    exact::lemma_order(nearest(d, t), nearest(big, 1));
    exact::lemma_order(nearest(big, 1), nearest(d, t));
    exact::lemma_signed_value(false, nearest(d, t));
    roundoff::rounding_error_is_bounded(d, t);
}

/// Three halves of a least positive number, or more, round to two of them or more.
proof fn lemma_three_halves(d: nat)
    requires
        3 * unit() <= 2 * d,
    ensures
        units64(nearest(d, unit())) >= 2,
{
    let t = unit();
    lemma_pow2_pos(1074);
    lemma_pow2_unfold(1074);
    let half = pow2(1073);
    lemma_pow2_pos(1073);
    exact::rounding_is_monotone(3 * half, d, t);
    assert((3 * half) * 2 == 3 * t) by (nonlinear_arith)
        requires
            t == 2 * half,
    ;
    exact::nearest_depends_on_the_ratio(3 * half, t, 3, 2);
    vstd::arithmetic::power2::lemma2_to64();
    assert(units64(2) == 2) by {
        assert(2 * 1 == 2);
    }
    assert(rounding::nearest_even(2, 3, 2)) by {
        assert forall|other: nat| other <= INFINITY64 && other != 2 implies {
            &&& rounding::distance(2, 3, 2) <= #[trigger] rounding::distance(other, 3, 2)
            &&& rounding::distance(2, 3, 2) == rounding::distance(other, 3, 2) ==> 2nat % 2 == 0
        } by {}
    }
    arith::lemma_nearest(2, 3, 2);
    exact::lemma_order(2, nearest(d, t));
    exact::lemma_order(nearest(d, t), 2);
}

/// The absolute part of the bound for the other windows: at least two.
pub proof fn lemma_general_charge(alpha: Binary64)
    requires
        alpha_in_range(alpha),
        complement(alpha).units() < unit(),
    ensures
        ({
            let c = absolute_error(alpha, complement(alpha), false);
            &&& c.is_finite()
            &&& !c.negative()
            &&& 2 <= c.units() <= pow2(60)
        }),
{
    let b = complement(alpha);
    chain::lemma_complement(alpha);
    lemma_below_one(b);
    lemma_damping(b);
    let t = unit();
    let x = damping(b);
    let (a, d, v) = (alpha.units(), x.units(), (t - b.units()) as nat);
    lemma_pow2_pos(1074);
    // The smoothing factor times the damping is about one, and at least one half.
    lemma_pow2_unfold(1021);
    lemma_pow2_unfold(1022);
    assert(!alpha.negative()) by {
        lemma_pow2_pos(1020);
    }
    assert(2 * (a * d) >= t * t) by {
        if v == pow2(1021) {
            lemma_pow2_adds(1020, 1127);
            lemma_pow2_adds(1074, 1074);
            lemma_pow2_unfold(2148);
            lemma_mul_inequality(pow2(1020) as int, a as int, d as int);
        } else {
            lemma_three_quarters(a, d, v, t);
        }
    }
    lemma_mul_upper_bound(a as int, t as int, d as int, pow2(1127) as int);
    lemma_pow2_strictly_increases(1127, 2097);
    lemma_mul_inequality(pow2(1127) as int, pow2(2097) as int, t as int);
    assert(t * pow2(1127) == pow2(1127) * t) by (nonlinear_arith);
    roundoff::lemma_product_error(alpha, x);
    let y = alpha.times(x);
    let l = y.units();
    exact::every_ratio_has_a_nearest_value(a * d, t);
    exact::lemma_signed_value(false, nearest(a * d, t));
    assert(l == units64(nearest(a * d, t)));
    lemma_pow2_unfold(1074);
    let half = pow2(1073);
    assert(l >= half) by {
        assert(2 * (half * t) == t * t) by (nonlinear_arith)
            requires
                t == 2 * half,
        ;
        exact::rounding_is_monotone(half * t, a * d, t);
        assert((half * t) * 1 == half * t) by (nonlinear_arith);
        exact::nearest_depends_on_the_ratio(half * t, t, half, 1);
        roundoff::lemma_power_value(1073);
        exact::lemma_order(nearest(half, 1), nearest(a * d, t));
        exact::lemma_order(nearest(a * d, t), nearest(half, 1));
    }
    assert(l <= pow2(1129)) by {
        lemma_pow2_strictly_increases(1127, 1129);
        assert(t * pow2(1127) == pow2(1127) * t) by (nonlinear_arith);
        exact::rounding_is_monotone(a * d, pow2(1127) * t, t);
        assert((pow2(1127) * t) * 1 == pow2(1127) * t) by (nonlinear_arith);
        exact::nearest_depends_on_the_ratio(pow2(1127) * t, t, pow2(1127), 1);
        roundoff::lemma_power_value(1127);
        exact::lemma_order(nearest(a * d, t), nearest(pow2(1127), 1));
        exact::lemma_order(nearest(pow2(1127), 1), nearest(a * d, t));
    }
    // One more, and in units.
    laws::lemma_one_units();
    let z = one().plus(y);
    lemma_pow2_strictly_increases(1074, 1129);
    lemma_pow2_unfold(1130);
    roundoff::lemma_power_value(1130);
    exact::lemma_sum_value(one(), y);
    cancellation::lemma_sum_grows(one(), y);
    let m = t + l;
    exact::rounding_is_monotone(m, pow2(1130), 1);
    exact::lemma_order(nearest(m, 1), nearest(pow2(1130), 1));
    exact::lemma_order(nearest(pow2(1130), 1), nearest(m, 1));
    lemma_multiple(3, 1073);
    exact::representable_values_are_not_rounded(3 * half);
    exact::rounding_is_monotone(3 * half, m, 1);
    exact::lemma_order(nearest(3 * half, 1), nearest(m, 1));
    exact::lemma_order(nearest(m, 1), nearest(3 * half, 1));
    lemma_charge_of(z);
    lemma_three_halves(z.units());
}

/// A smoothing factor of at least three quarters of what is left of one.
proof fn lemma_three_quarters(a: nat, d: nat, v: nat, t: nat)
    requires
        4 * a >= 3 * v,
        size(d * v - t * t) * PRECISION <= 4 * (t * t),
    ensures
        2 * (a * d) >= t * t,
{
    assert(4 * (a * d) >= 3 * (d * v)) by (nonlinear_arith)
        requires
            4 * a >= 3 * v,
    ;
}

} // verus!
