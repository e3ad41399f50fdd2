//! When binary64 arithmetic is exact.
use vstd::arithmetic::mul::{
    lemma_mul_inequality, lemma_mul_strict_inequality, lemma_mul_strictly_positive,
};
use vstd::arithmetic::power2::{lemma_pow2_adds, lemma_pow2_pos, lemma_pow2_unfold, pow2};
use vstd::prelude::*;

use crate::arith::{lemma_nearest, nearest, signed};
use crate::binary::{Binary64, HIDDEN64, INFINITY64};
use crate::rounding::{self, nearest_even, units64};

verus! {

/// Whether some finite value is `n` least positive numbers in magnitude.
pub open spec fn representable(n: nat) -> bool {
    exists|mag: nat| mag < INFINITY64 && #[trigger] units64(mag) == n
}

/// The significand of a magnitude pattern.
pub open spec fn significand(mag: nat) -> nat {
    let h = HIDDEN64 as nat;
    if mag / h == 0 {
        mag % h
    } else {
        h + mag % h
    }
}

/// The exponent of a magnitude pattern, from that of the least positive number up.
pub open spec fn scale(mag: nat) -> nat {
    let h = HIDDEN64 as nat;
    if mag / h == 0 {
        0
    } else {
        (mag / h - 1) as nat
    }
}

/// A magnitude is its significand on its scale, and only the lowest scale has significands
/// without the hidden bit.
pub proof fn lemma_parts(mag: nat)
    ensures
        units64(mag) == significand(mag) * pow2(scale(mag)),
        significand(mag) < 2 * HIDDEN64,
        scale(mag) > 0 ==> significand(mag) >= HIDDEN64,
{
    vstd::arithmetic::power2::lemma2_to64();
    let r = mag % HIDDEN64 as nat;
    assert(r * 1 == r) by (nonlinear_arith);
}

/// A larger pattern has a larger value, and the other way around.
pub proof fn lemma_order(x: nat, y: nat)
    ensures
        x < y <==> units64(x) < units64(y),
        x == y <==> units64(x) == units64(y),
{
    let (u, v) = (units64(x), units64(y));
    assert(u * 1 == u && v * 1 == v) by (nonlinear_arith);
    if x < y {
        rounding::lemma_units64_scaled(x, y, 1);
    } else if y < x {
        rounding::lemma_units64_scaled(y, x, 1);
    }
}

/// The pattern of twice a value.
spec fn doubled(mag: nat) -> nat {
    if mag < HIDDEN64 {
        2 * mag
    } else {
        mag + HIDDEN64 as nat
    }
}

/// The doubled pattern has twice the value.
proof fn lemma_doubled(mag: nat)
    ensures
        units64(doubled(mag)) == 2 * units64(mag),
{
    let h = HIDDEN64 as nat;
    vstd::arithmetic::power2::lemma2_to64();
    if mag < h {
        rounding::lemma_pattern(2 * mag, 0);
        rounding::lemma_pattern(mag, 0);
        assert((2 * mag) * 1 == 2 * mag && mag * 1 == mag) by (nonlinear_arith);
        assert(0 * h == 0) by (nonlinear_arith);
    } else {
        let (q, r) = (mag / h, mag % h);
        assert((mag + h) / h == q + 1 && (mag + h) % h == r);
        lemma_pow2_unfold(q);
        let p = pow2((q - 1) as nat);
        assert((h + r) * (2 * p) == 2 * ((h + r) * p)) by (nonlinear_arith);
    }
}

/// A significand of at most 53 bits on any scale is representable, below the overflow.
pub proof fn lemma_representable(m: nat, k: nat)
    requires
        m < 2 * HIDDEN64,
        m * pow2(k) < units64(INFINITY64 as nat),
    ensures
        representable(m * pow2(k)),
    decreases k,
{
    vstd::arithmetic::power2::lemma2_to64();
    if k == 0 {
        rounding::lemma_pattern(m, 0);
        assert(m * 1 == m) by (nonlinear_arith);
        assert(0 * HIDDEN64 == 0);
        assert(units64(m) == m);
    } else {
        lemma_pow2_unfold(k);
        let p = pow2((k - 1) as nat);
        assert(m * (2 * p) == 2 * (m * p)) by (nonlinear_arith);
        lemma_representable(m, (k - 1) as nat);
        let mag = choose|mag: nat| mag < INFINITY64 && #[trigger] units64(mag) == m * p;
        lemma_doubled(mag);
        lemma_order(doubled(mag), INFINITY64 as nat);
        assert(units64(doubled(mag)) == m * pow2(k));
    }
}

/// A multiple of `2^k` of at most 53 bits on that scale is representable.
proof fn lemma_multiple_representable(n: nat, t: nat, k: nat)
    requires
        n == t * pow2(k),
        n < 2 * HIDDEN64 * pow2(k),
        n < units64(INFINITY64 as nat),
    ensures
        representable(n),
{
    lemma_pow2_pos(k);
    if t >= 2 * HIDDEN64 {
        lemma_mul_inequality(2 * HIDDEN64 as int, t as int, pow2(k) as int);
    }
    lemma_representable(t, k);
}

/// Every ratio has a nearest value.
pub proof fn every_ratio_has_a_nearest_value(a: nat, b: nat)
    requires
        b > 0,
    ensures
        nearest_even(nearest(a, b), a, b),
{
    reveal(nearest);
    assert(units64(0) == 0);
    assert(0 * b == 0) by (nonlinear_arith);
    lemma_floor_exists(a, b, INFINITY64 as nat);
    let m = choose|m: nat|
        m <= INFINITY64 && #[trigger] units64(m) * b <= a && (m == INFINITY64 || a < units64(m + 1)
            * b);
    if m == INFINITY64 {
        rounding::lemma_overflow_is_nearest(a, b);
        assert(nearest_even(m, a, b));
    } else {
        crate::binary::lemma_units_step(m, HIDDEN64 as nat);
        let step = crate::binary::ulp(m, HIDDEN64 as nat);
        let (u, v) = (units64(m), units64(m + 1));
        assert((u + step) * b == u * b + step * b) by (nonlinear_arith);
        lemma_mul_strictly_positive(step as int, b as int);
        let below = a - u * b;
        // At the midpoint the even one of the two neighbours is nearest.
        if 2 * below < step * b || (2 * below == step * b && m % 2 == 0) {
            if m > 0 {
                crate::binary::lemma_units_step((m - 1) as nat, HIDDEN64 as nat);
                lemma_mul_strictly_positive(
                    crate::binary::ulp((m - 1) as nat, HIDDEN64 as nat) as int,
                    b as int,
                );
            }
            rounding::lemma_half_step_is_nearest(m, a, b);
            assert(nearest_even(m, a, b));
        } else {
            crate::binary::lemma_units_step(m + 1, HIDDEN64 as nat);
            lemma_mul_strictly_positive(
                crate::binary::ulp(m + 1, HIDDEN64 as nat) as int,
                b as int,
            );
            rounding::lemma_half_step_is_nearest(m + 1, a, b);
            assert(nearest_even(m + 1, a, b));
        }
    }
}

/// There is a last pattern, up to `top`, whose value is not above the ratio.
proof fn lemma_floor_exists(a: nat, b: nat, top: nat)
    requires
        b > 0,
        top <= INFINITY64,
        top == INFINITY64 || a < units64(top + 1) * b,
        units64(0) * b <= a,
    ensures
        exists|m: nat|
            m <= INFINITY64 && #[trigger] units64(m) * b <= a && (m == INFINITY64 || a < units64(
                m + 1,
            ) * b),
    decreases top,
{
    if units64(top) * b <= a {
    } else {
        assert(top > 0);
        lemma_floor_exists(a, b, (top - 1) as nat);
    }
}

/// Scaling both parts of a ratio leaves its nearest value.
pub proof fn nearest_depends_on_the_ratio(a: nat, b: nat, c: nat, d: nat)
    requires
        b > 0,
        d > 0,
        a * d == c * b,
    ensures
        nearest(a, b) == nearest(c, d),
{
    every_ratio_has_a_nearest_value(a, b);
    let mag = nearest(a, b);
    assert forall|x: nat| #[trigger]
        rounding::distance(x, a, b) * d == rounding::distance(x, c, d) * b by {
        let u = units64(x);
        assert((u * b - a) * d == (u * d - c) * b) by (nonlinear_arith)
            requires
                a * d == c * b,
        ;
        assert((a - u * b) * d == (c - u * d) * b) by (nonlinear_arith)
            requires
                a * d == c * b,
        ;
        if u * b >= a {
            lemma_mul_inequality(0, u * b - a, d as int);
            if u * d < c {
                lemma_mul_strict_inequality(u * d - c, 0, b as int);
            }
        } else {
            lemma_mul_strict_inequality(0, a - u * b, d as int);
            if u * d >= c {
                lemma_mul_inequality(c - u * d, 0, b as int);
            }
        }
    }
    assert forall|other: nat| other <= INFINITY64 && other != mag implies {
        &&& rounding::distance(mag, c, d) <= #[trigger] rounding::distance(other, c, d)
        &&& rounding::distance(mag, c, d) == rounding::distance(other, c, d) ==> mag % 2 == 0
    } by {
        let (x, y) = (rounding::distance(mag, a, b) as int, rounding::distance(other, a, b) as int);
        let (z, w) = (rounding::distance(mag, c, d) as int, rounding::distance(other, c, d) as int);
        assert(x <= y);
        assert(x * d == z * b && y * d == w * b);
        lemma_mul_inequality(x, y, d as int);
        vstd::arithmetic::mul::lemma_mul_inequality_converse(z, w, b as int);
        if z == w {
            vstd::arithmetic::mul::lemma_mul_is_commutative(x, d as int);
            vstd::arithmetic::mul::lemma_mul_is_commutative(y, d as int);
            vstd::arithmetic::mul::lemma_mul_equality_converse(d as int, x, y);
        }
    }
    lemma_nearest(mag, c, d);
}

/// Rounding keeps the order.
pub proof fn rounding_is_monotone(a: nat, c: nat, b: nat)
    requires
        b > 0,
        a <= c,
    ensures
        nearest(a, b) <= nearest(c, b),
{
    every_ratio_has_a_nearest_value(a, b);
    every_ratio_has_a_nearest_value(c, b);
    let (x, y) = (nearest(a, b), nearest(c, b));
    if y < x {
        rounding::lemma_units64_scaled(y, x, b);
        assert(rounding::distance(x, a, b) <= rounding::distance(y, a, b));
        assert(rounding::distance(y, c, b) <= rounding::distance(x, c, b));
        assert(a == c);
        rounding::nearest_is_unique(x, y, a, b);
    }
}

/// A representable integer rounds to itself.
pub proof fn representable_values_are_not_rounded(n: nat)
    requires
        representable(n),
    ensures
        nearest(n, 1) < INFINITY64,
        units64(nearest(n, 1)) == n,
{
    let mag = choose|mag: nat| mag < INFINITY64 && #[trigger] units64(mag) == n;
    assert(n * 1 == n) by (nonlinear_arith);
    rounding::lemma_exact_is_nearest(mag, n, 1);
    lemma_nearest(mag, n, 1);
}

/// The magnitude of a finite value is representable.
pub proof fn finite_values_are_representable(x: Binary64)
    requires
        x.is_finite(),
    ensures
        representable(x.units()),
        x.units() < units64(INFINITY64 as nat),
{
    lemma_order(x.magnitude() as nat, INFINITY64 as nat);
    assert(units64(x.magnitude() as nat) == x.units());
}

/// The absolute value of an integer.
pub open spec fn size(n: int) -> nat {
    if n < 0 {
        (-n) as nat
    } else {
        n as nat
    }
}

/// What the value of a signed pattern is.
pub proof fn lemma_signed_value(negative: bool, mag: nat)
    requires
        mag <= INFINITY64,
    ensures
        signed(negative, mag).magnitude() == mag,
        signed(negative, mag).negative() == negative,
        signed(negative, mag).value() == if negative {
            -(units64(mag) as int)
        } else {
            units64(mag) as int
        },
{
}

/// A sum that is representable is exact.
pub proof fn representable_sums_are_exact(x: Binary64, y: Binary64)
    requires
        x.is_finite(),
        y.is_finite(),
        representable(size(x.value() + y.value())),
    ensures
        x.plus(y).is_finite(),
        x.plus(y).value() == x.value() + y.value(),
{
    let n = x.value() + y.value();
    representable_values_are_not_rounded(size(n));
    lemma_signed_value(n < 0, nearest(size(n), 1));
    assert(units64(0) == 0);
    lemma_signed_value(x.negative() && y.negative(), 0);
}

/// The value of a sum is the value of the rounded sum of the values.
pub proof fn lemma_sum_value(x: Binary64, y: Binary64)
    requires
        x.is_finite(),
        y.is_finite(),
    ensures
        x.plus(y).magnitude() == nearest(size(x.value() + y.value()), 1),
        x.value() + y.value() != 0 ==> x.plus(y).negative() == (x.value() + y.value() < 0),
        x.plus(y).units() == units64(nearest(size(x.value() + y.value()), 1)),
{
    let n = x.value() + y.value();
    every_ratio_has_a_nearest_value(size(n), 1);
    lemma_signed_value(n < 0, nearest(size(n), 1));
    if n == 0 {
        assert(units64(0) == 0);
        rounding::lemma_exact_is_nearest(0, 0, 1);
        lemma_nearest(0, 0, 1);
        lemma_signed_value(x.negative() && y.negative(), 0);
    }
}

/// A sum does not depend on the order of two numbers.
pub proof fn sums_commute(x: Binary64, y: Binary64)
    requires
        x.is_finite(),
        y.is_finite(),
    ensures
        x.plus(y) == y.plus(x),
{
}

/// Negation changes the sign of the value.
pub proof fn lemma_negated_value(x: Binary64)
    requires
        !x.is_nan(),
    ensures
        x.negated().value() == -x.value(),
        x.negated().magnitude() == x.magnitude(),
{
    lemma_signed_value(!x.negative(), x.magnitude() as nat);
}

/// The difference of two values within a factor of two of each other is representable.
pub proof fn lemma_close_difference(x: nat, y: nat)
    requires
        x < INFINITY64,
        y <= x,
        units64(x) <= 2 * units64(y),
    ensures
        representable((units64(x) - units64(y)) as nat),
{
    let (u, v) = (units64(x), units64(y));
    lemma_order(x, y);
    lemma_order(x, INFINITY64 as nat);
    lemma_parts(x);
    lemma_parts(y);
    let (m, n, j, k) = (significand(x), significand(y), scale(x), scale(y));
    lemma_scales(y, x);
    // Both are multiples of the scale of the smaller, and the difference is not above it.
    let d = (j - k) as nat;
    lemma_pow2_adds(d, k);
    let (p, q) = (pow2(k), pow2(d));
    assert(m * (q * p) == (m * q) * p) by (nonlinear_arith);
    let t = m * q - n;
    assert((m * q - n) * p == (m * q) * p - n * p) by (nonlinear_arith);
    lemma_pow2_pos(k);
    if t < 0 {
        lemma_mul_strict_inequality(t, 0, p as int);
    }
    lemma_mul_strict_inequality(n as int, 2 * HIDDEN64 as int, p as int);
    lemma_multiple_representable((u - v) as nat, t as nat, k);
}

/// The scale does not decrease with the pattern.
proof fn lemma_scales(x: nat, y: nat)
    requires
        x <= y,
    ensures
        scale(x) <= scale(y),
{
    let h = HIDDEN64 as int;
    vstd::arithmetic::div_mod::lemma_div_is_ordered(x as int, y as int, h);
}

/// Twice a representable integer is representable, below the overflow.
proof fn lemma_twice_representable(n: nat)
    requires
        representable(n),
        2 * n < units64(INFINITY64 as nat),
    ensures
        representable(2 * n),
{
    let mag = choose|mag: nat| mag < INFINITY64 && #[trigger] units64(mag) == n;
    lemma_doubled(mag);
    lemma_order(doubled(mag), INFINITY64 as nat);
    assert(units64(doubled(mag)) == 2 * n);
}

/// A sum of two values of one sign is at most twice the larger of them, also rounded.
proof fn lemma_rounded_growth(x: nat, n: nat)
    requires
        x < INFINITY64,
        units64(x) <= n <= 2 * units64(x),
        nearest(n, 1) < INFINITY64,
    ensures
        x <= nearest(n, 1),
        units64(nearest(n, 1)) <= 2 * units64(x),
{
    let u = units64(x);
    let s = nearest(n, 1);
    assert(representable(u));
    representable_values_are_not_rounded(u);
    lemma_order(x, nearest(u, 1));
    rounding_is_monotone(u, n, 1);
    lemma_order(s, INFINITY64 as nat);
    if 2 * u < units64(INFINITY64 as nat) {
        lemma_twice_representable(u);
        representable_values_are_not_rounded(2 * u);
        rounding_is_monotone(n, 2 * u, 1);
        lemma_order(s, nearest(2 * u, 1));
    }
}

/// A difference of at least half of the larger value stays so when it is rounded.
proof fn lemma_rounded_shrinkage(x: nat, n: nat)
    requires
        x < INFINITY64,
        units64(x) <= 2 * n,
        n <= units64(x),
    ensures
        nearest(n, 1) <= x,
        units64(x) <= 2 * units64(nearest(n, 1)),
{
    let u = units64(x);
    assert(representable(u));
    representable_values_are_not_rounded(u);
    lemma_order(x, nearest(u, 1));
    rounding_is_monotone(n, u, 1);
    lemma_parts(x);
    lemma_order(x, INFINITY64 as nat);
    let (m, k) = (significand(x), scale(x));
    vstd::arithmetic::power2::lemma2_to64();
    if k == 0 {
        assert(m * 1 == m) by (nonlinear_arith);
        assert(n * 1 == n) by (nonlinear_arith);
        lemma_representable(n, 0);
        representable_values_are_not_rounded(n);
    } else {
        lemma_pow2_unfold(k);
        let half = m * pow2((k - 1) as nat);
        assert(m * (2 * pow2((k - 1) as nat)) == 2 * (m * pow2((k - 1) as nat)))
            by (nonlinear_arith);
        lemma_representable(m, (k - 1) as nat);
        representable_values_are_not_rounded(half);
        rounding_is_monotone(half, n, 1);
        lemma_order(nearest(half, 1), nearest(n, 1));
    }
}

/// The rounded sum differs from the larger addend by a representable amount.
proof fn lemma_first_difference(a: Binary64, b: Binary64)
    requires
        a.is_finite(),
        b.is_finite(),
        a.magnitude() >= b.magnitude(),
        a.plus(b).is_finite(),
    ensures
        representable(size(a.value() - a.plus(b).value())),
{
    let s = a.plus(b);
    let (x, y, z) = (a.magnitude() as nat, b.magnitude() as nat, s.magnitude() as nat);
    let n = size(a.value() + b.value());
    lemma_sum_value(a, b);
    lemma_order(y, x);
    finite_values_are_representable(a);
    finite_values_are_representable(b);
    assert(units64(0) == 0);
    if a.negative() == b.negative() || b.units() == 0 {
        if n == 0 {
            assert(size(a.value() - s.value()) == 0);
            assert(representable(0));
        } else {
            lemma_rounded_growth(x, n);
            lemma_close_difference(z, x);
            lemma_order(x, z);
            assert(s.negative() == a.negative());
            assert(size(a.value() - s.value()) == units64(z) - units64(x));
        }
    } else if a.units() <= 2 * b.units() {
        lemma_close_difference(x, y);
        representable_sums_are_exact(a, b);
    } else {
        lemma_rounded_shrinkage(x, n);
        lemma_close_difference(x, z);
        lemma_order(z, x);
        assert(s.negative() == a.negative());
        assert(size(a.value() - s.value()) == units64(x) - units64(z));
    }
}

/// A value on at least the scale `k` is a multiple of `2^k`.
proof fn lemma_multiple(mag: nat, k: nat) -> (t: nat)
    requires
        k <= scale(mag),
    ensures
        units64(mag) == t * pow2(k),
{
    lemma_parts(mag);
    let (m, d) = (significand(mag), (scale(mag) - k) as nat);
    lemma_pow2_adds(d, k);
    let (p, q) = (pow2(k), pow2(d));
    assert(m * (q * p) == (m * q) * p) by (nonlinear_arith);
    m * q
}

/// What a rounded sum leaves out is representable.
proof fn lemma_rounding_error(a: Binary64, b: Binary64)
    requires
        a.is_finite(),
        b.is_finite(),
        a.magnitude() >= b.magnitude(),
        a.plus(b).is_finite(),
    ensures
        representable(size(a.value() + b.value() - a.plus(b).value())),
        size(a.value() + b.value() - a.plus(b).value()) <= b.units(),
{
    let s = a.plus(b);
    let (x, y, z) = (a.magnitude() as nat, b.magnitude() as nat, s.magnitude() as nat);
    let total = a.value() + b.value();
    let n = size(total);
    let k = scale(y);
    let p = pow2(k);
    lemma_pow2_pos(k);
    lemma_sum_value(a, b);
    every_ratio_has_a_nearest_value(n, 1);
    assert(units64(0) == 0);
    let (u, v, w) = (units64(x), units64(y), units64(z));
    assert(u * 1 == u && v * 1 == v && w * 1 == w) by (nonlinear_arith);
    let e = size(total - s.value());
    // The larger addend is itself a value, so the nearest one is no farther away.
    assert(e <= v) by {
        lemma_order(y, x);
        if x != z {
            assert(rounding::distance(z, n, 1) <= rounding::distance(x, n, 1));
        }
    }
    finite_values_are_representable(b);
    lemma_scales(y, x);
    let t1 = lemma_multiple(x, k);
    let t2 = lemma_multiple(y, k);
    let (i1, i2) = (
        if a.negative() {
            -(t1 as int)
        } else {
            t1 as int
        },
        if b.negative() {
            -(t2 as int)
        } else {
            t2 as int
        },
    );
    assert((-(t1 as int)) * p == -(t1 * p) && (-(t2 as int)) * p == -(t2 * p)) by (nonlinear_arith);
    assert((i1 + i2) * p == i1 * p + i2 * p) by (nonlinear_arith);
    assert(total == (i1 + i2) * p);
    assert((-(i1 + i2)) * p == -((i1 + i2) * p)) by (nonlinear_arith);
    let i = i1 + i2;
    assert(n == size(i) * p) by {
        if i < 0 {
            lemma_mul_strict_inequality(i, 0, p as int);
        } else {
            lemma_mul_inequality(0, i, p as int);
        }
    }
    let w2 = 2 * HIDDEN64 * p;
    if n < w2 && n < units64(INFINITY64 as nat) {
        lemma_multiple_representable(n, size(i), k);
        representable_sums_are_exact(a, b);
        assert(e == 0);
        assert(representable(0));
    } else {
        lemma_order(z, INFINITY64 as nat);
        lemma_parts(z);
        assert(w >= w2) by {
            if w2 < units64(INFINITY64 as nat) {
                lemma_pow2_unfold(k + 1);
                assert(HIDDEN64 * (2 * p) == 2 * HIDDEN64 * p) by (nonlinear_arith);
                lemma_representable(HIDDEN64 as nat, k + 1);
                representable_values_are_not_rounded(w2 as nat);
                rounding_is_monotone(w2 as nat, n, 1);
                lemma_order(nearest(w2 as nat, 1), z);
            } else {
                // Then the smaller addend is on the top scale, and so is the sum.
                lemma_parts(y);
                lemma_order(y, INFINITY64 as nat);
                if n >= units64(INFINITY64 as nat) {
                    assert(n * 1 == n) by (nonlinear_arith);
                    assert(units64(INFINITY64 as nat) * 1 == units64(INFINITY64 as nat))
                        by (nonlinear_arith);
                    rounding::lemma_overflow_is_nearest(n, 1);
                    lemma_nearest(INFINITY64 as nat, n, 1);
                }
            }
        }
        if scale(z) < k {
            vstd::arithmetic::power2::lemma_pow2_strictly_increases(scale(z), k);
            lemma_mul_strict_inequality(
                significand(z) as int,
                2 * HIDDEN64 as int,
                pow2(scale(z)) as int,
            );
            lemma_mul_inequality(pow2(scale(z)) as int, p as int, 2 * HIDDEN64 as int);
        }
        let t3 = lemma_multiple(z, k);
        let i3 = if s.negative() {
            -(t3 as int)
        } else {
            t3 as int
        };
        assert((-(t3 as int)) * p == -(t3 * p)) by (nonlinear_arith);
        assert((i - i3) * p == i * p - i3 * p) by (nonlinear_arith);
        assert((-(i - i3)) * p == -((i - i3) * p)) by (nonlinear_arith);
        assert(e == size(i - i3) * p) by {
            if i - i3 < 0 {
                lemma_mul_strict_inequality(i - i3, 0, p as int);
            } else {
                lemma_mul_inequality(0, i - i3, p as int);
            }
        }
        lemma_parts(y);
        lemma_mul_strict_inequality(significand(y) as int, 2 * HIDDEN64 as int, p as int);
        lemma_multiple_representable(e, size(i - i3), k);
    }
}

/// A positive integer lies between two neighbouring powers of two.
proof fn lemma_power_bracket(u: nat, top: nat) -> (l: nat)
    requires
        0 < u < pow2(top),
    ensures
        l < top,
        pow2(l) <= u < pow2(l + 1),
    decreases top,
{
    vstd::arithmetic::power2::lemma2_to64();
    assert(top > 0);
    if pow2((top - 1) as nat) <= u {
        (top - 1) as nat
    } else {
        lemma_power_bracket(u, (top - 1) as nat)
    }
}

/// The exponent of a finite nonzero value brackets its magnitude.
pub proof fn every_finite_value_has_an_exponent(x: Binary64)
    requires
        x.is_finite(),
        x.magnitude() != 0,
    ensures
        x.has_exponent(x.exponent()),
{
    vstd::arithmetic::power2::lemma2_to64_rest();
    lemma_pow2_adds(52, 2046);
    assert(units64(INFINITY64 as nat) == (HIDDEN64 + 0) * pow2(2046));
    lemma_order(x.magnitude() as nat, INFINITY64 as nat);
    assert(units64(0) == 0);
    lemma_order(0, x.magnitude() as nat);
    let l = lemma_power_bracket(x.units(), 2098);
    let e = (l - 1074) as i32;
    assert(x.has_exponent(e));
    x.lemma_exponent(e);
}

/// Scaling up by a power of two is exact, below the overflow.
pub proof fn scaling_up_is_exact(x: Binary64, n: i32)
    requires
        x.is_finite(),
        n >= 0,
        x.units() * pow2(n as nat) < units64(INFINITY64 as nat),
    ensures
        x.scaled(n).is_finite(),
        x.scaled(n).negative() == x.negative(),
        x.scaled(n).units() == x.units() * pow2(n as nat),
{
    let mag = x.magnitude() as nat;
    lemma_parts(mag);
    let (m, k, p, q) = (
        significand(mag),
        scale(mag),
        pow2(scale(mag)),
        pow2(n as nat),
    );
    lemma_pow2_adds(k, n as nat);
    assert((m * p) * q == m * (p * q)) by (nonlinear_arith);
    lemma_representable(m, k + n as nat);
    representable_values_are_not_rounded(x.units() * q);
    lemma_signed_value(x.negative(), nearest(x.units() * q, 1));
}

/// Scaling by any power of two is exact where the result is representable.
pub proof fn representable_scalings_are_exact(x: Binary64, n: i32, m: nat)
    requires
        x.is_finite(),
        representable(m),
        m * rounding::scale_down(n as int) == x.units() * rounding::scale_up(n as int),
    ensures
        x.scaled(n).is_finite(),
        x.scaled(n).negative() == x.negative(),
        x.scaled(n).units() == m,
{
    let (up, down) = (rounding::scale_up(n as int), rounding::scale_down(n as int));
    if n < 0 {
        lemma_pow2_pos((-n) as nat);
    }
    let a = x.units() * up;
    assert(a * 1 == a) by (nonlinear_arith);
    nearest_depends_on_the_ratio(a, down, m, 1);
    representable_values_are_not_rounded(m);
    lemma_signed_value(x.negative(), nearest(m, 1));
}

/// Scaling by `2^0` changes nothing.
pub proof fn scaling_by_one_is_the_identity(x: Binary64)
    ensures
        x.scaled(0) == x,
{
    if x.is_finite() {
        vstd::arithmetic::power2::lemma2_to64();
        finite_values_are_representable(x);
        let u = x.units();
        assert(u * 1 == u) by (nonlinear_arith);
        representable_scalings_are_exact(x, 0, u);
        lemma_order(x.magnitude() as nat, x.scaled(0).magnitude() as nat);
    }
}

/// The error of a rounded sum, computed from the larger addend down, is exact.
pub proof fn lemma_fast_two_sum(a: Binary64, b: Binary64)
    requires
        a.is_finite(),
        b.is_finite(),
        a.magnitude() >= b.magnitude(),
        a.plus(b).is_finite(),
    ensures
        a.minus(a.plus(b)).plus(b).is_finite(),
        a.minus(a.plus(b)).plus(b).value() == a.value() + b.value() - a.plus(b).value(),
        size(a.value() + b.value() - a.plus(b).value()) <= b.units(),
{
    let s = a.plus(b);
    lemma_first_difference(a, b);
    lemma_rounding_error(a, b);
    lemma_negated_value(s);
    representable_sums_are_exact(a, s.negated());
    representable_sums_are_exact(a.minus(s), b);
}

} // verus!
