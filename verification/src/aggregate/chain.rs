//! How far the powers of a complement are from the ideal ones.
//!
//! The complement of a smoothing factor is rounded, and so is every power of it: relatively
//! in the normal range, and by half a least positive number below it.
use vstd::arithmetic::mul::{lemma_mul_inequality, lemma_mul_upper_bound};
use vstd::arithmetic::power2::{
    lemma_pow2_adds, lemma_pow2_pos, lemma_pow2_strictly_increases, lemma_pow2_unfold, pow2,
};
use vstd::prelude::*;

use crate::aggregate::accuracy::MANY;
use crate::aggregate::ema::{alpha_in_range, power};
use crate::aggregate::laws::{self, one};
use crate::arith::nearest;
use crate::binary::{Binary64, HIDDEN64, INFINITY64, ONE64};
use crate::close::lemma_size_times;
use crate::exact::{self, size};
use crate::rounding::{self, units64};
use crate::roundoff::{self, PRECISION};

verus! {

/// The `k`-th power of `x`.
pub open spec fn raised(x: nat, k: nat) -> nat
    decreases k,
{
    if k == 0 {
        1
    } else {
        raised(x, (k - 1) as nat) * x
    }
}

/// The value one in least positive numbers.
pub open spec fn unit() -> nat {
    pow2(1074)
}

/// The complement of a smoothing factor.
pub open spec fn complement(alpha: Binary64) -> Binary64 {
    one().minus(alpha)
}

/// The exact complement of a smoothing factor, in least positive numbers.
pub open spec fn exact_complement(alpha: Binary64) -> nat {
    (unit() - alpha.units()) as nat
}

/// A value between one half and one is a multiple of `2^-53`.
pub proof fn lemma_grid_below_one(mag: nat) -> (m: nat)
    requires
        pow2(1073) <= units64(mag) < pow2(1074),
    ensures
        units64(mag) == m * pow2(1021),
        m < 0x20_0000_0000_0000,
{
    exact::lemma_parts(mag);
    let (s, e) = (exact::significand(mag), exact::scale(mag));
    vstd::arithmetic::power2::lemma2_to64_rest();
    lemma_pow2_pos(e);
    if e < 1021 {
        if e < 1020 {
            lemma_pow2_strictly_increases(e, 1020);
        }
        lemma_pow2_pos(1020);
        lemma_pow2_adds(53, 1020);
        assert(s * pow2(e) < pow2(53) * pow2(1020)) by {
            lemma_mul_inequality(pow2(e) as int, pow2(1020) as int, s as int);
            assert(pow2(e) * s == s * pow2(e) && pow2(1020) * s == s * pow2(1020))
                by (nonlinear_arith);
            vstd::arithmetic::mul::lemma_mul_strict_inequality(
                s as int,
                pow2(53) as int,
                pow2(1020) as int,
            );
        }
    } else if e > 1021 {
        lemma_pow2_adds(52, 1022);
        if e > 1022 {
            lemma_pow2_strictly_increases(1022, e);
        }
        lemma_mul_upper_bound(HIDDEN64 as int, s as int, pow2(1022) as int, pow2(e) as int);
    }
    s
}

/// The rounding of an integer of at most one: within half a step below one.
proof fn lemma_below_one(n: nat)
    requires
        n <= unit(),
    ensures
        units64(nearest(n, 1)) <= unit(),
        size(units64(nearest(n, 1)) - n) <= pow2(1020),
{
    let s = units64(nearest(n, 1));
    roundoff::lemma_power_value(1074);
    exact::rounding_is_monotone(n, unit(), 1);
    exact::lemma_order(nearest(n, 1), nearest(unit(), 1));
    exact::lemma_order(nearest(unit(), 1), nearest(n, 1));
    lemma_pow2_strictly_increases(1074, 2097);
    roundoff::rounding_error_is_relative(n);
    vstd::arithmetic::power2::lemma2_to64_rest();
    lemma_pow2_adds(53, 1020);
    lemma_pow2_unfold(1074);
    lemma_pow2_unfold(1021);
    let half = pow2(1020);
    let step = pow2(1021);
    lemma_pow2_pos(1020);
    if n <= pow2(1073) {
        let d = size(n - s);
        if d > half {
            lemma_mul_inequality(half as int + 1, d as int, PRECISION as int);
        }
    } else {
        // The multiples of the step next to the integer are values.
        lemma_pow2_adds(53, 1021);
        let m = n / step;
        vstd::arithmetic::div_mod::lemma_fundamental_div_mod(n as int, step as int);
        vstd::arithmetic::div_mod::lemma_mod_bound(n as int, step as int);
        let r = n % step;
        assert(n == m * step + r) by (nonlinear_arith)
            requires
                n == step * (n as int / step as int) + (n as int % step as int),
                m == n / step,
                r == n % step,
        ;
        assert(m <= 0x20_0000_0000_0000) by {
            if m > 0x20_0000_0000_0000 {
                lemma_mul_inequality(0x20_0000_0000_0001, m as int, step as int);
            }
        }
        let k = if r <= half {
            m
        } else {
            m + 1
        };
        let v = k * step;
        assert(size(v - n) <= half) by {
            assert((m + 1) * step == m * step + step) by (nonlinear_arith);
        }
        assert(k <= 0x20_0000_0000_0000) by {
            if m == 0x20_0000_0000_0000 {
                assert(r == 0);
            }
        }
        lemma_step_value(k);
        let mag = nearest(v, 1);
        assert(n * 1 == n && s * 1 == s && v * 1 == v) by (nonlinear_arith);
        exact::every_ratio_has_a_nearest_value(n, 1);
        if mag != nearest(n, 1) {
            assert(rounding::distance(nearest(n, 1), n, 1) <= rounding::distance(mag, n, 1));
        }
    }
}

/// A multiple of `2^-53` of at most one is a value.
proof fn lemma_step_value(k: nat)
    requires
        k <= 0x20_0000_0000_0000,
    ensures
        nearest(k * pow2(1021), 1) < INFINITY64,
        units64(nearest(k * pow2(1021), 1)) == k * pow2(1021),
{
    roundoff::lemma_top();
    vstd::arithmetic::power2::lemma2_to64_rest();
    lemma_pow2_adds(53, 1021);
    lemma_pow2_strictly_increases(1074, 2098);
    lemma_mul_inequality(k as int, 0x20_0000_0000_0000, pow2(1021) as int);
    if k < 0x20_0000_0000_0000 {
        exact::lemma_representable(k, 1021);
    } else {
        assert(1 * pow2(1074) == pow2(1074)) by (nonlinear_arith);
        exact::lemma_representable(1, 1074);
    }
    exact::representable_values_are_not_rounded(k * pow2(1021));
}

/// The complement of a smoothing factor between zero and one.
pub proof fn lemma_complement(alpha: Binary64)
    requires
        alpha_in_range(alpha),
    ensures
        alpha.is_finite(),
        alpha.negative() ==> alpha.units() == 0,
        alpha.units() <= unit(),
        complement(alpha).is_finite(),
        !complement(alpha).negative(),
        complement(alpha).units() == units64(nearest(exact_complement(alpha), 1)),
        complement(alpha).units() <= unit(),
        size(complement(alpha).units() - exact_complement(alpha)) * PRECISION
            <= exact_complement(alpha),
        size(complement(alpha).units() - exact_complement(alpha)) <= pow2(1020),
        complement(alpha).units() < unit() ==> complement(alpha).units() + pow2(1021) <= unit(),
        complement(alpha).units() + pow2(1021) < unit() ==> complement(alpha).units() + pow2(1022)
            <= unit(),
{
    laws::lemma_one_units();
    assert(units64(0) == 0);
    assert(alpha.is_finite());
    exact::lemma_order(ONE64 as nat, alpha.magnitude() as nat);
    exact::lemma_order(0, alpha.magnitude() as nat);
    let (a, n) = (alpha.units(), exact_complement(alpha));
    exact::lemma_negated_value(alpha);
    let minus = alpha.negated();
    assert(minus.is_finite()) by {
        exact::lemma_signed_value(!alpha.negative(), alpha.magnitude() as nat);
    }
    assert(one().value() + minus.value() == n);
    exact::lemma_sum_value(one(), minus);
    let b = complement(alpha);
    assert(b == one().plus(minus));
    if n == 0 {
        exact::lemma_signed_value(false, 0);
    }
    lemma_pow2_strictly_increases(1074, 2097);
    roundoff::rounding_error_is_relative(n);
    lemma_below_one(n);
    assert(size(b.units() - n) == size(n - b.units()));
    // Below one, what is left is a multiple of the step.
    lemma_pow2_unfold(1074);
    lemma_pow2_unfold(1022);
    lemma_pow2_strictly_increases(1022, 1073);
    if pow2(1073) <= b.units() < unit() {
        let m = lemma_grid_below_one(b.magnitude() as nat);
        vstd::arithmetic::power2::lemma2_to64_rest();
        lemma_pow2_adds(53, 1021);
        let left = (0x20_0000_0000_0000 - m) as nat;
        let step = pow2(1021);
        assert(0x20_0000_0000_0000nat * step == m * step + left * step) by (nonlinear_arith)
            requires
                0x20_0000_0000_0000nat == m + left,
        ;
        lemma_mul_inequality(1, left as int, step as int);
        if left >= 2 {
            lemma_mul_inequality(2, left as int, step as int);
        } else {
            assert(1 * step == step) by (nonlinear_arith);
        }
    }
}

/// One more power: no larger than the last, and rounded.
pub proof fn lemma_power_step(b: Binary64, k: nat)
    requires
        b.is_finite(),
        !b.negative(),
        b.units() <= unit(),
        power(b, k).is_finite(),
        !power(b, k).negative(),
        power(b, k).units() <= unit(),
    ensures
        ({
            let (p, r) = (power(b, k).units(), power(b, k + 1).units());
            let d = size(r * unit() - p * b.units());
            &&& power(b, k + 1).is_finite()
            &&& !power(b, k + 1).negative()
            &&& r == units64(nearest(p * b.units(), unit()))
            &&& r <= p
            &&& r >= HIDDEN64 ==> d * PRECISION <= r * unit()
            &&& r < HIDDEN64 ==> 2 * d <= unit()
        }),
{
    let (x, u) = (power(b, k), b.units());
    let p = x.units();
    let t = unit();
    lemma_pow2_pos(1074);
    lemma_pow2_strictly_increases(1074, 2097);
    lemma_mul_upper_bound(p as int, pow2(2097) as int, u as int, t as int);
    roundoff::lemma_product_error(x, b);
    assert(power(b, k + 1) == x.times(b));
    // At most the last power.
    lemma_mul_inequality(u as int, t as int, p as int);
    assert(u * p == p * u && t * p == p * t) by (nonlinear_arith);
    exact::rounding_is_monotone(p * u, p * t, t);
    assert((p * t) * 1 == p * t) by (nonlinear_arith);
    exact::nearest_depends_on_the_ratio(p * t, t, p, 1);
    laws::lemma_own_magnitude(x);
    exact::every_ratio_has_a_nearest_value(p * u, t);
    exact::lemma_signed_value(false, nearest(p * u, t));
    exact::lemma_order(x.magnitude() as nat, nearest(p * u, t));
    exact::lemma_order(nearest(p * u, t), x.magnitude() as nat);
}

/// The scale of the relative errors: `2^20` half units of roundoff.
pub open spec fn parts() -> nat {
    0x2_000000_000000_000000
}

/// The relative error of the `k`-th power, in those parts: two half units of roundoff, and
/// little more, for each step.
pub open spec fn drift(k: nat) -> nat {
    0x20_0001 * k
}

/// The arithmetic of one step in the normal range.
#[verifier::spinoff_prover]
proof fn lemma_normal_step(
    p: nat,
    b: nat,
    e: nat,
    t: nat,
    tk: nat,
    q: nat,
    g: nat,
    r: nat,
)
    requires
        g <= 0x8_0000_0000_0000,
        size(b - e) * PRECISION <= e,
        size(p * tk - q) * parts() <= g * q,
        size(r * t - p * b) * PRECISION <= r * t,
    ensures
        size(r * (tk * t) - q * e) * parts() <= (g + 0x20_0001) * (q * e),
{
    let pr = PRECISION as nat;
    let d = r * t - p * b;
    let err = p * tk - q;
    let (ds, es, bs) = (size(d), size(err), size(b - e));
    assert(r * (tk * t) - q * e == d * tk + b * err + q * (b - e)) by (nonlinear_arith)
        requires
            d == r * t - p * b,
            err == p * tk - q,
    ;
    let (dt, eb, qb) = (ds * tk, es * b, q * bs);
    lemma_size_times(d, tk);
    lemma_size_times(err, b);
    assert(b * err == err * b) by (nonlinear_arith);
    lemma_size_times(b - e, q);
    assert(q * (b - e) == (b - e) * q && q * bs == bs * q) by (nonlinear_arith);
    let x = size(r * (tk * t) - q * e);
    assert(x <= dt + eb + qb);
    let whole = q * e;
    let qc = q * b;
    // The complement's own error.
    assert(qb * pr <= whole) by (nonlinear_arith)
        requires
            bs * pr <= e,
            qb == q * bs,
            whole == q * e,
    ;
    assert(qc <= whole + qb) by (nonlinear_arith)
        requires
            b <= e + bs,
            qc == q * b,
            whole == q * e,
            qb == q * bs,
    ;
    // The last error, carried on.
    assert(eb * parts() <= g * qc) by (nonlinear_arith)
        requires
            es * parts() <= g * q,
            eb == es * b,
            qc == q * b,
    ;
    let gw = g * whole;
    assert(g * qc <= gw + g * qb) by (nonlinear_arith)
        requires
            qc <= whole + qb,
            gw == g * whole,
    ;
    lemma_mul_inequality(g as int, 0x8_0000_0000_0000, qb as int);
    lemma_mul_inequality(g as int, 0x8_0000_0000_0000, whole as int);
    assert(4 * (g * qb) <= whole);
    assert(4 * (eb * parts()) <= 4 * gw + whole);
    // The rounding of this step.
    assert(ds * (pr - 1) <= p * b);
    assert((ds * (pr - 1)) * tk <= (p * b) * tk) by (nonlinear_arith)
        requires
            ds * (pr - 1) <= p * b,
    ;
    assert((ds * (pr - 1)) * tk == dt * (pr - 1)) by (nonlinear_arith)
        requires
            dt == ds * tk,
    ;
    let pt = p * tk;
    assert((p * b) * tk == pt * b) by (nonlinear_arith)
        requires
            pt == p * tk,
    ;
    assert(pt * b <= (q + es) * b) by (nonlinear_arith)
        requires
            pt <= q + es,
    ;
    assert((q + es) * b == qc + eb) by (nonlinear_arith)
        requires
            qc == q * b,
            eb == es * b,
    ;
    assert(dt * (pr - 1) <= qc + eb);
    assert(4 * (dt * parts()) <= 4 * (0x10_0000 * whole) + 2 * whole);
    assert((g + 0x20_0001) * whole == gw + 0x20_0001 * whole) by (nonlinear_arith)
        requires
            gw == g * whole,
    ;
}

/// The arithmetic of one step below the normal range.
#[verifier::spinoff_prover]
proof fn lemma_subnormal_step(
    p: nat,
    b: nat,
    e: nat,
    t: nat,
    tk: nat,
    q: nat,
    g: nat,
    r: nat,
    v: nat,
)
    requires
        b + v == t,
        g <= 0x8_0000_0000_0000,
        size(b - e) * PRECISION <= e,
        2 * (size(p * tk - q) * parts()) * v <= 2 * (g * q) * v + parts() * (t * tk),
        2 * size(r * t - p * b) <= t,
    ensures
        2 * (size(r * (tk * t) - q * e) * parts()) * v <= 2 * ((g + 0x20_0001) * (q * e)) * v
            + parts() * (t * (tk * t)),
{
    let pr = PRECISION as nat;
    let m = parts();
    let d = r * t - p * b;
    let err = p * tk - q;
    let (ds, es, bs) = (size(d), size(err), size(b - e));
    assert(r * (tk * t) - q * e == d * tk + b * err + q * (b - e)) by (nonlinear_arith)
        requires
            d == r * t - p * b,
            err == p * tk - q,
    ;
    let (dt, eb, qb) = (ds * tk, es * b, q * bs);
    lemma_size_times(d, tk);
    lemma_size_times(err, b);
    assert(b * err == err * b) by (nonlinear_arith);
    lemma_size_times(b - e, q);
    assert(q * (b - e) == (b - e) * q && q * bs == bs * q) by (nonlinear_arith);
    let x = size(r * (tk * t) - q * e);
    assert(x <= dt + eb + qb);
    let whole = q * e;
    let qc = q * b;
    assert(qb * pr <= whole) by (nonlinear_arith)
        requires
            bs * pr <= e,
            qb == q * bs,
            whole == q * e,
    ;
    assert(qc <= whole + qb) by (nonlinear_arith)
        requires
            b <= e + bs,
            qc == q * b,
            whole == q * e,
            qb == q * bs,
    ;
    let gw = g * whole;
    assert(g * qc <= gw + g * qb) by (nonlinear_arith)
        requires
            qc <= whole + qb,
            gw == g * whole,
    ;
    lemma_mul_inequality(g as int, 0x8_0000_0000_0000, qb as int);
    assert(4 * (g * qb) <= whole);
    // The three errors, each times `2 * parts * v`.
    let (gq, tt) = (g * q, t * tk);
    let last = 2 * (es * m) * v;
    assert(last <= 2 * gq * v + m * tt);
    assert(last * b <= (2 * gq * v + m * tt) * b) by (nonlinear_arith)
        requires
            last <= 2 * gq * v + m * tt,
    ;
    assert(last * b == 2 * (eb * m) * v) by (nonlinear_arith)
        requires
            last == 2 * (es * m) * v,
            eb == es * b,
    ;
    assert((2 * gq * v + m * tt) * b == 2 * (g * qc) * v + (m * tt) * b) by (nonlinear_arith)
        requires
            gq == g * q,
            qc == q * b,
    ;
    assert(2 * (dt * m) * v <= (m * tt) * v) by (nonlinear_arith)
        requires
            2 * ds <= t,
            dt == ds * tk,
            tt == t * tk,
    ;
    assert((m * tt) * v + (m * tt) * b == m * (t * (tk * t))) by (nonlinear_arith)
        requires
            b + v == t,
            tt == t * tk,
    ;
    // Relative parts.
    let goal = (g + 0x20_0001) * whole;
    assert(goal == gw + 0x20_0001 * whole) by (nonlinear_arith)
        requires
            goal == (g + 0x20_0001) * whole,
            gw == g * whole,
    ;
    assert(qb * m <= 0x10_0000 * whole);
    let (y, z) = (g * qc, qb * m);
    assert(y + z <= goal);
    assert(2 * y * v + 2 * z * v <= 2 * goal * v) by (nonlinear_arith)
        requires
            y + z <= goal,
    ;
    assert(2 * (x * m) * v <= 2 * (dt * m) * v + 2 * (eb * m) * v + 2 * (qb * m) * v)
        by (nonlinear_arith)
        requires
            x <= dt + eb + qb,
    ;
}

/// The `k`-th power of the complement against the ideal one: within `2k` half units of
/// roundoff of it in the normal range, and below it off by at most half of the sum of the
/// powers besides.
#[verifier::spinoff_prover]
#[verifier::rlimit(50)]
pub proof fn lemma_chain(b: Binary64, e: nat, k: nat)
    requires
        b.is_finite(),
        !b.negative(),
        b.units() <= unit(),
        size(b.units() - e) * PRECISION <= e,
        k <= MANY,
    ensures
        ({
            let p = power(b, k);
            let q = unit() * raised(e, k);
            let err = size(p.units() * raised(unit(), k) - q);
            &&& p.is_finite()
            &&& !p.negative()
            &&& p.units() <= unit()
            &&& p.units() >= HIDDEN64 ==> err * parts() <= drift(k) * q
            &&& 2 * (err * parts()) * (unit() - b.units()) <= 2 * (drift(k) * q) * (unit()
                - b.units()) + parts() * (unit() * raised(unit(), k))
        }),
    decreases k,
{
    let t = unit();
    let v = (t - b.units()) as nat;
    if k == 0 {
        laws::lemma_one_units();
        assert(t * 1 == t) by (nonlinear_arith);
        assert(0 * parts() == 0 && 0 * v == 0) by (nonlinear_arith);
        assert(0 * t == 0) by (nonlinear_arith);
    } else {
        let h = (k - 1) as nat;
        lemma_chain(b, e, h);
        lemma_power_step(b, h);
        let (p, r, u) = (power(b, h).units(), power(b, k).units(), b.units());
        let (tk, q) = (raised(t, h), t * raised(e, h));
        let g = drift(h);
        let rk = raised(e, h);
        assert(q * e == t * (rk * e)) by (nonlinear_arith)
            requires
                q == t * rk,
        ;
        assert(drift(k) == g + 0x20_0001);
        let err = size(r * (tk * t) - q * e);
        if r >= HIDDEN64 {
            lemma_normal_step(p, u, e, t, tk, q, g, r);
            let goal = drift(k) * (q * e);
            assert(2 * (err * parts()) * v <= 2 * goal * v) by (nonlinear_arith)
                requires
                    err * parts() <= goal,
            ;
            assert(0 <= parts() * (t * (tk * t))) by (nonlinear_arith);
        } else {
            lemma_subnormal_step(p, u, e, t, tk, q, g, r, v);
        }
    }
}

} // verus!
