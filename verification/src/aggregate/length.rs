//! The length of a vector, and of a normalized one.
use vstd::arithmetic::mul::{lemma_mul_inequality, lemma_mul_strictly_positive};
use vstd::arithmetic::power2::{
    lemma_pow2_adds, lemma_pow2_pos, lemma_pow2_strictly_increases, lemma_pow2_unfold, pow2,
};
use vstd::prelude::*;

use crate::aggregate::bounds::{self, energy, VAST};
use crate::aggregate::fold::{folded, weighted_sum};
use crate::aggregate::laws::one;
use crate::aggregate::norm::{direction, largest, norm, scale_of, squares};
use crate::arith::nearest;
use crate::binary::{Binary64, HIDDEN64};
use crate::close::{self, close, lemma_size_times, near};
use crate::error::WinditError;
use crate::exact::{self, size};
use crate::rounding::{self, units64};
use crate::roundoff::{self, PRECISION};

verus! {

/// The components of `v` divided by `2^e`.
pub open spec fn ratios(v: Seq<Binary64>, e: i32) -> Seq<Binary64> {
    Seq::new(v.len(), |i: int| v[i].over(one().scaled(e)))
}

/// The components of `v` divided by `x`.
pub open spec fn quotients(v: Seq<Binary64>, x: Binary64) -> Seq<Binary64> {
    Seq::new(v.len(), |i: int| v[i].over(x))
}

/// Whether every component is finite and at most twice `x` in magnitude.
#[verifier::opaque]
pub open spec fn within(v: Seq<Binary64>, x: Binary64) -> bool {
    forall|i: int|
        0 <= i < v.len() ==> (#[trigger] v[i]).is_finite() && v[i].units() <= 2 * x.units()
}

/// One quotient: finite, and close to the exact one in its square.
pub(crate) proof fn lemma_quotient(y: Binary64, x: Binary64)
    requires
        x.is_finite(),
        !x.negative(),
        x.units() >= 1,
        y.is_finite(),
        y.units() <= 2 * x.units(),
    ensures
        ({
            let q = y.over(x).units();
            let (u, g, t) = (y.units(), x.units(), pow2(1074));
            &&& y.over(x).is_finite()
            &&& q <= pow2(1075)
            &&& size((q * q) * (g * g) - (u * t) * (u * t)) * PRECISION <= 6 * ((u * t) * (u * t))
                + 8 * (PRECISION * (t * (g * g)))
        }),
{
    let (u, g, t) = (y.units(), x.units(), pow2(1074));
    lemma_pow2_pos(1074);
    assert(units64(0) == 0);
    exact::lemma_order(0, x.magnitude() as nat);
    lemma_pow2_unfold(1075);
    let a = u * t;
    lemma_mul_inequality(u as int, (2 * g) as int, t as int);
    exact::rounding_is_monotone(a, (2 * g) * t, g);
    assert(((2 * g) * t) * 1 == (2 * t) * g) by (nonlinear_arith);
    exact::nearest_depends_on_the_ratio((2 * g) * t, g, 2 * t, 1);
    roundoff::lemma_power_value(1075);
    exact::lemma_order(nearest(a, g), nearest(pow2(1075), 1));
    exact::lemma_order(nearest(pow2(1075), 1), nearest(a, g));
    exact::lemma_signed_value(y.negative() != x.negative(), nearest(a, g));
    bounds::lemma_ratio_error(a, g);
    bounds::lemma_ratio_square(u, g, t, y.over(x).units());
}

/// The energy of the quotients of a vector.
proof fn lemma_quotient_energy(v: Seq<Binary64>, x: Binary64)
    requires
        x.is_finite(),
        !x.negative(),
        x.units() >= 1,
        within(v, x),
    ensures
        ({
            let (g, t) = (x.units(), pow2(1074));
            let exact = energy(v) * (t * t);
            size(energy(quotients(v, x)) * (g * g) - exact) * PRECISION <= 6 * exact + v.len() * (8
                * (PRECISION * (t * (g * g))))
        }),
    decreases v.len(),
{
    let (g, t) = (x.units(), pow2(1074));
    let (g2, t2) = (g * g, t * t);
    let k = 8 * (PRECISION * (t * g2));
    reveal(within);
    if v.len() == 0 {
        assert(0 * g2 == 0 && 0 * t2 == 0 && 0 * k == 0) by (nonlinear_arith);
    } else {
        let rest = v.drop_last();
        assert(within(rest, x)) by {
            assert forall|i: int| 0 <= i < rest.len() implies (#[trigger] rest[i]).is_finite()
                && rest[i].units() <= 2 * x.units() by {
                assert(rest[i] == v[i]);
            }
        }
        lemma_quotient_energy(rest, x);
        let y = v.last();
        assert(v[v.len() - 1] == y);
        lemma_quotient(y, x);
        let (u, q) = (y.units(), y.over(x).units());
        assert(quotients(v, x).drop_last() =~= quotients(rest, x));
        assert(quotients(v, x).last() == y.over(x));
        let (a, b) = (energy(quotients(rest, x)), energy(rest));
        assert((a + q * q) * g2 == a * g2 + (q * q) * g2) by (nonlinear_arith);
        assert((b + u * u) * t2 == b * t2 + (u * t) * (u * t)) by (nonlinear_arith)
            requires
                t2 == t * t,
        ;
        assert(v.len() * k == rest.len() * k + k) by (nonlinear_arith)
            requires
                v.len() == rest.len() + 1,
        ;
    }
}

/// The arithmetic of the energy of quotients: `a` on the scale `g` against `n`, which is not
/// small on it.
proof fn lemma_near_energy(a: nat, n: nat, dim: nat, g2: nat, t: nat)
    requires
        dim <= VAST,
        t == pow2(1074),
        g2 <= n * pow2(50),
        ({
            let exact = n * (t * t);
            size(a * g2 - exact) * PRECISION <= 6 * exact + dim * (8 * (PRECISION * (t * g2)))
        }),
    ensures
        near(a * g2, n * (t * t), 7),
{
    let p = PRECISION as nat;
    let exact = n * (t * t);
    let tg = t * g2;
    assert(dim * (8 * (p * tg)) <= VAST * (8 * (p * tg))) by (nonlinear_arith)
        requires
            dim <= VAST,
    ;
    lemma_pow2_pos(1074);
    // `t * g2 * 2^100 <= n * t * t`.
    vstd::arithmetic::power2::lemma2_to64();
    vstd::arithmetic::power2::lemma2_to64_rest();
    lemma_pow2_adds(50, 100);
    lemma_pow2_strictly_increases(150, 1074);
    let big = pow2(100);
    let m = n * pow2(50);
    assert(t * g2 <= t * m) by (nonlinear_arith)
        requires
            g2 <= m,
    ;
    assert(tg * big <= (t * m) * big) by (nonlinear_arith)
        requires
            tg <= t * m,
    ;
    assert((t * m) * big == (n * t) * (pow2(50) * big)) by (nonlinear_arith)
        requires
            m == n * pow2(50),
    ;
    assert((n * t) * (pow2(50) * big) <= (n * t) * t) by (nonlinear_arith)
        requires
            pow2(50) * big <= t,
    ;
    assert((n * t) * t == exact) by (nonlinear_arith)
        requires
            exact == n * (t * t),
    ;
    lemma_pow2_adds(53, 47);
    assert(VAST * (8 * (p * tg)) == tg * big) by (nonlinear_arith)
        requires
            big == pow2(53) * pow2(47),
            pow2(53) == p,
            pow2(47) == 0x8000_0000_0000,
    ;
}

/// The arithmetic of the error of a sum of squares, in half units of roundoff.
proof fn lemma_near_squares(dim: nat, sum: nat, grid: nat, n: nat, t: nat)
    requires
        dim <= VAST,
        grid <= n,
        t == pow2(1074),
        size(sum * grid - n * t) * PRECISION <= (16 + 2 * dim) * (n * t) + 32 * (dim * (PRECISION
            * grid)),
    ensures
        near(sum * grid, n * t, 17 + 2 * dim),
{
    let p = PRECISION as nat;
    vstd::arithmetic::power2::lemma2_to64();
    vstd::arithmetic::power2::lemma2_to64_rest();
    lemma_pow2_adds(53, 49);
    lemma_pow2_strictly_increases(102, 1074);
    assert(dim * (p * grid) <= VAST * (p * n)) by (nonlinear_arith)
        requires
            dim <= VAST,
            grid <= n,
    ;
    assert(32 * (VAST * (p * n)) == n * pow2(102)) by (nonlinear_arith)
        requires
            pow2(102) == pow2(53) * pow2(49),
            pow2(53) == p,
            pow2(49) == 0x2_0000_0000_0000,
    ;
    assert(n * pow2(102) <= n * t) by (nonlinear_arith)
        requires
            pow2(102) <= t,
    ;
    let exact = n * t;
    assert((17 + 2 * dim) * exact == (16 + 2 * dim) * exact + exact) by (nonlinear_arith);
}

/// What the norm of a vector with its scale divided out is: a number between one and `2^23`
/// whose square, on the scale of the vector, is near the exact sum of the squares.
#[verifier::spinoff_prover]
#[verifier::rlimit(40)]
pub(crate) proof fn lemma_scaled_norm(v: Seq<Binary64>)
    requires
        v.len() <= VAST,
        forall|i: int| 0 <= i < v.len() ==> (#[trigger] v[i]).is_finite(),
        0 < largest(v).units(),
    ensures
        ({
            let e = largest(v).exponent();
            let x = squares(v, one().scaled(e)).root();
            let (g, t, u) = (pow2((e + 1074) as nat), pow2(1074), x.units());
            &&& -1074 <= e <= 1023
            &&& scale_of(v) == Some(e)
            &&& g <= largest(v).units() < 2 * g
            &&& 0 < g * g <= energy(v)
            &&& x.is_finite()
            &&& !x.negative()
            &&& t <= u <= pow2(1097)
            &&& near((u * u) * (g * g), energy(v) * (t * t), 26 + 2 * v.len())
        }),
{
    let t = pow2(1074);
    lemma_pow2_pos(1074);
    bounds::lemma_largest_is_attained(v);
    assert(units64(0) == 0);
    exact::lemma_order(0, largest(v).magnitude() as nat);
    exact::every_finite_value_has_an_exponent(largest(v));
    let e = largest(v).exponent();
    let g = pow2((e + 1074) as nat);
    lemma_pow2_pos((e + 1074) as nat);
    lemma_pow2_unfold((e + 1075) as nat);
    bounds::lemma_vector_fits(v, e);
    let at = choose|i: int| 0 <= i < v.len() && (#[trigger] v[i]).units() == largest(v).units();
    bounds::lemma_squares(v, e, at);
    bounds::lemma_squares_accuracy(v, e);
    bounds::lemma_energy_contains(v, at);
    bounds::lemma_scale_is_found(v, e);
    let sum = squares(v, one().scaled(e));
    let (q, n) = (sum.units(), energy(v));
    let l = largest(v).units();
    vstd::arithmetic::mul::lemma_mul_upper_bound(g as int, l as int, g as int, l as int);
    lemma_mul_strictly_positive(g as int, g as int);
    lemma_near_squares(v.len(), q, g * g, n, t);
    let p4 = pow2(1076);
    lemma_mul_inequality(v.len() as int, VAST as int, p4 as int);
    vstd::arithmetic::power2::lemma2_to64();
    vstd::arithmetic::power2::lemma2_to64_rest();
    lemma_pow2_adds(44, 1076);
    bounds::lemma_root_between(sum, 23);
    bounds::lemma_root_accuracy(sum, 23);
    lemma_root_arithmetic(n, sum.root().units(), q, g, t, v.len());
}

/// The arithmetic of a scaled norm: from the sum of squares to its root.
proof fn lemma_root_arithmetic(n: nat, u: nat, q: nat, g: nat, t: nat, dim: nat)
    requires
        dim <= VAST,
        near(q * (g * g), n * t, 17 + 2 * dim),
        close(u * u, q * t, 0x4_0000_0000_0000),
    ensures
        near((u * u) * (g * g), n * (t * t), 26 + 2 * dim),
{
    let (g2, t2, u2) = (g * g, t * t, u * u);
    let w = n * t2;
    close::nearness_scales(q * g2, n * t, 17 + 2 * dim, t);
    assert(near(u2, q * t, 8));
    close::nearness_scales(u2, q * t, 8, g2);
    assert((q * t) * g2 == (q * g2) * t && (n * t) * t == w) by (nonlinear_arith)
        requires
            w == n * t2,
            t2 == t * t,
    ;
    close::nearness_adds_up(u2 * g2, (q * g2) * t, w, 8, 17 + 2 * dim);
}

/// A normalized vector has unit length: its square is within three half units of roundoff for
/// each dimension, and forty-two more, of one. That is so of every vector of finite components
/// that are not all zero, even where its norm overflows.
#[verifier::spinoff_prover]
#[verifier::rlimit(60)]
pub proof fn normalized_vectors_have_unit_length(v: Seq<Binary64>)
    requires
        v.len() <= VAST,
        forall|i: int| 0 <= i < v.len() ==> (#[trigger] v[i]).is_finite(),
        0 < largest(v).units(),
    ensures
        ({
            let out = direction(v)->Ok_0;
            &&& direction(v) is Ok
            &&& out.len() == v.len()
            &&& forall|i: int| 0 <= i < out.len() ==> (#[trigger] out[i]).is_finite()
            &&& near(energy(out), pow2(1074) * pow2(1074), 3 * v.len() + 42)
        }),
{
    let t = pow2(1074);
    lemma_pow2_pos(1074);
    lemma_scaled_norm(v);
    bounds::lemma_largest_is_attained(v);
    let e = largest(v).exponent();
    let s = one().scaled(e);
    let g = pow2((e + 1074) as nat);
    lemma_pow2_pos((e + 1074) as nat);
    bounds::lemma_unit_of_scale(e);
    let n = energy(v);
    let x = squares(v, s).root();
    let u = x.units();
    // The components over the scale.
    let r = ratios(v, e);
    assert(r =~= quotients(v, s));
    assert(within(v, s)) by {
        reveal(within);
        assert forall|i: int| 0 <= i < v.len() implies (#[trigger] v[i]).is_finite()
            && v[i].units() <= 2 * s.units() by {
            assert(v[i].units() <= largest(v).units());
        }
    }
    lemma_quotient_energy(v, s);
    lemma_pow2_pos(50);
    assert(g * g <= n * pow2(50)) by (nonlinear_arith)
        requires
            g * g <= n,
            pow2(50) >= 1,
    ;
    lemma_near_energy(energy(r), n, v.len(), g * g, t);
    // Those over the scaled norm.
    lemma_pow2_unfold(1075);
    assert(within(r, x)) by {
        reveal(within);
        assert forall|i: int| 0 <= i < r.len() implies (#[trigger] r[i]).is_finite()
            && r[i].units() <= 2 * x.units() by {
            assert(v[i].units() <= largest(v).units());
            lemma_quotient(v[i], s);
        }
    }
    let out = quotients(r, x);
    lemma_quotient_energy(r, x);
    lemma_scale_of_ratios(energy(r), n, u, g, t);
    lemma_near_energy(energy(out), energy(r), v.len(), u * u, t);
    lemma_unit_arithmetic(energy(out), energy(r), n, u, g, t, v.len());
    assert(direction(v) == Ok::<Seq<Binary64>, WinditError>(out)) by {
        assert(direction(v)->Ok_0 =~= out);
    }
    assert forall|i: int| 0 <= i < out.len() implies (#[trigger] out[i]).is_finite() by {
        reveal(within);
        lemma_quotient(r[i], x);
    }
}

/// A computed norm is accurate: its square is within two half units of roundoff for each
/// dimension, and thirty-two more, of the exact sum of the squares. That is so of every vector
/// of finite components with one in the normal range, where its norm does not overflow.
#[verifier::spinoff_prover]
#[verifier::rlimit(40)]
pub proof fn norms_are_near_the_exact_ones(v: Seq<Binary64>)
    requires
        v.len() <= VAST,
        forall|i: int| 0 <= i < v.len() ==> (#[trigger] v[i]).is_finite(),
        largest(v).units() >= HIDDEN64,
        norm(v).is_finite(),
    ensures
        !norm(v).negative(),
        near(norm(v).units() * norm(v).units(), energy(v), 2 * v.len() + 32),
{
    lemma_scaled_norm(v);
    let e = largest(v).exponent();
    let x = squares(v, one().scaled(e)).root();
    let (g, t, u) = (pow2((e + 1074) as nat), pow2(1074), x.units());
    lemma_pow2_pos(1074);
    let (up, down) = (rounding::scale_up(e as int), rounding::scale_down(e as int));
    bounds::lemma_scale_product(1074, e as int);
    if e < 0 {
        lemma_pow2_pos((-e) as nat);
    }
    assert((u * up) * t == (u * g) * down) by (nonlinear_arith)
        requires
            t * up == g * down,
    ;
    exact::nearest_depends_on_the_ratio(u * up, down, u * g, t);
    let mag = nearest(u * g, t);
    exact::every_ratio_has_a_nearest_value(u * g, t);
    exact::lemma_signed_value(false, mag);
    let c = norm(v).units();
    assert(c == units64(mag));
    // The norm is at least the scale, which is in the normal range.
    vstd::arithmetic::power2::lemma2_to64_rest();
    if e + 1074 < 52 {
        lemma_pow2_unfold((e + 1075) as nat);
        if e + 1075 < 52 {
            lemma_pow2_strictly_increases((e + 1075) as nat, 52);
        }
    } else if e + 1074 > 52 {
        lemma_pow2_strictly_increases(52, (e + 1074) as nat);
    }
    assert(g >= HIDDEN64);
    lemma_mul_inequality(t as int, u as int, g as int);
    exact::rounding_is_monotone(t * g, u * g, t);
    assert((t * g) * 1 == g * t) by (nonlinear_arith);
    exact::nearest_depends_on_the_ratio(t * g, t, g, 1);
    roundoff::lemma_power_value((e + 1074) as nat);
    exact::lemma_order(nearest(g, 1), mag);
    exact::lemma_order(mag, nearest(g, 1));
    assert(c >= HIDDEN64);
    roundoff::rounding_error_is_bounded(u * g, t);
    lemma_norm_arithmetic(c, u, g, t, energy(v), v.len());
}

/// The arithmetic of a norm scaled back.
proof fn lemma_norm_arithmetic(c: nat, u: nat, g: nat, t: nat, n: nat, dim: nat)
    requires
        dim <= VAST,
        t > 0,
        size(c * t - u * g) * PRECISION <= c * t,
        near((u * u) * (g * g), n * (t * t), 26 + 2 * dim),
    ensures
        near(c * c, n, 2 * dim + 32),
{
    let (a, b) = (c * t, u * g);
    assert(near(a, b, 2));
    close::nearness_squares(a, b);
    assert(b * b == (u * u) * (g * g)) by (nonlinear_arith)
        requires
            b == u * g,
    ;
    close::nearness_adds_up(a * a, b * b, n * (t * t), 5, 26 + 2 * dim);
    assert(a * a == (c * c) * (t * t)) by (nonlinear_arith)
        requires
            a == c * t,
    ;
    lemma_mul_strictly_positive(t as int, t as int);
    close::nearness_cancels(c * c, n, 2 * dim + 32, t * t);
}

/// The square of the scaled norm is not large on the scale of the ratios.
proof fn lemma_scale_of_ratios(a: nat, n: nat, u: nat, g: nat, t: nat)
    requires
        t == pow2(1074),
        0 < g,
        g * g <= n,
        near(a * (g * g), n * (t * t), 7),
        u <= pow2(1097),
    ensures
        u * u <= a * pow2(50),
{
    let (g2, t2) = (g * g, t * t);
    let (x, y) = (a * g2, n * t2);
    assert(2 * x >= y) by {
        let d = size(x - y);
        assert(d * PRECISION <= 7 * y);
    }
    assert(n * t2 >= g2 * t2) by (nonlinear_arith)
        requires
            g2 <= n,
    ;
    lemma_mul_strictly_positive(g as int, g as int);
    assert((2 * a) * g2 >= t2 * g2) by (nonlinear_arith)
        requires
            2 * (a * g2) >= g2 * t2,
    ;
    vstd::arithmetic::mul::lemma_mul_inequality_converse(t2 as int, (2 * a) as int, g2 as int);
    let big = pow2(1097);
    vstd::arithmetic::mul::lemma_mul_upper_bound(u as int, big as int, u as int, big as int);
    lemma_pow2_adds(1097, 1097);
    lemma_pow2_adds(1074, 1074);
    lemma_pow2_adds(2148, 46);
    lemma_pow2_adds(1, 46);
    vstd::arithmetic::power2::lemma2_to64();
    lemma_pow2_strictly_increases(47, 50);
    assert(u * u <= t2 * pow2(46));
    assert(t2 * pow2(46) <= (2 * a) * pow2(46)) by (nonlinear_arith)
        requires
            t2 <= 2 * a,
    ;
    assert((2 * a) * pow2(46) == a * (2 * pow2(46))) by (nonlinear_arith);
    assert(a * (2 * pow2(46)) <= a * pow2(50)) by (nonlinear_arith)
        requires
            2 * pow2(46) <= pow2(50),
    ;
}

/// The arithmetic of a unit length.
proof fn lemma_unit_arithmetic(o: nat, a: nat, n: nat, u: nat, g: nat, t: nat, dim: nat)
    requires
        dim <= VAST,
        t > 0,
        n > 0,
        near((u * u) * (g * g), n * (t * t), 26 + 2 * dim),
        near(a * (g * g), n * (t * t), 7),
        near(o * (u * u), a * (t * t), 7),
    ensures
        near(o, t * t, 3 * dim + 42),
{
    let (g2, t2, u2) = (g * g, t * t, u * u);
    let w = n * t2;
    // The squares of the result, on the scale of the scaled norm and of the vector.
    close::nearness_scales(o * u2, a * t2, 7, g2);
    close::nearness_scales(a * g2, w, 7, t2);
    assert((a * t2) * g2 == (a * g2) * t2) by (nonlinear_arith);
    close::nearness_adds_up((o * u2) * g2, (a * g2) * t2, w * t2, 7, 7);
    let v = u2 * g2;
    assert((o * u2) * g2 == o * v) by (nonlinear_arith)
        requires
            v == u2 * g2,
    ;
    lemma_mul_strictly_positive(t as int, t as int);
    lemma_mul_strictly_positive(n as int, t2 as int);
    lemma_quotient_arithmetic(o, t2, v, w, dim);
}

/// The arithmetic of a quotient whose dividend and divisor are near: `o * v` is `w * t2`, and
/// `v` is `w`.
proof fn lemma_quotient_arithmetic(o: nat, t2: nat, v: nat, w: nat, dim: nat)
    requires
        dim <= VAST,
        w > 0,
        near(o * v, w * t2, 15),
        near(v, w, 26 + 2 * dim),
    ensures
        near(o, t2, 3 * dim + 42),
{
    let p = PRECISION as nat;
    let k = 26 + 2 * dim;
    let d = size(o - t2);
    // The error on the scale of the divisor.
    assert((o - t2) * v == (o * v - w * t2) + (w - v) * t2) by (nonlinear_arith);
    lemma_size_times(o - t2, v);
    lemma_size_times(w - v, t2);
    let (x, y) = (size(o * v - w * t2), size(w - v));
    assert(d * v <= x + y * t2);
    assert((y * t2) * p <= (k * w) * t2) by (nonlinear_arith)
        requires
            y * p <= k * w,
    ;
    let wt = w * t2;
    assert((k * w) * t2 == k * wt) by (nonlinear_arith)
        requires
            wt == w * t2,
    ;
    assert((d * v) * p <= (15 + k) * wt) by (nonlinear_arith)
        requires
            d * v <= x + y * t2,
            x * p <= 15 * wt,
            (y * t2) * p <= k * wt,
    ;
    // What the divisor lacks.
    let c = 3 * dim + 42;
    assert(v * p >= w * (p - k)) by (nonlinear_arith)
        requires
            size(v - w) * p <= k * w,
            v >= w - size(v - w),
    ;
    assert(dim * dim <= VAST * dim) by (nonlinear_arith)
        requires
            dim <= VAST,
    ;
    assert(c * (p - k) == c * p - 1092 - 162 * dim - 6 * (dim * dim)) by (nonlinear_arith)
        requires
            c == 3 * dim + 42,
            k == 26 + 2 * dim,
    ;
    assert(c * p == 3 * (dim * p) + 42 * p && (15 + k) * p == 41 * p + 2 * (dim * p))
        by (nonlinear_arith)
        requires
            c == 3 * dim + 42,
            k == 26 + 2 * dim,
    ;
    assert(c * (p - k) >= (15 + k) * p);
    assert(w * (c * (p - k)) >= w * ((15 + k) * p)) by (nonlinear_arith)
        requires
            c * (p - k) >= (15 + k) * p,
    ;
    assert(c * (v * p) >= c * (w * (p - k))) by (nonlinear_arith)
        requires
            v * p >= w * (p - k),
    ;
    assert(c * (w * (p - k)) == w * (c * (p - k)) && w * ((15 + k) * p) == ((15 + k) * w) * p && c
        * (v * p) == (c * v) * p) by (nonlinear_arith);
    vstd::arithmetic::mul::lemma_mul_inequality_converse(
        ((15 + k) * w) as int,
        (c * v) as int,
        p as int,
    );
    assert(((15 + k) * w) * t2 <= (c * v) * t2) by (nonlinear_arith)
        requires
            (15 + k) * w <= c * v,
    ;
    assert(((15 + k) * w) * t2 == (15 + k) * wt) by (nonlinear_arith)
        requires
            wt == w * t2,
    ;
    assert((d * p) * v == (d * v) * p && (c * t2) * v == (c * v) * t2) by (nonlinear_arith);
    assert(v > 0) by {
        assert(size(v - w) * p <= k * w);
        assert(k * w < p * w) by (nonlinear_arith)
            requires
                k < p,
                w > 0,
        ;
    }
    vstd::arithmetic::mul::lemma_mul_inequality_converse(
        (d * p) as int,
        (c * t2) as int,
        v as int,
    );
}

/// What is not a number among the components is not one in the sum of their squares.
proof fn lemma_no_squares(v: Seq<Binary64>, scale: Binary64, at: int)
    requires
        0 <= at < v.len(),
        v[at].is_nan(),
    ensures
        squares(v, scale).is_nan(),
    decreases v.len(),
{
    let rest = v.drop_last();
    if at < rest.len() {
        assert(rest[at] == v[at]);
        lemma_no_squares(rest, scale, at);
    } else {
        assert(v.last() == v[at]);
    }
}

/// The largest magnitude is a number, and no number among the components is larger.
proof fn lemma_largest_bounds(v: Seq<Binary64>)
    ensures
        !largest(v).is_nan(),
        !largest(v).negative(),
        forall|i: int|
            0 <= i < v.len() && !(#[trigger] v[i]).is_nan() ==> v[i].magnitude() <= largest(
                v,
            ).magnitude(),
    decreases v.len(),
{
    if v.len() > 0 {
        let rest = v.drop_last();
        lemma_largest_bounds(rest);
        assert forall|i: int| 0 <= i < v.len() && !(#[trigger] v[i]).is_nan() implies v[
            i
        ].magnitude() <= largest(v).magnitude() by {
            if i < rest.len() {
                assert(rest[i] == v[i]);
            } else {
                assert(v[i] == v.last());
            }
        }
    }
}

/// A vector has a direction exactly where its components are finite and not all zero.
pub proof fn directions_are_those_of_finite_vectors(v: Seq<Binary64>)
    requires
        v.len() <= VAST,
    ensures
        direction(v) is Ok <==> {
            &&& forall|i: int| 0 <= i < v.len() ==> (#[trigger] v[i]).is_finite()
            &&& exists|i: int| 0 <= i < v.len() && (#[trigger] v[i]).units() > 0
        },
        direction(v) matches Err(e) ==> e == WinditError::NonFinite,
{
    assert(units64(0) == 0);
    if direction(v) is Ok {
        lemma_largest_bounds(v);
        assert forall|i: int| 0 <= i < v.len() implies (#[trigger] v[i]).is_finite() by {
            if v[i].is_nan() {
                lemma_no_squares(v, one().scaled(largest(v).exponent()), i);
            }
        }
        bounds::lemma_largest_is_attained(v);
        exact::lemma_order(0, largest(v).magnitude() as nat);
        let i = choose|i: int|
            0 <= i < v.len() && (#[trigger] v[i]).units() == largest(v).units();
        assert(v[i].units() > 0);
    } else if forall|i: int| 0 <= i < v.len() ==> (#[trigger] v[i]).is_finite() {
        bounds::lemma_largest_is_attained(v);
        if exists|i: int| 0 <= i < v.len() && (#[trigger] v[i]).units() > 0 {
            let i = choose|i: int| 0 <= i < v.len() && (#[trigger] v[i]).units() > 0;
            assert(v[i].units() <= largest(v).units());
            normalized_vectors_have_unit_length(v);
        }
    }
}

/// What a fold gives, whatever it is of, is a vector of finite components and of unit length:
/// its square is within three half units of roundoff for each dimension, and forty-two more, of
/// one.
pub proof fn aggregated_vectors_have_unit_length(
    weights: Seq<Binary64>,
    embeddings: Seq<Seq<Binary64>>,
    dim: nat,
    slack: Binary64,
)
    requires
        dim <= VAST,
    ensures
        folded(weights, embeddings, dim, slack) matches Ok(v) ==> {
            &&& v.len() == dim
            &&& forall|i: int| 0 <= i < v.len() ==> (#[trigger] v[i]).is_finite()
            &&& near(energy(v), pow2(1074) * pow2(1074), 3 * dim + 42)
        },
{
    let sum = weighted_sum(weights, embeddings, dim);
    if folded(weights, embeddings, dim, slack) is Ok {
        directions_are_those_of_finite_vectors(sum);
        bounds::lemma_largest_is_attained(sum);
        let i = choose|i: int| 0 <= i < sum.len() && (#[trigger] sum[i]).units() > 0;
        assert(sum[i].units() <= largest(sum).units());
        normalized_vectors_have_unit_length(sum);
    }
}

} // verus!
