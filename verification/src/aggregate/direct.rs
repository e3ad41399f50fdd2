//! Norms and directions against the textbook computation.
//!
//! A norm is taken on a vector that is first divided by a power of two. That division is
//! exact, so wherever the squares can be formed without it the result is the same, to the
//! bit.
use vstd::arithmetic::power2::{
    lemma_pow2_adds, lemma_pow2_pos, lemma_pow2_strictly_increases, pow2,
};
use vstd::prelude::*;

use crate::aggregate::bounds::{self, WIDE};
use crate::aggregate::laws::{one, zero};
use crate::aggregate::norm::{direction, largest, norm, squares};
use crate::arith::{nearest, nearest_root};
use crate::binary::{Binary64, HIDDEN64, INFINITY64};
use crate::error::WinditError;
use crate::exact;
use crate::roots;
use crate::rounding::units64;
use crate::roundoff;
use crate::scaling;

verus! {

/// The sum of the squares of `v`, added up in order.
pub open spec fn plain_squares(v: Seq<Binary64>) -> Binary64
    decreases v.len(),
{
    if v.len() == 0 {
        zero()
    } else {
        plain_squares(v.drop_last()).plus(v.last().times(v.last()))
    }
}

/// Whether the vectors are finite, and `y` is `x` times `2^j`, with no nonzero component of
/// `x` below `2^-511`.
#[verifier::opaque]
pub open spec fn multiples(x: Seq<Binary64>, y: Seq<Binary64>, j: nat) -> bool {
    &&& x.len() == y.len()
    &&& forall|i: int|
        0 <= i < x.len() ==> {
            &&& (#[trigger] x[i]).is_finite()
            &&& y[i].is_finite()
            &&& y[i].units() == x[i].units() * pow2(j)
            &&& x[i].units() == 0 || x[i].units() >= pow2(563)
        }
}

/// The square of a finite value.
proof fn lemma_square(x: Binary64)
    requires
        x.is_finite(),
    ensures
        !x.times(x).negative(),
        x.times(x).magnitude() == nearest(x.units() * x.units(), pow2(1074)),
        x.times(x).units() == units64(nearest(x.units() * x.units(), pow2(1074))),
{
    let t = pow2(1074);
    lemma_pow2_pos(1074);
    let u = x.units();
    exact::every_ratio_has_a_nearest_value(u * u, t);
    exact::lemma_signed_value(false, nearest(u * u, t));
}

/// The squares of a component and of its multiple.
proof fn lemma_squares_of(x: Binary64, y: Binary64, j: nat)
    requires
        x.is_finite(),
        y.is_finite(),
        y.units() == x.units() * pow2(j),
        x.units() == 0 || x.units() >= pow2(563),
        y.times(y).is_finite(),
    ensures
        x.times(x).is_finite(),
        !x.times(x).negative(),
        !y.times(y).negative(),
        y.times(y).units() == x.times(x).units() * pow2(2 * j),
        x.times(x).units() == 0 || x.times(x).units() >= HIDDEN64,
        x.units() == 0 <==> x.times(x).units() == 0,
{
    let (u, t, p) = (x.units(), pow2(1074), pow2(j));
    lemma_square(x);
    lemma_square(y);
    lemma_pow2_pos(1074);
    lemma_pow2_adds(j, j);
    let (w, four) = (u * p, p * p);
    assert(w * w == (u * u) * four) by (nonlinear_arith)
        requires
            w == u * p,
            four == p * p,
    ;
    if u == 0 {
        assert(0 * 0 == 0 && 0 * four == 0 && 0 * t == 0) by (nonlinear_arith);
        assert(units64(0) == 0);
        crate::rounding::lemma_exact_is_nearest(0, 0, t);
        crate::arith::lemma_nearest(0, 0, t);
    } else {
        vstd::arithmetic::power2::lemma2_to64_rest();
        lemma_pow2_adds(563, 563);
        lemma_pow2_adds(52, 1074);
        vstd::arithmetic::mul::lemma_mul_upper_bound(
            pow2(563) as int,
            u as int,
            pow2(563) as int,
            u as int,
        );
        scaling::powers_of_two_commute_with_rounding(u * u, t, 2 * j);
    }
}

/// Multiples without their last components, and those components.
proof fn lemma_fewer_multiples(x: Seq<Binary64>, y: Seq<Binary64>, j: nat)
    requires
        multiples(x, y, j),
        x.len() > 0,
    ensures
        multiples(x.drop_last(), y.drop_last(), j),
        x.len() == y.len(),
        x.last().is_finite(),
        y.last().is_finite(),
        y.last().units() == x.last().units() * pow2(j),
        x.last().units() == 0 || x.last().units() >= pow2(563),
{
    reveal(multiples);
    let (a, b) = (x.drop_last(), y.drop_last());
    assert(x[a.len() as int] == x.last() && y[a.len() as int] == y.last());
    assert forall|i: int| 0 <= i < a.len() implies {
        &&& (#[trigger] a[i]).is_finite()
        &&& b[i].is_finite()
        &&& b[i].units() == a[i].units() * pow2(j)
        &&& a[i].units() == 0 || a[i].units() >= pow2(563)
    } by {
        assert(a[i] == x[i] && b[i] == y[i]);
    }
}

/// The sum of squares of a multiple is the sum of squares times the square of the factor.
pub proof fn sums_of_squares_scale(x: Seq<Binary64>, y: Seq<Binary64>, j: nat)
    requires
        multiples(x, y, j),
        plain_squares(y).is_finite(),
    ensures
        plain_squares(x).is_finite(),
        !plain_squares(x).negative(),
        !plain_squares(y).negative(),
        plain_squares(y).units() == plain_squares(x).units() * pow2(2 * j),
        plain_squares(x).units() == 0 || plain_squares(x).units() >= HIDDEN64,
    decreases x.len(),
{
    let q = pow2(2 * j);
    if x.len() == 0 {
        assert(y.len() == 0) by {
            reveal(multiples);
        }
        assert(units64(0) == 0);
        assert(0 * q == 0) by (nonlinear_arith);
    } else {
        let (a, b) = (x.drop_last(), y.drop_last());
        lemma_fewer_multiples(x, y, j);
        let (s, e) = (plain_squares(b), y.last().times(y.last()));
        lemma_finite_sum(s, e);
        sums_of_squares_scale(a, b, j);
        lemma_squares_of(x.last(), y.last(), j);
        lemma_sum_of(plain_squares(a), x.last().times(x.last()), s, e, q, 2 * j);
    }
}

/// The addends of a finite sum are finite.
proof fn lemma_finite_sum(s: Binary64, e: Binary64)
    requires
        s.plus(e).is_finite(),
    ensures
        s.is_finite(),
        e.is_finite(),
{
}

/// Only zeros have nothing for a sum of squares.
proof fn lemma_nonzero_squares(x: Seq<Binary64>, y: Seq<Binary64>, j: nat, at: int)
    requires
        multiples(x, y, j),
        plain_squares(y).is_finite(),
        0 <= at < x.len(),
        x[at].units() != 0,
    ensures
        plain_squares(x).units() != 0,
    decreases x.len(),
{
    let (a, b) = (x.drop_last(), y.drop_last());
    let n = a.len() as int;
    assert(x[n] == x.last());
    lemma_fewer_multiples(x, y, j);
    let (s, e) = (plain_squares(b), y.last().times(y.last()));
    lemma_finite_sum(s, e);
    sums_of_squares_scale(a, b, j);
    lemma_squares_of(x.last(), y.last(), j);
    lemma_sum_of(plain_squares(a), x.last().times(x.last()), s, e, pow2(2 * j), 2 * j);
    if at < n {
        assert(a[at] == x[at]);
        lemma_nonzero_squares(a, b, j, at);
    }
}

/// The sums of two numbers and of their multiples.
proof fn lemma_sum_of(r: Binary64, d: Binary64, s: Binary64, e: Binary64, q: nat, k: nat)
    requires
        r.is_finite() && d.is_finite() && s.is_finite() && e.is_finite(),
        !r.negative() && !d.negative() && !s.negative() && !e.negative(),
        q == pow2(k),
        s.units() == r.units() * q,
        e.units() == d.units() * q,
        r.units() == 0 || r.units() >= HIDDEN64,
        d.units() == 0 || d.units() >= HIDDEN64,
        s.plus(e).is_finite(),
    ensures
        r.plus(d).is_finite(),
        !r.plus(d).negative(),
        !s.plus(e).negative(),
        s.plus(e).units() == r.plus(d).units() * q,
        r.plus(d).units() == 0 || r.plus(d).units() >= HIDDEN64,
        r.plus(d).units() == 0 <==> r.units() == 0 && d.units() == 0,
{
    let (a, b) = (r.units() + d.units(), s.units() + e.units());
    assert(b == a * q) by (nonlinear_arith)
        requires
            a == r.units() + d.units(),
            b == r.units() * q + d.units() * q,
    ;
    lemma_pow2_pos(k);
    assert(units64(0) == 0);
    assert(0 * q == 0) by (nonlinear_arith);
    if a == 0 {
        exact::lemma_signed_value(false, 0);
    } else {
        assert(b > 0) by (nonlinear_arith)
            requires
                b == a * q,
                a > 0,
                q > 0,
        ;
        exact::every_ratio_has_a_nearest_value(a, 1);
        exact::every_ratio_has_a_nearest_value(b, 1);
        exact::lemma_signed_value(false, nearest(a, 1));
        exact::lemma_signed_value(false, nearest(b, 1));
        assert(HIDDEN64 * 1 == HIDDEN64) by (nonlinear_arith);
        scaling::powers_of_two_commute_with_rounding(a, 1, k);
    }
}

/// `v` divided by `2^e`.
pub open spec fn divided(v: Seq<Binary64>, e: i32) -> Seq<Binary64> {
    Seq::new(v.len(), |i: int| v[i].over(one().scaled(e)))
}

/// The sum of the squares of a vector over its scale is that of the divided vector.
proof fn lemma_divided_squares(v: Seq<Binary64>, e: i32)
    ensures
        squares(v, one().scaled(e)) == plain_squares(divided(v, e)),
    decreases v.len(),
{
    if v.len() > 0 {
        lemma_divided_squares(v.drop_last(), e);
        assert(divided(v, e).drop_last() =~= divided(v.drop_last(), e));
    }
}

/// Whether no nonzero component of `v` is below `2^-511`, nor below `2^-511` of the power of
/// two of the largest one: its square is in the normal range, before and after the division.
pub open spec fn level(v: Seq<Binary64>) -> bool {
    let e = largest(v).exponent();
    let least = pow2(563 + if e > 0 {
        e as nat
    } else {
        0
    });
    forall|i: int|
        0 <= i < v.len() ==> (#[trigger] v[i]).is_finite() && (v[i].units() == 0 || v[i].units()
            >= least)
}

/// A component is divided by a power of two exactly.
proof fn lemma_divided(x: Binary64, e: i32)
    requires
        x.is_finite(),
        -1074 <= e <= 1023,
        x.units() < pow2((e + 1075) as nat),
        e > 0 && x.units() != 0 ==> x.units() >= pow2((563 + e) as nat),
    ensures
        ({
            let r = x.over(one().scaled(e));
            &&& r.is_finite()
            &&& r.negative() == x.negative()
            &&& e >= 0 ==> x.units() == r.units() * pow2(e as nat)
            &&& e < 0 ==> r.units() == x.units() * pow2((-e) as nat)
        }),
{
    let (u, t) = (x.units(), pow2(1074));
    let s = one().scaled(e);
    bounds::lemma_unit_of_scale(e);
    lemma_pow2_pos(1074);
    lemma_pow2_pos((e + 1074) as nat);
    assert(units64(0) == 0);
    exact::lemma_order(0, s.magnitude() as nat);
    let mag = x.magnitude() as nat;
    exact::lemma_parts(mag);
    let (m, k) = (exact::significand(mag), exact::scale(mag));
    let w = s.units();
    roundoff::lemma_top();
    lemma_pow2_strictly_increases(1075, 2098);
    // The exact quotient, as a significand on a scale.
    if e < 0 {
        let p = pow2((-e) as nat);
        lemma_pow2_adds((e + 1074) as nat, (-e) as nat);
        lemma_pow2_adds((e + 1075) as nat, (-e) as nat);
        lemma_pow2_pos((-e) as nat);
        vstd::arithmetic::mul::lemma_mul_strict_inequality(
            u as int,
            pow2((e + 1075) as nat) as int,
            p as int,
        );
        lemma_pow2_adds(k, (-e) as nat);
        assert((m * pow2(k)) * p == m * (pow2(k) * p)) by (nonlinear_arith);
        exact::lemma_representable(m, k + (-e) as nat);
        exact::representable_values_are_not_rounded(u * p);
        assert((u * t) * 1 == (u * p) * w) by (nonlinear_arith)
            requires
                t == w * p,
        ;
        exact::nearest_depends_on_the_ratio(u * t, w, u * p, 1);
        exact::lemma_signed_value(x.negative(), nearest(u * p, 1));
    } else {
        let p = pow2(e as nat);
        lemma_pow2_adds(1074, e as nat);
        lemma_pow2_adds(1075, e as nat);
        lemma_pow2_pos(e as nat);
        if e < 1023 {
            lemma_pow2_strictly_increases((e + 1075) as nat, 2098);
        }
        let n = lemma_quotient(m, k, u, e as nat);
        assert(n < pow2(1075)) by (nonlinear_arith)
            requires
                u == n * p,
                u < pow2(1075) * p,
                p > 0,
        ;
        exact::representable_values_are_not_rounded(n);
        assert((u * t) * 1 == n * w) by (nonlinear_arith)
            requires
                u == n * p,
                w == t * p,
        ;
        exact::nearest_depends_on_the_ratio(u * t, w, n, 1);
        exact::lemma_signed_value(x.negative(), nearest(n, 1));
    }
}

/// A large number on a scale is a multiple of a much smaller power of two.
proof fn lemma_quotient(m: nat, k: nat, u: nat, e: nat) -> (n: nat)
    requires
        m < 2 * HIDDEN64,
        u == m * pow2(k),
        u < pow2(2098),
        u == 0 || e == 0 || u >= pow2(563 + e),
    ensures
        u == n * pow2(e),
        exact::representable(n),
{
    let p = pow2(e);
    lemma_pow2_pos(e);
    vstd::arithmetic::power2::lemma2_to64();
    vstd::arithmetic::power2::lemma2_to64_rest();
    roundoff::lemma_top();
    assert(units64(0) == 0);
    if u == 0 {
        assert(0 * p == 0) by (nonlinear_arith);
        0
    } else if e == 0 {
        assert(u * 1 == u) by (nonlinear_arith);
        exact::lemma_representable(m, k);
        u
    } else {
        if k < e {
            lemma_pow2_strictly_increases(k, e);
            lemma_pow2_adds(53, e);
            assert(m * pow2(k) < pow2(53) * p) by (nonlinear_arith)
                requires
                    m < pow2(53),
                    pow2(k) < p,
            ;
            lemma_pow2_strictly_increases(53 + e, 563 + e);
        }
        let l = (k - e) as nat;
        lemma_pow2_adds(l, e);
        let n = m * pow2(l);
        assert(m * (pow2(l) * p) == n * p) by (nonlinear_arith)
            requires
                n == m * pow2(l),
        ;
        assert(n <= u) by (nonlinear_arith)
            requires
                u == n * p,
                p >= 1,
        ;
        exact::lemma_representable(m, l);
        n
    }
}

/// The root of a positive number.
proof fn lemma_root(x: Binary64)
    requires
        x.is_finite(),
        !x.negative(),
        x.units() > 0,
    ensures
        nearest_root(x.units() * pow2(1074)) < INFINITY64,
        x.root().is_finite(),
        !x.root().negative(),
        x.root().units() == units64(nearest_root(x.units() * pow2(1074))),
{
    let (u, t, p) = (x.units(), pow2(1074), pow2(1586));
    assert(units64(0) == 0);
    exact::lemma_order(0, x.magnitude() as nat);
    exact::finite_values_are_representable(x);
    roundoff::lemma_top();
    lemma_pow2_pos(1074);
    lemma_pow2_adds(2098, 1074);
    lemma_pow2_adds(1586, 1586);
    vstd::arithmetic::mul::lemma_mul_inequality(u as int, pow2(2098) as int, t as int);
    roundoff::lemma_power_value(1586);
    roots::roots_keep_bounds(u * t, nearest(p, 1));
    exact::lemma_signed_value(false, nearest_root(u * t));
}

/// The root of a number times a power of four is the root times the power of two.
proof fn lemma_roots_scale(x: Binary64, y: Binary64, j: nat)
    requires
        x.is_finite() && y.is_finite(),
        !x.negative() && !y.negative(),
        x.units() >= HIDDEN64,
        y.units() == x.units() * pow2(2 * j),
    ensures
        x.root().is_finite() && y.root().is_finite(),
        !x.root().negative() && !y.root().negative(),
        x.root().units() > 0,
        y.root().units() == x.root().units() * pow2(j),
{
    let (u, t, q, h) = (x.units(), pow2(1074), pow2(2 * j), HIDDEN64 as nat);
    lemma_pow2_pos(2 * j);
    assert(y.units() > 0) by (nonlinear_arith)
        requires
            y.units() == u * q,
            u > 0,
            q > 0,
    ;
    lemma_root(x);
    lemma_root(y);
    vstd::arithmetic::power2::lemma2_to64_rest();
    lemma_pow2_strictly_increases(52, 1074);
    vstd::arithmetic::mul::lemma_mul_upper_bound(h as int, u as int, h as int, t as int);
    assert((u * q) * t == (u * t) * q) by (nonlinear_arith);
    roots::powers_of_two_commute_with_roots(u * t, j);
    scaling::lemma_least_normal();
    roots::roots_keep_bounds(u * t, h);
    exact::lemma_order(h, nearest_root(u * t));
    exact::lemma_order(nearest_root(u * t), h);
}

/// Two nonnegative values of the same size are the same.
proof fn lemma_same(x: Binary64, y: Binary64)
    requires
        x.is_finite() && y.is_finite(),
        x.negative() == y.negative(),
        x.units() == y.units(),
    ensures
        x == y,
{
    exact::lemma_order(x.magnitude() as nat, y.magnitude() as nat);
}

/// A vector with a largest component, its scale, and what its division gives.
proof fn lemma_division(v: Seq<Binary64>, e: i32)
    requires
        level(v),
        largest(v).units() > 0,
        e == largest(v).exponent(),
    ensures
        -1074 <= e <= 1023,
        bounds::fits(v, e),
        e >= 0 ==> multiples(divided(v, e), v, e as nat),
        e < 0 ==> multiples(v, divided(v, e), (-e) as nat),
        forall|i: int|
            0 <= i < v.len() ==> (#[trigger] divided(v, e)[i]).negative() == v[i].negative(),
{
    reveal(multiples);
    let l = largest(v);
    let d = divided(v, e);
    bounds::lemma_largest_is_attained(v);
    assert(units64(0) == 0);
    exact::lemma_order(0, l.magnitude() as nat);
    exact::every_finite_value_has_an_exponent(l);
    bounds::lemma_vector_fits(v, e);
    assert forall|i: int| 0 <= i < v.len() implies {
        &&& (#[trigger] d[i]).is_finite()
        &&& d[i].negative() == v[i].negative()
        &&& e >= 0 ==> v[i].units() == d[i].units() * pow2(e as nat)
        &&& e >= 0 ==> d[i].units() == 0 || d[i].units() >= pow2(563)
        &&& e < 0 ==> d[i].units() == v[i].units() * pow2((-e) as nat)
    } by {
        assert(v[i].units() <= l.units());
        lemma_divided(v[i], e);
        if e >= 0 {
            let (n, p) = (d[i].units(), pow2(e as nat));
            vstd::arithmetic::power2::lemma2_to64();
            lemma_pow2_pos(e as nat);
            lemma_pow2_adds(563, e as nat);
            assert(n == 0 || n >= pow2(563)) by (nonlinear_arith)
                requires
                    n * p == 0 || n * p >= pow2(563) * p,
                    p > 0,
            ;
        }
    }
    assert forall|i: int| 0 <= i < v.len() implies {
        &&& (#[trigger] v[i]).is_finite()
        &&& d[i].is_finite()
        &&& e < 0 ==> d[i].units() == v[i].units() * pow2((-e) as nat)
        &&& e < 0 ==> v[i].units() == 0 || v[i].units() >= pow2(563)
    } by {
        assert(d[i].is_finite());
    }
}

/// The components of multiples.
proof fn lemma_component(x: Seq<Binary64>, y: Seq<Binary64>, j: nat, i: int)
    requires
        multiples(x, y, j),
        0 <= i < x.len(),
    ensures
        x[i].is_finite(),
        y[i].is_finite(),
        y[i].units() == x[i].units() * pow2(j),
        y[i].units() > 0 ==> x[i].units() > 0,
{
    reveal(multiples);
    let p = pow2(j);
    assert(0 * p == 0) by (nonlinear_arith);
}

/// What is known of the root of a sum of squares, of the one over the scale, and of how the
/// scale relates them.
spec fn scales(plain: Binary64, over: Binary64, e: i32) -> bool {
    &&& plain.is_finite() && over.is_finite()
    &&& !plain.negative() && !over.negative()
    &&& plain.units() > 0 && over.units() > 0
    &&& e >= 0 ==> plain.units() == over.units() * pow2(e as nat)
    &&& e < 0 ==> over.units() == plain.units() * pow2((-e) as nat)
}

/// Scaling back is exact.
proof fn lemma_scaled_back(plain: Binary64, over: Binary64, e: i32)
    requires
        scales(plain, over, e),
    ensures
        over.scaled(e) == plain,
{
    exact::finite_values_are_representable(plain);
    let n = plain.units();
    if e >= 0 {
        exact::scaling_up_is_exact(over, e);
    } else {
        let p = pow2((-e) as nat);
        lemma_pow2_pos((-e) as nat);
        assert((n * p) * 1 == n * p) by (nonlinear_arith);
        exact::nearest_depends_on_the_ratio(n * p, p, n, 1);
        exact::representable_values_are_not_rounded(n);
        exact::lemma_signed_value(false, nearest(n, 1));
    }
    lemma_same(over.scaled(e), plain);
}

/// The roots of the sums of squares of a vector and of its division.
proof fn lemma_both_roots(v: Seq<Binary64>, e: i32, at: int)
    requires
        -1074 <= e <= 1023,
        e >= 0 ==> multiples(divided(v, e), v, e as nat),
        e < 0 ==> multiples(v, divided(v, e), (-e) as nat),
        plain_squares(v).is_finite(),
        plain_squares(divided(v, e)).is_finite(),
        0 <= at < v.len(),
        v[at].units() > 0,
    ensures
        scales(plain_squares(v).root(), plain_squares(divided(v, e)).root(), e),
{
    let d = divided(v, e);
    let (plain, over) = (plain_squares(v), plain_squares(d));
    let p = pow2(if e >= 0 {
        e as nat
    } else {
        (-e) as nat
    });
    if e >= 0 {
        lemma_component(d, v, e as nat, at);
        sums_of_squares_scale(d, v, e as nat);
        lemma_nonzero_squares(d, v, e as nat, at);
        lemma_roots_scale(over, plain, e as nat);
        lemma_pow2_pos(e as nat);
    } else {
        sums_of_squares_scale(v, d, (-e) as nat);
        lemma_nonzero_squares(v, d, (-e) as nat, at);
        lemma_roots_scale(plain, over, (-e) as nat);
        lemma_pow2_pos((-e) as nat);
    }
    let (m, n) = (plain.root().units(), over.root().units());
    assert(m > 0 && n > 0) by (nonlinear_arith)
        requires
            (m == n * p && n > 0) || (n == m * p && m > 0),
            p > 0,
    ;
}

/// A computed norm and the norm over the scale.
proof fn lemma_norms(v: Seq<Binary64>, e: i32)
    requires
        v.len() <= WIDE,
        level(v),
        plain_squares(v).is_finite(),
        largest(v).units() > 0,
        e == largest(v).exponent(),
    ensures
        norm(v) == plain_squares(v).root(),
        scales(norm(v), squares(v, one().scaled(e)).root(), e),
{
    let l = largest(v);
    lemma_division(v, e);
    bounds::lemma_largest_is_attained(v);
    assert(units64(0) == 0);
    exact::lemma_order(0, l.magnitude() as nat);
    bounds::lemma_scale_is_found(v, e);
    lemma_divided_squares(v, e);
    let at = choose|i: int| 0 <= i < v.len() && (#[trigger] v[i]).units() == l.units();
    bounds::lemma_squares(v, e, at);
    lemma_both_roots(v, e, at);
    lemma_scaled_back(plain_squares(v).root(), plain_squares(divided(v, e)).root(), e);
}

/// A computed norm is the root of the sum of squares, to the bit, wherever the squares are
/// in the normal range and their sum does not overflow.
pub proof fn norms_are_roots_of_sums_of_squares(v: Seq<Binary64>)
    requires
        v.len() <= WIDE,
        level(v),
        plain_squares(v).is_finite(),
    ensures
        norm(v) == plain_squares(v).root(),
{
    if largest(v).units() > 0 {
        lemma_norms(v, largest(v).exponent());
    } else {
        bounds::lemma_largest_is_attained(v);
        assert(units64(0) == 0);
        exact::lemma_order(0, largest(v).magnitude() as nat);
        lemma_no_squares(v);
    }
}

/// The sum of squares of zeros.
proof fn lemma_no_squares(v: Seq<Binary64>)
    requires
        forall|i: int| 0 <= i < v.len() ==> (#[trigger] v[i]).is_finite() && v[i].units() == 0,
    ensures
        plain_squares(v) == zero(),
    decreases v.len(),
{
    if v.len() > 0 {
        let (rest, x) = (v.drop_last(), v.last());
        assert(v[v.len() - 1] == x);
        assert forall|i: int| 0 <= i < rest.len() implies (#[trigger] rest[i]).is_finite()
            && rest[i].units() == 0 by {
            assert(rest[i] == v[i]);
        }
        lemma_no_squares(rest);
        lemma_square(x);
        let t = pow2(1074);
        lemma_pow2_pos(1074);
        assert(units64(0) == 0);
        assert(0 * 0 == 0 && 0 * t == 0) by (nonlinear_arith);
        crate::rounding::lemma_exact_is_nearest(0, 0, t);
        crate::arith::lemma_nearest(0, 0, t);
    }
}

/// A direction is the vector divided by its norm, to the bit, under the same conditions.
pub proof fn directions_are_divided_by_the_norm(v: Seq<Binary64>)
    requires
        v.len() <= WIDE,
        level(v),
        plain_squares(v).is_finite(),
        largest(v).units() > 0,
    ensures
        direction(v) == Ok::<Seq<Binary64>, WinditError>(
            Seq::new(v.len(), |i: int| v[i].over(norm(v))),
        ),
{
    let e = largest(v).exponent();
    let l = largest(v);
    let d = divided(v, e);
    let r = squares(v, one().scaled(e)).root();
    let n = norm(v);
    lemma_norms(v, e);
    lemma_division(v, e);
    bounds::lemma_largest_is_attained(v);
    assert(units64(0) == 0);
    exact::lemma_order(0, l.magnitude() as nat);
    bounds::lemma_scale_is_found(v, e);
    exact::lemma_order(0, r.magnitude() as nat);
    exact::lemma_order(0, n.magnitude() as nat);
    let t = pow2(1074);
    assert forall|i: int| 0 <= i < v.len() implies #[trigger] d[i].over(r) == v[i].over(n) by {
        let (x, y, w, m) = (d[i].units(), v[i].units(), r.units(), n.units());
        if e >= 0 {
            lemma_component(d, v, e as nat, i);
        } else {
            lemma_component(v, d, (-e) as nat, i);
        }
        let p = pow2(if e >= 0 {
            e as nat
        } else {
            (-e) as nat
        });
        assert((x * t) * m == (y * t) * w) by (nonlinear_arith)
            requires
                (y == x * p && m == w * p) || (x == y * p && w == m * p),
        ;
        exact::nearest_depends_on_the_ratio(x * t, w, y * t, m);
    }
    let got = direction(v)->Ok_0;
    assert forall|i: int| 0 <= i < v.len() implies #[trigger] got[i] == v[i].over(n) by {
        assert(d[i].over(r) == v[i].over(n));
    }
    assert(got =~= Seq::new(v.len(), |i: int| v[i].over(n)));
}

} // verus!
