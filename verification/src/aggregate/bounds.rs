//! How accurate computed norms are.
use vstd::arithmetic::mul::{
    lemma_mul_inequality, lemma_mul_inequality_converse, lemma_mul_upper_bound,
};
use vstd::arithmetic::power2::{lemma_pow2_adds, lemma_pow2_pos, lemma_pow2_unfold, pow2};
use vstd::prelude::*;

use crate::aggregate::laws::{self, one, zero};
use crate::aggregate::norm::{largest, norm, scale_of, squares};
use crate::arith::{nearest, nearest_root};
use crate::binary::{Binary64, HIDDEN64, INFINITY64};
use crate::close::{self, close, lemma_size_times};
use crate::exact::{self, size};
use crate::roots;
use crate::rounding::{self, units64};
use crate::roundoff::{self, PRECISION};

verus! {

/// What `2^e` is.
pub proof fn lemma_unit_of_scale(e: i32)
    requires
        -1074 <= e <= 1023,
    ensures
        one().scaled(e).is_finite(),
        !one().scaled(e).negative(),
        one().scaled(e).units() == pow2((e + 1074) as nat),
{
    laws::lemma_one_units();
    let t = pow2(1074);
    let (up, down) = (rounding::scale_up(e as int), rounding::scale_down(e as int));
    let p = pow2((e + 1074) as nat);
    lemma_scale_product(1074, e as int);
    if e < 0 {
        lemma_pow2_pos((-e) as nat);
    }
    assert((t * up) * 1 == t * up) by (nonlinear_arith);
    exact::nearest_depends_on_the_ratio(t * up, down, p, 1);
    roundoff::lemma_power_value((e + 1074) as nat);
    exact::lemma_signed_value(false, nearest(p, 1));
}

/// Scaling a power of two.
pub proof fn lemma_scale_product(k: nat, e: int)
    requires
        k + e >= 0,
    ensures
        pow2(k) * rounding::scale_up(e) == pow2((k + e) as nat) * rounding::scale_down(e),
{
    if e >= 0 {
        lemma_pow2_adds(k, e as nat);
        let p = pow2((k + e) as nat);
        assert(p * 1 == p) by (nonlinear_arith);
    } else {
        lemma_pow2_adds((k + e) as nat, (-e) as nat);
        let p = pow2(k);
        assert(p * 1 == p) by (nonlinear_arith);
    }
}

/// A component divided by the scale of a vector: below two, and at least one for the
/// largest.
proof fn lemma_ratio(x: Binary64, e: i32)
    requires
        x.is_finite(),
        -1074 <= e <= 1023,
        x.units() < pow2((e + 1075) as nat),
    ensures
        x.over(one().scaled(e)).is_finite(),
        x.over(one().scaled(e)).units() <= pow2(1075),
        pow2((e + 1074) as nat) <= x.units() ==> x.over(one().scaled(e)).units() >= pow2(1074),
{
    let s = one().scaled(e);
    lemma_unit_of_scale(e);
    let (u, w, t) = (x.units(), s.units(), pow2(1074));
    lemma_pow2_pos((e + 1074) as nat);
    assert(units64(0) == 0);
    exact::lemma_order(0, s.magnitude() as nat);
    lemma_pow2_unfold((e + 1075) as nat);
    lemma_pow2_unfold(1075);
    lemma_pow2_pos(1074);
    let q = nearest(u * t, w);
    // Two and one, as ratios over the same scale.
    lemma_mul_inequality(u as int, (2 * w) as int, t as int);
    exact::rounding_is_monotone(u * t, (2 * w) * t, w);
    assert(((2 * w) * t) * 1 == (2 * t) * w) by (nonlinear_arith);
    exact::nearest_depends_on_the_ratio((2 * w) * t, w, 2 * t, 1);
    roundoff::lemma_power_value(1075);
    exact::lemma_order(q, nearest(pow2(1075), 1));
    exact::lemma_signed_value(x.negative() != s.negative(), q);
    if w <= u {
        lemma_mul_inequality(w as int, u as int, t as int);
        exact::rounding_is_monotone(w * t, u * t, w);
        assert((w * t) * 1 == t * w) by (nonlinear_arith);
        exact::nearest_depends_on_the_ratio(w * t, w, t, 1);
        roundoff::lemma_power_value(1074);
        exact::lemma_order(nearest(t, 1), q);
        exact::lemma_order(q, nearest(t, 1));
    }
}

/// The square of a ratio below two is below four, and of one from one on at least one.
proof fn lemma_square(r: Binary64)
    requires
        r.is_finite(),
        r.units() <= pow2(1075),
    ensures
        r.times(r).is_finite(),
        !r.times(r).negative(),
        r.times(r).units() <= pow2(1076),
        r.units() >= pow2(1074) ==> r.times(r).units() >= pow2(1074),
{
    let (u, t, w) = (r.units(), pow2(1074), pow2(1075));
    lemma_pow2_pos(1074);
    let q = nearest(u * u, t);
    lemma_mul_upper_bound(u as int, w as int, u as int, w as int);
    exact::rounding_is_monotone(u * u, w * w, t);
    lemma_pow2_adds(1075, 1075);
    lemma_pow2_adds(1076, 1074);
    let four = pow2(1076);
    assert((w * w) * 1 == w * w) by (nonlinear_arith);
    exact::nearest_depends_on_the_ratio(w * w, t, four, 1);
    roundoff::lemma_power_value(1076);
    exact::lemma_order(q, nearest(four, 1));
    exact::lemma_order(nearest(four, 1), q);
    exact::lemma_signed_value(false, q);
    if u >= t {
        lemma_mul_upper_bound(t as int, u as int, t as int, u as int);
        exact::rounding_is_monotone(t * t, u * u, t);
        assert((t * t) * 1 == t * t) by (nonlinear_arith);
        exact::nearest_depends_on_the_ratio(t * t, t, t, 1);
        roundoff::lemma_power_value(1074);
        exact::lemma_order(nearest(t, 1), q);
        exact::lemma_order(q, nearest(t, 1));
    }
}

/// A sum of two nonnegative values lies between the larger of them and any representable
/// bound of the exact sum.
pub proof fn lemma_nonnegative_sum(x: Binary64, y: Binary64, bound: nat)
    requires
        x.is_finite(),
        y.is_finite(),
        !x.negative(),
        !y.negative(),
        x.units() + y.units() <= bound,
        exact::representable(bound),
    ensures
        x.plus(y).is_finite(),
        !x.plus(y).negative(),
        x.units() <= x.plus(y).units() <= bound,
        y.units() <= x.plus(y).units(),
{
    let n = x.units() + y.units();
    exact::lemma_sum_value(x, y);
    let s = nearest(n, 1);
    exact::representable_values_are_not_rounded(bound);
    exact::rounding_is_monotone(n, bound, 1);
    exact::lemma_order(s, nearest(bound, 1));
    exact::lemma_order(nearest(bound, 1), s);
    laws::lemma_own_magnitude(x);
    laws::lemma_own_magnitude(y);
    exact::rounding_is_monotone(x.units(), n, 1);
    exact::rounding_is_monotone(y.units(), n, 1);
    exact::lemma_order(x.magnitude() as nat, s);
    exact::lemma_order(s, x.magnitude() as nat);
    exact::lemma_order(y.magnitude() as nat, s);
    exact::lemma_order(s, y.magnitude() as nat);
    if n == 0 {
        exact::lemma_signed_value(false, 0);
    }
}

/// A small multiple of four is representable.
proof fn lemma_fours(k: nat)
    requires
        k <= 0x1000_0000_0000,
    ensures
        exact::representable(k * pow2(1076)),
{
    roundoff::lemma_top();
    vstd::arithmetic::power2::lemma2_to64();
    vstd::arithmetic::power2::lemma2_to64_rest();
    lemma_pow2_pos(1076);
    lemma_mul_inequality(k as int, 0x1000_0000_0000, pow2(1076) as int);
    lemma_pow2_adds(44, 1076);
    vstd::arithmetic::power2::lemma_pow2_strictly_increases(1120, 2098);
    exact::lemma_representable(k, 1076);
}

/// One more square on a sum of `k` squares.
proof fn lemma_square_step(sum: Binary64, x: Binary64, e: i32, k: nat)
    requires
        k < 0x1000_0000_0000,
        -1074 <= e <= 1023,
        x.is_finite(),
        x.units() < pow2((e + 1075) as nat),
        sum.is_finite(),
        !sum.negative(),
        sum.units() <= k * pow2(1076),
    ensures
        ({
            let r = x.over(one().scaled(e));
            let next = sum.plus(r.times(r));
            &&& next.is_finite()
            &&& !next.negative()
            &&& next.units() <= (k + 1) * pow2(1076)
            &&& next.units() >= sum.units()
            &&& x.units() >= pow2((e + 1074) as nat) ==> next.units() >= pow2(1074)
        }),
{
    lemma_ratio(x, e);
    let r = x.over(one().scaled(e));
    lemma_square(r);
    let p = pow2(1076);
    assert(k * p + p == (k + 1) * p) by (nonlinear_arith);
    lemma_fours(k + 1);
    lemma_nonnegative_sum(sum, r.times(r), (k + 1) * p);
}

/// Whether every component is finite and below `2^(e + 1)` in magnitude.
#[verifier::opaque]
pub open spec fn fits(v: Seq<Binary64>, e: i32) -> bool {
    forall|i: int|
        0 <= i < v.len() ==> (#[trigger] v[i]).is_finite() && v[i].units() < pow2(
            (e + 1075) as nat,
        )
}

/// A vector fits the scale of its largest component.
pub proof fn lemma_vector_fits(v: Seq<Binary64>, e: i32)
    requires
        forall|i: int| 0 <= i < v.len() ==> (#[trigger] v[i]).is_finite(),
        largest(v).units() < pow2((e + 1075) as nat),
    ensures
        fits(v, e),
{
    reveal(fits);
    lemma_largest_is_attained(v);
    assert forall|i: int| 0 <= i < v.len() implies (#[trigger] v[i]).is_finite()
        && v[i].units() < pow2((e + 1075) as nat) by {
        assert(v[i].units() <= largest(v).units());
    }
}

/// What fits without its last component, and that component.
proof fn lemma_fits(v: Seq<Binary64>, e: i32)
    requires
        v.len() > 0,
        fits(v, e),
    ensures
        fits(v.drop_last(), e),
        v.last().is_finite(),
        v.last().units() < pow2((e + 1075) as nat),
{
    reveal(fits);
    let rest = v.drop_last();
    assert forall|i: int| 0 <= i < rest.len() implies (#[trigger] rest[i]).is_finite()
        && rest[i].units() < pow2((e + 1075) as nat) by {
        assert(rest[i] == v[i]);
    }
    assert(v[v.len() - 1] == v.last());
}

/// The sum of the squares of a scaled vector: at most four for each component, and at
/// least one where the component `at` reaches the scale.
#[verifier::spinoff_prover]
#[verifier::rlimit(50)]
pub proof fn lemma_squares(v: Seq<Binary64>, e: i32, at: int)
    requires
        v.len() <= VAST,
        -1074 <= e <= 1023,
        fits(v, e),
    ensures
        squares(v, one().scaled(e)).is_finite(),
        !squares(v, one().scaled(e)).negative(),
        squares(v, one().scaled(e)).units() <= v.len() * pow2(1076),
        0 <= at < v.len() && v[at].units() >= pow2((e + 1074) as nat) ==> squares(
            v,
            one().scaled(e),
        ).units() >= pow2(1074),
    decreases v.len(),
{
    let s = one().scaled(e);
    if v.len() == 0 {
        assert(units64(0) == 0);
        assert(0 * pow2(1076) == 0) by (nonlinear_arith);
    } else {
        let rest = v.drop_last();
        lemma_fits(v, e);
        lemma_squares(rest, e, at);
        lemma_square_step(squares(rest, s), v.last(), e, rest.len());
        assert(0 <= at < rest.len() ==> rest[at] == v[at]);
        assert(at == rest.len() ==> v[at] == v.last());
    }
}

/// The largest magnitude of a vector of finite values is attained, and bounds the others.
pub proof fn lemma_largest_is_attained(v: Seq<Binary64>)
    requires
        forall|i: int| 0 <= i < v.len() ==> (#[trigger] v[i]).is_finite(),
    ensures
        largest(v).is_finite(),
        !largest(v).negative(),
        forall|i: int| 0 <= i < v.len() ==> (#[trigger] v[i]).units() <= largest(v).units(),
        largest(v).units() > 0 ==> exists|i: int|
            0 <= i < v.len() && (#[trigger] v[i]).units() == largest(v).units(),
    decreases v.len(),
{
    assert(units64(0) == 0);
    if v.len() > 0 {
        let rest = v.drop_last();
        assert forall|i: int| 0 <= i < rest.len() implies (#[trigger] rest[i]).is_finite() by {
            assert(rest[i] == v[i]);
        }
        lemma_largest_is_attained(rest);
        let x = v.last();
        assert(v[v.len() - 1] == x);
        let (l, m) = (largest(rest), x.absolute());
        exact::lemma_signed_value(false, x.magnitude() as nat);
        exact::lemma_order(l.magnitude() as nat, m.magnitude() as nat);
        exact::lemma_order(m.magnitude() as nat, l.magnitude() as nat);
        assert forall|i: int| 0 <= i < v.len() implies (#[trigger] v[i]).units()
            <= largest(v).units() by {
            if i < rest.len() {
                assert(rest[i] == v[i]);
            }
        }
        if largest(v).units() > 0 {
            if l.below(m) {
                assert(v[v.len() - 1].units() == largest(v).units());
            } else {
                let i = choose|i: int|
                    0 <= i < rest.len() && (#[trigger] rest[i]).units() == l.units();
                assert(rest[i] == v[i]);
                assert(v[i].units() == largest(v).units());
            }
        }
    }
}

/// The root of a number between one and `4^k` lies between one and `2^k`.
pub proof fn lemma_root_between(x: Binary64, k: nat)
    requires
        k <= 100,
        x.is_finite(),
        !x.negative(),
        pow2(1074) <= x.units() <= pow2(1074 + 2 * k),
    ensures
        x.root().is_finite(),
        !x.root().negative(),
        pow2(1074) <= x.root().units() <= pow2(1074 + k),
{
    let (u, t) = (x.units(), pow2(1074));
    let (high, wide) = (pow2(1074 + k), pow2(1074 + 2 * k));
    lemma_pow2_pos(1074);
    assert(units64(0) == 0);
    exact::lemma_order(0, x.magnitude() as nat);
    let a = u * t;
    lemma_mul_inequality(t as int, u as int, t as int);
    lemma_mul_inequality(u as int, wide as int, t as int);
    lemma_pow2_adds(1074 + 2 * k, 1074);
    lemma_pow2_adds(1074 + k, 1074 + k);
    roundoff::lemma_power_value(1074);
    roundoff::lemma_power_value(1074 + k);
    let (p, q) = (nearest(t, 1), nearest(high, 1));
    roots::roots_keep_bounds(a, p);
    roots::roots_keep_bounds(a, q);
    let r = nearest_root(a);
    exact::lemma_order(p, r);
    exact::lemma_order(r, q);
    exact::lemma_order(r, p);
    exact::lemma_signed_value(false, r);
}

/// Scaling a value between one and `2^17`.
proof fn lemma_scaled_between(x: Binary64, e: i32)
    requires
        x.is_finite(),
        !x.negative(),
        pow2(1074) <= x.units() <= pow2(1091),
        -1074 <= e <= 1000,
    ensures
        x.scaled(e).is_finite(),
        !x.scaled(e).negative(),
        pow2((e + 1074) as nat) <= x.scaled(e).units() <= pow2((e + 1091) as nat),
{
    let u = x.units();
    let (up, down) = (rounding::scale_up(e as int), rounding::scale_down(e as int));
    let (lo, hi) = (pow2((e + 1074) as nat), pow2((e + 1091) as nat));
    lemma_scale_product(1074, e as int);
    lemma_scale_product(1091, e as int);
    if e < 0 {
        lemma_pow2_pos((-e) as nat);
    } else {
        lemma_pow2_pos(e as nat);
    }
    lemma_mul_inequality(pow2(1074) as int, u as int, up as int);
    lemma_mul_inequality(u as int, pow2(1091) as int, up as int);
    exact::rounding_is_monotone(pow2(1074) * up, u * up, down);
    exact::rounding_is_monotone(u * up, pow2(1091) * up, down);
    assert((pow2(1074) * up) * 1 == pow2(1074) * up && (pow2(1091) * up) * 1 == pow2(1091) * up)
        by (nonlinear_arith);
    exact::nearest_depends_on_the_ratio(pow2(1074) * up, down, lo, 1);
    exact::nearest_depends_on_the_ratio(pow2(1091) * up, down, hi, 1);
    roundoff::lemma_power_value((e + 1074) as nat);
    roundoff::lemma_power_value((e + 1091) as nat);
    let r = nearest(u * up, down);
    exact::lemma_order(nearest(lo, 1), r);
    exact::lemma_order(r, nearest(lo, 1));
    exact::lemma_order(r, nearest(hi, 1));
    exact::lemma_order(nearest(hi, 1), r);
    exact::lemma_signed_value(false, r);
}

/// The largest number of dimensions that the bounds are stated for.
pub const WIDE: u64 = 0x1_0000_0000;

/// The largest number of dimensions that sums of squares are stated for: `2^44`, more
/// components than a machine can address.
pub const VAST: u64 = 0x1000_0000_0000;

/// A computed norm lies between the power of two of its scale and `2^17` times it.
pub proof fn norms_keep_their_scale(v: Seq<Binary64>)
    requires
        v.len() <= WIDE,
        forall|i: int| 0 <= i < v.len() ==> (#[trigger] v[i]).is_finite(),
        0 < largest(v).units() <= pow2(2070),
    ensures
        ({
            let e = largest(v).exponent();
            &&& -1074 <= e <= 1000
            &&& pow2((e + 1074) as nat) <= largest(v).units() < pow2((e + 1075) as nat)
            &&& norm(v).is_finite()
            &&& !norm(v).negative()
            &&& pow2((e + 1074) as nat) <= norm(v).units() <= pow2((e + 1091) as nat)
        }),
{
    let l = largest(v);
    lemma_largest_is_attained(v);
    assert(units64(0) == 0);
    exact::lemma_order(0, l.magnitude() as nat);
    exact::every_finite_value_has_an_exponent(l);
    let e = l.exponent();
    if e > 1000 {
        vstd::arithmetic::power2::lemma_pow2_strictly_increases(2070, (e + 1074) as nat);
    }
    lemma_vector_fits(v, e);
    let at = choose|i: int| 0 <= i < v.len() && (#[trigger] v[i]).units() == l.units();
    lemma_squares(v, e, at);
    lemma_scale_is_found(v, e);
    let sq = squares(v, one().scaled(e));
    let p = pow2(1076);
    lemma_mul_inequality(v.len() as int, WIDE as int, p as int);
    vstd::arithmetic::power2::lemma2_to64();
    lemma_pow2_adds(32, 1076);
    lemma_root_between(sq, 17);
    lemma_scaled_between(sq.root(), e);
}

/// The scale exponent of a vector with a largest component.
pub proof fn lemma_scale_is_found(v: Seq<Binary64>, e: i32)
    requires
        largest(v).is_finite(),
        largest(v).magnitude() != 0,
        e == largest(v).exponent(),
    ensures
        scale_of(v) == Some(e),
        norm(v) == squares(v, one().scaled(e)).root().scaled(e),
{
}

/// The sum of the squares of the components, exactly.
pub open spec fn energy(v: Seq<Binary64>) -> nat
    decreases v.len(),
{
    if v.len() == 0 {
        0
    } else {
        energy(v.drop_last()) + v.last().units() * v.last().units()
    }
}

/// What a bound on an error relative to the result says relative to the exact value.
pub proof fn lemma_error_of_exact(s: nat, exact: nat, half: nat)
    requires
        2 * (size(s - exact) * PRECISION) <= 2 * s + PRECISION * half,
    ensures
        size(s - exact) * PRECISION <= 2 * exact + PRECISION * half,
{
}

/// The error of a rounded ratio, relative and absolute together.
pub proof fn lemma_ratio_error(a: nat, b: nat)
    requires
        b > 0,
        nearest(a, b) < INFINITY64,
    ensures
        size(units64(nearest(a, b)) * b - a) * PRECISION <= 2 * a + PRECISION * b,
{
    roundoff::rounding_error_is_bounded(a, b);
    let s = units64(nearest(a, b)) * b;
    lemma_error_of_exact(s, a, b);
}

/// The arithmetic of the square of a rounded ratio: `ratio` is `x * unit / g` rounded.
#[verifier::spinoff_prover]
pub proof fn lemma_ratio_square(x: nat, g: nat, unit: nat, ratio: nat)
    requires
        0 < unit,
        x <= 2 * g,
        size(ratio * g - x * unit) * PRECISION <= 2 * (x * unit) + PRECISION * g,
    ensures
        size((ratio * ratio) * (g * g) - (x * unit) * (x * unit)) * PRECISION <= 6 * ((x * unit)
            * (x * unit)) + 8 * (PRECISION * (unit * (g * g))),
{
    let p = PRECISION as nat;
    let y = x * unit;
    let d = ratio * g - y;
    let ds = size(d);
    let (yy, rr, gg) = (y * y, (ratio * ratio) * (g * g), unit * (g * g));
    assert(rr - yy == 2 * (y * d) + d * d) by (nonlinear_arith)
        requires
            rr == (ratio * ratio) * (g * g),
            yy == y * y,
            d == ratio * g - y,
    ;
    assert(size(y * d) == y * ds) by {
        lemma_size_times(d, y);
        assert(y * d == d * y && y * ds == ds * y) by (nonlinear_arith);
    }
    assert(d * d == ds * ds) by {
        assert((-d) * (-d) == d * d) by (nonlinear_arith);
    }
    let yg = y * g;
    let g2 = g * g;
    assert(yg <= 2 * gg) by (nonlinear_arith)
        requires
            yg == (x * unit) * g,
            gg == unit * (g * g),
            x <= 2 * g,
    ;
    assert(g2 <= gg) by (nonlinear_arith)
        requires
            gg == unit * g2,
            unit >= 1,
    ;
    // `P * y * |d| <= 2 y^2 + P y g`.
    assert((y * ds) * p <= 2 * yy + p * yg) by (nonlinear_arith)
        requires
            ds * p <= 2 * y + p * g,
            yy == y * y,
            yg == y * g,
    ;
    // `P * |d|^2 <= |d| * (2 y + P g)`, with `|d| <= y + g`.
    assert(ds <= y + g);
    assert((ds * ds) * p <= ds * (2 * y + p * g)) by (nonlinear_arith)
        requires
            ds * p <= 2 * y + p * g,
    ;
    assert(ds * (2 * y + p * g) <= (y + g) * (2 * y + p * g)) by (nonlinear_arith)
        requires
            ds <= y + g,
    ;
    assert((y + g) * (2 * y + p * g) == 2 * yy + p * yg + 2 * yg + p * g2) by (nonlinear_arith)
        requires
            yy == y * y,
            yg == y * g,
            g2 == g * g,
    ;
}

/// The arithmetic of the square of a scaled component: `ratio` is `x * unit / g` rounded,
/// and `square` is `ratio * ratio / unit` rounded.
#[verifier::spinoff_prover]
proof fn lemma_square_arithmetic(x: nat, g: nat, unit: nat, ratio: nat, square: nat)
    requires
        0 < unit,
        x < 2 * g,
        size(ratio * g - x * unit) * PRECISION <= 2 * (x * unit) + PRECISION * g,
        size(square * unit - ratio * ratio) * PRECISION <= 2 * (ratio * ratio) + PRECISION * unit,
    ensures
        size(square * (g * g) - x * x * unit) * PRECISION <= 16 * (x * x * unit) + 16 * (PRECISION
            * (g * g)),
{
    let p = PRECISION as nat;
    let y = x * unit;
    let g2 = g * g;
    let (yy, rr, gg) = (y * y, (ratio * ratio) * g2, unit * g2);
    lemma_ratio_square(x, g, unit, ratio);
    let e = size(rr - yy);
    assert(e * p <= 6 * yy + 8 * (p * gg));
    // The rounded square.
    let f = size(square * unit - ratio * ratio);
    assert((square * unit - ratio * ratio) * g2 == square * unit * g2 - rr) by (nonlinear_arith)
        requires
            rr == (ratio * ratio) * g2,
    ;
    lemma_size_times(square * unit - ratio * ratio, g2);
    assert((f * p) * g2 <= (2 * (ratio * ratio) + p * unit) * g2) by (nonlinear_arith)
        requires
            f * p <= 2 * (ratio * ratio) + p * unit,
    ;
    assert((2 * (ratio * ratio) + p * unit) * g2 == 2 * rr + p * gg) by (nonlinear_arith)
        requires
            rr == (ratio * ratio) * g2,
            gg == unit * g2,
    ;
    assert((f * p) * g2 == (f * g2) * p) by (nonlinear_arith);
    let h = size(square * unit * g2 - yy);
    assert(h <= f * g2 + e);
    assert(h * p <= 16 * yy + 16 * (p * gg));
    // Divided by the unit again.
    let k = size(square * g2 - x * x * unit);
    assert((square * g2 - x * x * unit) * unit == square * unit * g2 - yy) by (nonlinear_arith)
        requires
            yy == (x * unit) * (x * unit),
    ;
    lemma_size_times(square * g2 - x * x * unit, unit);
    assert(16 * yy + 16 * (p * gg) == (16 * (x * x * unit) + 16 * (p * g2)) * unit)
        by (nonlinear_arith)
        requires
            yy == (x * unit) * (x * unit),
            gg == unit * g2,
    ;
    assert(h * p == (k * p) * unit) by (nonlinear_arith)
        requires
            h == k * unit,
    ;
    lemma_mul_inequality_converse(
        (k * p) as int,
        (16 * (x * x * unit) + 16 * (p * g2)) as int,
        unit as int,
    );
}

/// The arithmetic of one more square on a sum of `k` squares.
#[verifier::spinoff_prover]
proof fn lemma_sum_arithmetic(
    k: nat,
    total: nat,
    more: nat,
    grid: nat,
    sum: nat,
    square: nat,
    next: nat,
)
    requires
        k < VAST,
        size(sum * grid - total) * PRECISION <= (16 + 2 * k) * total + 32 * (k * (PRECISION
            * grid)),
        size(square * grid - more) * PRECISION <= 16 * more + 16 * (PRECISION * grid),
        size(next - (sum + square)) * PRECISION <= sum + square,
    ensures
        size(next * grid - (total + more)) * PRECISION <= (16 + 2 * (k + 1)) * (total + more) + 32
            * ((k + 1) * (PRECISION * grid)),
{
    let p = PRECISION as nat;
    let pg = p * grid;
    let (a, b) = (size(sum * grid - total), size(square * grid - more));
    let c = size(next - (sum + square));
    assert((next - (sum + square)) * grid == next * grid - sum * grid - square * grid)
        by (nonlinear_arith);
    lemma_size_times(next - (sum + square), grid);
    let d = size(next * grid - (total + more));
    assert(d <= c * grid + a + b);
    assert((c * grid) * p <= (sum + square) * grid) by (nonlinear_arith)
        requires
            c * p <= sum + square,
    ;
    assert((sum + square) * grid == sum * grid + square * grid) by (nonlinear_arith);
    // The sum itself, from its errors.
    lemma_mul_inequality(k as int, VAST as int, total as int);
    assert((16 + 2 * k) * total == 16 * total + 2 * (k * total)) by (nonlinear_arith);
    let kg = k * pg;
    assert(kg == (k * grid) * p) by (nonlinear_arith)
        requires
            kg == k * pg,
            pg == p * grid,
    ;
    lemma_mul_inequality(k as int, VAST as int, grid as int);
    assert(a <= total + 32 * (k * grid));
    assert(b <= more + 16 * grid);
    assert((c * grid) * p <= 2 * total + 2 * more + 16 * pg);
    assert((k + 1) * pg == kg + pg) by (nonlinear_arith)
        requires
            kg == k * pg,
    ;
    assert((16 + 2 * (k + 1)) * (total + more) == (16 + 2 * k) * total + 2 * total + (18 + 2 * k)
        * more) by (nonlinear_arith);
    assert((18 + 2 * k) * more >= 18 * more) by (nonlinear_arith);
}

/// The square of a scaled component, against the exact one.
proof fn lemma_square_accuracy(x: Binary64, e: i32)
    requires
        x.is_finite(),
        -1074 <= e <= 1023,
        x.units() < pow2((e + 1075) as nat),
    ensures
        ({
            let g = pow2((e + 1074) as nat);
            let r = x.over(one().scaled(e));
            let u = x.units();
            size(r.times(r).units() * (g * g) - u * u * pow2(1074)) * PRECISION <= 16 * (u * u
                * pow2(1074)) + 16 * (PRECISION * (g * g))
        }),
{
    let (g, t, u) = (pow2((e + 1074) as nat), pow2(1074), x.units());
    let s = one().scaled(e);
    let r = x.over(s);
    lemma_pow2_pos((e + 1074) as nat);
    lemma_pow2_pos(1074);
    lemma_pow2_unfold((e + 1075) as nat);
    lemma_unit_of_scale(e);
    lemma_ratio(x, e);
    lemma_square(r);
    assert(units64(0) == 0);
    exact::lemma_order(0, s.magnitude() as nat);
    exact::every_ratio_has_a_nearest_value(u * t, g);
    exact::lemma_signed_value(x.negative() != s.negative(), nearest(u * t, g));
    lemma_ratio_error(u * t, g);
    let q = r.units();
    exact::every_ratio_has_a_nearest_value(q * q, t);
    exact::lemma_signed_value(false, nearest(q * q, t));
    lemma_ratio_error(q * q, t);
    lemma_square_arithmetic(u, g, t, q, r.times(r).units());
}

/// The error of adding one more square.
proof fn lemma_step_error(sum: Binary64, x: Binary64, e: i32, k: nat)
    requires
        x.is_finite(),
        -1074 <= e <= 1023,
        x.units() < pow2((e + 1075) as nat),
        k < VAST,
        sum.is_finite(),
        !sum.negative(),
        sum.units() <= k * pow2(1076),
    ensures
        ({
            let r = x.over(one().scaled(e));
            let square = r.times(r);
            size(sum.plus(square).units() - (sum.units() + square.units())) * PRECISION
                <= sum.units() + square.units()
        }),
{
    let r = x.over(one().scaled(e));
    lemma_square_step(sum, x, e, k);
    lemma_ratio(x, e);
    lemma_square(r);
    let p4 = pow2(1076);
    lemma_mul_inequality(k as int, VAST as int, p4 as int);
    vstd::arithmetic::power2::lemma2_to64();
    vstd::arithmetic::power2::lemma2_to64_rest();
    lemma_pow2_adds(44, 1076);
    lemma_pow2_unfold(1121);
    vstd::arithmetic::power2::lemma_pow2_strictly_increases(1076, 1120);
    vstd::arithmetic::power2::lemma_pow2_strictly_increases(1121, 2097);
    roundoff::lemma_sum_error(sum, r.times(r));
}

/// The computed sum of the squares of a scaled vector, against the exact one.
#[verifier::spinoff_prover]
#[verifier::rlimit(50)]
pub proof fn lemma_squares_accuracy(v: Seq<Binary64>, e: i32)
    requires
        v.len() <= VAST,
        -1074 <= e <= 1023,
        fits(v, e),
    ensures
        ({
            let g = pow2((e + 1074) as nat);
            let exact = energy(v) * pow2(1074);
            size(squares(v, one().scaled(e)).units() * (g * g) - exact) * PRECISION <= (16 + 2
                * v.len()) * exact + 32 * (v.len() * (PRECISION * (g * g)))
        }),
    decreases v.len(),
{
    let (g, t) = (pow2((e + 1074) as nat), pow2(1074));
    let s = one().scaled(e);
    let grid = g * g;
    if v.len() == 0 {
        assert(units64(0) == 0);
        assert(0 * grid == 0 && 0 * t == 0 && 0 * (PRECISION * grid) == 0) by (nonlinear_arith);
        assert(16 * 0 == 0) by (nonlinear_arith);
    } else {
        let rest = v.drop_last();
        let k = rest.len();
        lemma_fits(v, e);
        lemma_squares_accuracy(rest, e);
        lemma_squares(rest, e, 0);
        let x = v.last();
        lemma_square_accuracy(x, e);
        let sum = squares(rest, s);
        let square = x.over(s).times(x.over(s));
        lemma_step_error(sum, x, e, k);
        let next = squares(v, s);
        assert(next == sum.plus(square));
        let (a, u) = (energy(rest), x.units());
        assert((a + u * u) * t == a * t + u * u * t) by (nonlinear_arith);
        lemma_sum_arithmetic(
            k,
            a * t,
            u * u * t,
            grid,
            sum.units(),
            square.units(),
            next.units(),
        );
    }
}

/// The nearest root, squared, is close to the number.
pub proof fn the_nearest_root_is_close(a: nat)
    requires
        HIDDEN64 * HIDDEN64 <= a,
        nearest_root(a) < INFINITY64,
    ensures
        close(
            units64(nearest_root(a)) * units64(nearest_root(a)),
            a,
            0x4_0000_0000_0000,
        ),
{
    let h = HIDDEN64 as nat;
    let r = nearest_root(a);
    roots::every_number_has_a_nearest_root(a);
    vstd::arithmetic::power2::lemma2_to64();
    vstd::arithmetic::power2::lemma2_to64_rest();
    assert(units64(h) == h) by {
        assert((h + 0) * 1 == h) by (nonlinear_arith);
    }
    roots::roots_keep_bounds(a, h);
    exact::lemma_order(h, r);
    exact::lemma_order(r, h);
    let u = units64(r);
    assert(u >= h);
    // Above.
    crate::binary::lemma_units_step(r, h);
    let up = crate::binary::ulp(r, h);
    roundoff::lemma_step_is_small(r);
    let v = units64(r + 1);
    assert(units64(r) + units64(r + 1) == 2 * u + up);
    // Below.
    let down = (r - 1) as nat;
    assert(units64(0) == 0);
    crate::binary::lemma_units_step(down, h);
    let step = crate::binary::ulp(down, h);
    roundoff::lemma_step_is_small(down);
    assert(units64(r) + units64(down) == 2 * u - step);
    let (x, y) = (2 * u + up, 2 * u - step);
    assert(4 * a <= x * x && y * y <= 4 * a);
    assert(step * h <= u);
    lemma_root_arithmetic(a, u, up, step);
}

/// The arithmetic of the error of a root.
proof fn lemma_root_arithmetic(a: nat, u: nat, up: nat, down: nat)
    requires
        u >= HIDDEN64,
        up * HIDDEN64 <= u,
        down * HIDDEN64 <= u,
        4 * a <= (2 * u + up) * (2 * u + up),
        (2 * u - down) * (2 * u - down) <= 4 * a,
    ensures
        close(u * u, a, 0x4_0000_0000_0000),
{
    let h = HIDDEN64 as nat;
    let (uu, a1, a2) = (u * u, u * up, u * down);
    assert((2 * u + up) * (2 * u + up) == 4 * uu + 4 * a1 + up * up) by (nonlinear_arith)
        requires
            uu == u * u,
            a1 == u * up,
    ;
    assert((2 * u - down) * (2 * u - down) == 4 * uu - 4 * a2 + down * down) by (nonlinear_arith)
        requires
            uu == u * u,
            a2 == u * down,
    ;
    assert(up * up <= a1) by (nonlinear_arith)
        requires
            up <= u,
            a1 == u * up,
    ;
    assert(0 <= down * down) by (nonlinear_arith);
    assert(a1 * h <= uu) by (nonlinear_arith)
        requires
            up * h <= u,
            a1 == u * up,
            uu == u * u,
    ;
    assert(a2 * h <= uu) by (nonlinear_arith)
        requires
            down * h <= u,
            a2 == u * down,
            uu == u * u,
    ;
}

/// The exact sum of squares is at least the square of any component.
pub proof fn lemma_energy_contains(v: Seq<Binary64>, at: int)
    requires
        0 <= at < v.len(),
    ensures
        v[at].units() * v[at].units() <= energy(v),
    decreases v.len(),
{
    let rest = v.drop_last();
    let u = v.last().units();
    assert(0 <= u * u) by (nonlinear_arith);
    if at < rest.len() {
        lemma_energy_contains(rest, at);
        assert(rest[at] == v[at]);
    }
}

/// The arithmetic of the error of a sum of squares.
pub proof fn lemma_squares_close(n: nat, sum: nat, grid: nat, exact: nat, unit: nat, energy: nat)
    requires
        n <= WIDE,
        exact == energy * unit,
        grid <= energy,
        unit >= pow2(200),
        size(sum * grid - exact) * PRECISION <= (16 + 2 * n) * exact + 32 * (n * (PRECISION
            * grid)),
    ensures
        close(sum * grid, exact, 0x8_0000),
{
    let p = PRECISION as nat;
    vstd::arithmetic::power2::lemma2_to64();
    vstd::arithmetic::power2::lemma2_to64_rest();
    lemma_pow2_adds(53, 37);
    vstd::arithmetic::power2::lemma_pow2_strictly_increases(90, 200);
    assert((16 + 2 * n) * exact <= (16 + 2 * WIDE) * exact) by (nonlinear_arith)
        requires
            n <= WIDE,
    ;
    assert(n * (p * grid) <= WIDE * (p * energy)) by (nonlinear_arith)
        requires
            n <= WIDE,
            grid <= energy,
    ;
    lemma_mul_inequality(pow2(90) as int, unit as int, energy as int);
    assert(pow2(90) * energy <= exact) by (nonlinear_arith)
        requires
            pow2(90) * energy <= unit * energy,
            exact == energy * unit,
    ;
    assert(32 * (WIDE * (p * energy)) == pow2(90) * energy) by (nonlinear_arith)
        requires
            pow2(90) == pow2(53) * pow2(37),
            pow2(53) == p,
            pow2(37) == 0x20_0000_0000,
    ;
    assert(size(sum * grid - exact) * PRECISION <= (17 + 2 * WIDE) * exact);
}

/// The computed norm, squared, is within one part in `2^14` of the exact sum of the squares,
/// for vectors that are not next to nothing.
pub proof fn norms_are_accurate(v: Seq<Binary64>)
    requires
        v.len() <= WIDE,
        forall|i: int| 0 <= i < v.len() ==> (#[trigger] v[i]).is_finite(),
        pow2(40) <= largest(v).units() <= pow2(2070),
    ensures
        norm(v).is_finite(),
        !norm(v).negative(),
        close(norm(v).units() * norm(v).units(), energy(v), 0x4000),
{
    lemma_pow2_pos(40);
    norms_keep_their_scale(v);
    let e = largest(v).exponent();
    let (g, t) = (pow2((e + 1074) as nat), pow2(1074));
    let grid = g * g;
    lemma_largest_is_attained(v);
    lemma_vector_fits(v, e);
    let at = choose|i: int| 0 <= i < v.len() && (#[trigger] v[i]).units() == largest(v).units();
    lemma_squares(v, e, at);
    lemma_squares_accuracy(v, e);
    lemma_energy_contains(v, at);
    assert(units64(0) == 0);
    exact::lemma_order(0, largest(v).magnitude() as nat);
    lemma_scale_is_found(v, e);
    lemma_mul_upper_bound(
        g as int,
        largest(v).units() as int,
        g as int,
        largest(v).units() as int,
    );
    let sum = squares(v, one().scaled(e));
    let q = sum.units();
    let n = energy(v);
    vstd::arithmetic::power2::lemma_pow2_strictly_increases(200, 1074);
    lemma_squares_close(v.len(), q, grid, n * t, t, n);
    // The root of the sum, and the root scaled back.
    let p4 = pow2(1076);
    lemma_mul_inequality(v.len() as int, WIDE as int, p4 as int);
    vstd::arithmetic::power2::lemma2_to64();
    lemma_pow2_adds(32, 1076);
    lemma_root_between(sum, 17);
    lemma_root_accuracy(sum, 17);
    let root = sum.root();
    let c0 = root.units();
    if e < -1034 {
        vstd::arithmetic::power2::lemma_pow2_strictly_increases((e + 1075) as nat, 40);
        lemma_pow2_unfold((e + 1075) as nat);
    }
    lemma_scaled_accuracy(root, e);
    let c = norm(v).units();
    lemma_norm_arithmetic(n, q, c0, c, g, t);
}

/// The arithmetic of a norm: from the sum of squares to its root, and from the root to the
/// norm.
proof fn lemma_norm_arithmetic(n: nat, q: nat, c0: nat, c: nat, g: nat, t: nat)
    requires
        t > 0,
        close(q * (g * g), n * t, 0x8_0000),
        close(c0 * c0, q * t, 0x4_0000_0000_0000),
        close(c * t, c0 * g, 0x40_0000_0000),
    ensures
        close(c * c, n, 0x4000),
{
    let grid = g * g;
    close::closeness_scales(q * grid, n * t, 0x8_0000, t);
    close::closeness_scales(c0 * c0, q * t, 0x4_0000_0000_0000, grid);
    assert((q * t) * grid == (q * grid) * t) by (nonlinear_arith);
    close::closeness_weakens((c0 * c0) * grid, (q * grid) * t, 0x4_0000_0000_0000, 0x8_0000);
    close::closeness_adds_up((c0 * c0) * grid, (q * grid) * t, (n * t) * t, 0x2_0000);
    close::squares_stay_close(c * t, c0 * g, 0x10_0000_0000);
    assert((c0 * g) * (c0 * g) == (c0 * c0) * grid) by (nonlinear_arith)
        requires
            grid == g * g,
    ;
    close::closeness_weakens((c * t) * (c * t), (c0 * c0) * grid, 0x10_0000_0000, 0x2_0000);
    close::closeness_adds_up((c * t) * (c * t), (c0 * c0) * grid, (n * t) * t, 0x8000);
    assert((c * t) * (c * t) == (c * c) * (t * t) && (n * t) * t == n * (t * t))
        by (nonlinear_arith);
    vstd::arithmetic::mul::lemma_mul_strictly_positive(t as int, t as int);
    close::closeness_cancels(c * c, n, 0x8000, t * t);
    close::closeness_weakens(c * c, n, 0x8000, 0x4000);
}

/// The root of a sum of squares.
pub proof fn lemma_root_accuracy(x: Binary64, k: nat)
    requires
        k <= 100,
        x.is_finite(),
        !x.negative(),
        pow2(1074) <= x.units() <= pow2(1074 + 2 * k),
    ensures
        close(x.root().units() * x.root().units(), x.units() * pow2(1074), 0x4_0000_0000_0000),
{
    let (u, t) = (x.units(), pow2(1074));
    let a = u * t;
    lemma_root_between(x, k);
    lemma_pow2_pos(1074);
    assert(units64(0) == 0);
    exact::lemma_order(0, x.magnitude() as nat);
    roots::every_number_has_a_nearest_root(a);
    exact::lemma_signed_value(false, nearest_root(a));
    vstd::arithmetic::power2::lemma2_to64_rest();
    vstd::arithmetic::power2::lemma_pow2_strictly_increases(52, 1074);
    lemma_mul_upper_bound(HIDDEN64 as int, u as int, HIDDEN64 as int, t as int);
    the_nearest_root_is_close(a);
}

/// A root scaled back to the scale of its vector.
proof fn lemma_scaled_accuracy(x: Binary64, e: i32)
    requires
        x.is_finite(),
        !x.negative(),
        pow2(1074) <= x.units() <= pow2(1091),
        -1034 <= e <= 1000,
    ensures
        close(x.scaled(e).units() * pow2(1074), x.units() * pow2((e + 1074) as nat), 0x40_0000_0000),
{
    let (u, t, g) = (x.units(), pow2(1074), pow2((e + 1074) as nat));
    let (up, down) = (rounding::scale_up(e as int), rounding::scale_down(e as int));
    lemma_scaled_between(x, e);
    lemma_pow2_pos(1074);
    if e < 0 {
        lemma_pow2_pos((-e) as nat);
    }
    lemma_scale_product(1074, e as int);
    assert((u * up) * t == (u * g) * down) by (nonlinear_arith)
        requires
            t * up == g * down,
    ;
    exact::nearest_depends_on_the_ratio(u * up, down, u * g, t);
    exact::every_ratio_has_a_nearest_value(u * g, t);
    exact::lemma_signed_value(false, nearest(u * g, t));
    roundoff::rounding_error_is_bounded(u * g, t);
    let c = x.scaled(e).units();
    assert(c == units64(nearest(u * g, t)));
    let d = size(c * t - u * g);
    vstd::arithmetic::power2::lemma2_to64();
    vstd::arithmetic::power2::lemma2_to64_rest();
    if e > -1034 {
        vstd::arithmetic::power2::lemma_pow2_strictly_increases(40, (e + 1074) as nat);
    }
    assert(c >= pow2(40));
    lemma_mul_inequality(pow2(40) as int, c as int, t as int);
    assert(d * 0x80_0000_0000 <= c * t);
    assert(size(u * g - c * t) == d);
    close::closeness_turns_around(c * t, u * g, 0x40_0000_0000);
}

/// A vector of zeros has a zero for its norm.
pub proof fn lemma_norm_of_nothing(v: Seq<Binary64>)
    requires
        largest(v).is_finite(),
        !largest(v).negative(),
        largest(v).units() == 0,
    ensures
        norm(v) == zero(),
{
    assert(units64(0) == 0);
    exact::lemma_order(0, largest(v).magnitude() as nat);
    assert(largest(v) == zero());
}

} // verus!
