//! Laws of the coverage weights.
use vstd::arithmetic::mul::{
    lemma_mul_inequality, lemma_mul_strict_inequality, lemma_mul_strict_inequality_converse,
    lemma_mul_strictly_positive,
};
use vstd::arithmetic::power2::{lemma_pow2_adds, lemma_pow2_pos, pow2};
use vstd::prelude::*;

use crate::aggregate::domain::{coverage_in_range, input_error};
use crate::aggregate::fold::{coverage_weight, folded};
use crate::aggregate::laws::{self, one, zero};
use crate::aggregate::norm::{largest, smallest};
use crate::aggregate::policy::{
    coverage_weights, lift, uniform_weights, AggregatePolicy, CoverageWeightedMean,
};
use crate::arith::{nearest, signed};
use crate::binary::{Binary64, ONE64};
use crate::error::WinditError;
use crate::exact;
use crate::ratio::is_ratio;
use crate::rounding::units64;
use crate::roundoff;

verus! {

/// Whether two coverage slices are exactly proportional: `a` times the one is `b` times
/// the other.
pub open spec fn proportional(c: Seq<Binary64>, d: Seq<Binary64>, a: nat, b: nat) -> bool {
    &&& a > 0
    &&& b > 0
    &&& c.len() == d.len()
    &&& forall|i: int|
        0 <= i < c.len() ==> (#[trigger] c[i]).units() * a == d[i].units() * b
            && c[i].negative() == d[i].negative()
}

/// A coverage in range is finite, and at most one.
pub proof fn lemma_in_range(c: Binary64)
    requires
        coverage_in_range(c),
    ensures
        c.is_finite(),
        c.units() <= pow2(1074),
        c.negative() ==> c.magnitude() == 0,
{
    laws::lemma_one_units();
    exact::lemma_order(ONE64 as nat, c.magnitude() as nat);
}

/// Order is kept by a common factor.
proof fn lemma_scaled_order(u1: nat, u2: nat, v1: nat, v2: nat, a: nat, b: nat)
    requires
        a > 0,
        b > 0,
        u1 * a == v1 * b,
        u2 * a == v2 * b,
    ensures
        u1 < u2 <==> v1 < v2,
{
    if u1 < u2 {
        lemma_mul_strict_inequality(u1 as int, u2 as int, a as int);
        lemma_mul_strict_inequality_converse(v1 as int, v2 as int, b as int);
    }
    if v1 < v2 {
        lemma_mul_strict_inequality(v1 as int, v2 as int, b as int);
        lemma_mul_strict_inequality_converse(u1 as int, u2 as int, a as int);
    }
}

/// Zero is kept by a common factor.
proof fn lemma_scaled_zero(u: nat, v: nat, a: nat, b: nat)
    requires
        a > 0,
        b > 0,
        u * a == v * b,
    ensures
        u == 0 <==> v == 0,
{
    assert(0 * a == 0 && 0 * b == 0) by (nonlinear_arith);
    lemma_scaled_order(0, u, 0, v, a, b);
}

/// The magnitude of a value is ordered as its pattern.
pub proof fn lemma_magnitudes(x: Binary64, y: Binary64)
    requires
        x.is_finite(),
        y.is_finite(),
        !x.negative(),
        !y.negative(),
    ensures
        x.below(y) <==> x.units() < y.units(),
        x.at_least(y) <==> x.units() >= y.units(),
        x.units() == 0 <==> x.magnitude() == 0,
{
    assert(units64(0) == 0);
    exact::lemma_order(x.magnitude() as nat, y.magnitude() as nat);
    exact::lemma_order(y.magnitude() as nat, x.magnitude() as nat);
    exact::lemma_order(0, x.magnitude() as nat);
}

/// The largest magnitudes of proportional slices are proportional.
proof fn lemma_largest(c: Seq<Binary64>, d: Seq<Binary64>, a: nat, b: nat)
    requires
        proportional(c, d, a, b),
        forall|i: int| 0 <= i < c.len() ==> (#[trigger] c[i]).is_finite(),
        forall|i: int| 0 <= i < d.len() ==> (#[trigger] d[i]).is_finite(),
    ensures
        largest(c).is_finite(),
        largest(d).is_finite(),
        !largest(c).negative(),
        !largest(d).negative(),
        largest(c).units() * a == largest(d).units() * b,
    decreases c.len(),
{
    assert(units64(0) == 0);
    assert(0 * a == 0 && 0 * b == 0) by (nonlinear_arith);
    if c.len() > 0 {
        let (c0, d0) = (c.drop_last(), d.drop_last());
        assert(proportional(c0, d0, a, b)) by {
            assert forall|i: int| 0 <= i < c0.len() implies (#[trigger] c0[i]).units() * a
                == d0[i].units() * b && c0[i].negative() == d0[i].negative() by {
                assert(c0[i] == c[i]);
            }
        }
        assert forall|i: int| 0 <= i < c0.len() implies (#[trigger] c0[i]).is_finite() by {
            assert(c0[i] == c[i]);
        }
        assert forall|i: int| 0 <= i < d0.len() implies (#[trigger] d0[i]).is_finite() by {
            assert(d0[i] == d[i]);
        }
        lemma_largest(c0, d0, a, b);
        let (x, y) = (c.last(), d.last());
        assert(c[c.len() - 1] == x);
        exact::lemma_signed_value(false, x.magnitude() as nat);
        exact::lemma_signed_value(false, y.magnitude() as nat);
        lemma_magnitudes(largest(c0), x.absolute());
        lemma_magnitudes(largest(d0), y.absolute());
        lemma_scaled_order(
            largest(c0).units(),
            x.units(),
            largest(d0).units(),
            y.units(),
            a,
            b,
        );
    }
}

/// The smallest nonzero magnitudes of proportional slices are proportional.
#[verifier::spinoff_prover]
#[verifier::rlimit(50)]
proof fn lemma_smallest(c: Seq<Binary64>, d: Seq<Binary64>, a: nat, b: nat)
    requires
        proportional(c, d, a, b),
        forall|i: int| 0 <= i < c.len() ==> (#[trigger] c[i]).is_finite(),
        forall|i: int| 0 <= i < d.len() ==> (#[trigger] d[i]).is_finite(),
    ensures
        smallest(c).is_finite(),
        smallest(d).is_finite(),
        !smallest(c).negative(),
        !smallest(d).negative(),
        smallest(c).units() * a == smallest(d).units() * b,
    decreases c.len(),
{
    assert(units64(0) == 0);
    assert(0 * a == 0 && 0 * b == 0) by (nonlinear_arith);
    if c.len() > 0 {
        let (c0, d0) = (c.drop_last(), d.drop_last());
        assert(proportional(c0, d0, a, b)) by {
            assert forall|i: int| 0 <= i < c0.len() implies (#[trigger] c0[i]).units() * a
                == d0[i].units() * b && c0[i].negative() == d0[i].negative() by {
                assert(c0[i] == c[i]);
            }
        }
        assert forall|i: int| 0 <= i < c0.len() implies (#[trigger] c0[i]).is_finite() by {
            assert(c0[i] == c[i]);
        }
        assert forall|i: int| 0 <= i < d0.len() implies (#[trigger] d0[i]).is_finite() by {
            assert(d0[i] == d[i]);
        }
        lemma_smallest(c0, d0, a, b);
        let (x, y) = (c.last(), d.last());
        assert(c[c.len() - 1] == x);
        exact::lemma_signed_value(false, x.magnitude() as nat);
        exact::lemma_signed_value(false, y.magnitude() as nat);
        let (s, t) = (smallest(c0), smallest(d0));
        lemma_magnitudes(x.absolute(), s);
        lemma_magnitudes(y.absolute(), t);
        lemma_magnitudes(zero(), x.absolute());
        lemma_magnitudes(zero(), y.absolute());
        lemma_magnitudes(s, zero());
        lemma_magnitudes(t, zero());
        lemma_scaled_order(x.units(), s.units(), y.units(), t.units(), a, b);
        lemma_scaled_zero(x.units(), y.units(), a, b);
        lemma_scaled_zero(s.units(), t.units(), a, b);
    }
}

/// Quotients of proportional values are the same.
proof fn lemma_same_quotient(
    x: Binary64,
    y: Binary64,
    z: Binary64,
    w: Binary64,
    a: nat,
    b: nat,
)
    requires
        x.is_finite(),
        y.is_finite(),
        z.is_finite(),
        w.is_finite(),
        a > 0,
        b > 0,
        x.units() * a == z.units() * b,
        y.units() * a == w.units() * b,
        x.negative() == z.negative(),
        y.negative() == w.negative(),
        y.magnitude() != 0,
        w.magnitude() != 0,
    ensures
        x.over(y) == z.over(w),
{
    let (p, q, r, s, t) = (x.units(), y.units(), z.units(), w.units(), pow2(1074));
    assert(units64(0) == 0);
    exact::lemma_order(0, y.magnitude() as nat);
    exact::lemma_order(0, w.magnitude() as nat);
    // Cross-multiplied, both ratios carry the common factor.
    let k = a * b;
    lemma_mul_strictly_positive(a as int, b as int);
    assert((p * s) * (a * b) == (p * a) * (s * b)) by (nonlinear_arith);
    assert((r * q) * (a * b) == (r * b) * (q * a)) by (nonlinear_arith);
    vstd::arithmetic::mul::lemma_mul_is_commutative((p * s) as int, k as int);
    vstd::arithmetic::mul::lemma_mul_is_commutative((r * q) as int, k as int);
    vstd::arithmetic::mul::lemma_mul_equality_converse(k as int, (p * s) as int, (r * q) as int);
    assert((p * t) * s == (p * s) * t && (r * t) * q == (r * q) * t) by (nonlinear_arith);
    exact::nearest_depends_on_the_ratio(p * t, q, r * t, s);
}

/// The lift of a coverage slice is at most 53.
pub proof fn lifts_are_bounded(c: Seq<Binary64>, top: Binary64)
    ensures
        0 <= lift(c, top) <= 53,
{
    let q = smallest(c).over(top);
    if q.is_finite() && q.magnitude() != 0 {
        exact::every_finite_value_has_an_exponent(q);
    }
}

/// A lifted coverage is exact.
pub proof fn lemma_lifted(c: Binary64, shift: i32)
    requires
        coverage_in_range(c),
        0 <= shift <= 53,
    ensures
        c.scaled(shift).is_finite(),
        c.scaled(shift).negative() == c.negative(),
        c.scaled(shift).units() == c.units() * pow2(shift as nat),
{
    lemma_in_range(c);
    let p = pow2(shift as nat);
    lemma_pow2_pos(shift as nat);
    lemma_mul_inequality(c.units() as int, pow2(1074) as int, p as int);
    lemma_pow2_adds(1074, shift as nat);
    roundoff::lemma_top();
    vstd::arithmetic::power2::lemma_pow2_strictly_increases(1074 + shift as nat, 2098);
    exact::scaling_up_is_exact(c, shift);
}

/// The scale of a coverage slice carries no information: slices that are exactly
/// proportional give the same weights.
#[verifier::spinoff_prover]
#[verifier::rlimit(50)]
pub proof fn proportional_coverages_weigh_alike(
    c: Seq<Binary64>,
    d: Seq<Binary64>,
    a: nat,
    b: nat,
)
    requires
        proportional(c, d, a, b),
        forall|i: int| 0 <= i < c.len() ==> coverage_in_range(#[trigger] c[i]),
        forall|i: int| 0 <= i < d.len() ==> coverage_in_range(#[trigger] d[i]),
    ensures
        coverage_weights::<Binary64>(c) == coverage_weights::<Binary64>(d),
{
    assert forall|i: int| 0 <= i < c.len() implies (#[trigger] c[i]).is_finite() by {
        lemma_in_range(c[i]);
    }
    assert forall|i: int| 0 <= i < d.len() implies (#[trigger] d[i]).is_finite() by {
        lemma_in_range(d[i]);
    }
    let (x, y) = (largest(c), largest(d));
    lemma_largest(c, d, a, b);
    lemma_smallest(c, d, a, b);
    lemma_magnitudes(zero(), x);
    lemma_magnitudes(zero(), y);
    lemma_magnitudes(x, zero());
    lemma_magnitudes(y, zero());
    assert(units64(0) == 0);
    lemma_scaled_zero(x.units(), y.units(), a, b);
    if x.units() > 0 {
        lemma_same_quotient(smallest(c), x, smallest(d), y, a, b);
        assert(lift(c, x) == lift(d, y));
        let shift = lift(c, x);
        lifts_are_bounded(c, x);
        assert forall|i: int| 0 <= i < c.len() implies #[trigger] coverage_weight::<Binary64>(
            c[i],
            x,
            shift,
        ) == coverage_weight::<Binary64>(d[i], y, shift) by {
            let p = pow2(shift as nat);
            assert(c[i].units() * a == d[i].units() * b);
            lemma_lifted(c[i], shift);
            lemma_lifted(d[i], shift);
            let (u, v) = (c[i].units(), d[i].units());
            assert((u * p) * a == (u * a) * p && (v * p) * b == (v * b) * p) by (nonlinear_arith);
            lemma_same_quotient(c[i].scaled(shift), x, d[i].scaled(shift), y, a, b);
        }
    }
    assert(coverage_weights::<Binary64>(c) =~= coverage_weights::<Binary64>(d));
}

/// Scaling every coverage exactly leaves the outcomes of a coverage-weighted mean, to the
/// bit.
pub proof fn coverage_scale_does_not_matter(
    embeddings: Seq<Seq<Binary64>>,
    c: Seq<Binary64>,
    d: Seq<Binary64>,
    dim: usize,
    a: nat,
    b: nat,
    r: Result<Vec<Binary64>, WinditError>,
)
    requires
        proportional(c, d, a, b),
        forall|i: int| 0 <= i < c.len() ==> coverage_in_range(#[trigger] c[i]),
        forall|i: int| 0 <= i < d.len() ==> coverage_in_range(#[trigger] d[i]),
    ensures
        CoverageWeightedMean.aggregates(embeddings, c, dim, r)
            == CoverageWeightedMean.aggregates(embeddings, d, dim, r),
{
    proportional_coverages_weigh_alike(c, d, a, b);
    laws::coverages_in_range_are_interchangeable(embeddings, c, d, dim);
}

/// A positive value divided by itself, lifted, is a power of two.
pub proof fn the_largest_weight_is_a_power_of_two(c: Binary64, shift: i32)
    requires
        coverage_in_range(c),
        c.magnitude() != 0,
        0 <= shift <= 53,
    ensures
        coverage_weight::<Binary64>(c, c, shift) == one().scaled(shift),
{
    lemma_in_range(c);
    lemma_lifted(c, shift);
    laws::lemma_one_units();
    let (u, p, t) = (c.units(), pow2(shift as nat), pow2(1074));
    assert(units64(0) == 0);
    exact::lemma_order(0, c.magnitude() as nat);
    lemma_magnitudes(zero(), c);
    assert(((u * p) * t) * 1 == (t * p) * u) by (nonlinear_arith);
    exact::nearest_depends_on_the_ratio((u * p) * t, u, t * p, 1);
}

/// Equal coverages, whatever they are, weigh as a uniform mean does.
pub proof fn equal_coverages_weigh_as_a_mean(c: Seq<Binary64>, x: Binary64)
    requires
        coverage_in_range(x),
        x.magnitude() != 0,
        c.len() > 0,
        forall|i: int| 0 <= i < c.len() ==> #[trigger] c[i] == x,
    ensures
        coverage_weights::<Binary64>(c) == uniform_weights::<Binary64>(c.len()),
{
    lemma_in_range(x);
    lemma_all_equal(c, x);
    let t = pow2(1074);
    lemma_pow2_pos(1074);
    laws::lemma_one_units();
    assert(units64(0) == 0);
    exact::lemma_order(0, x.magnitude() as nat);
    lemma_magnitudes(zero(), x);
    // The one quotient is one, so nothing is lifted.
    let u = x.units();
    assert((u * t) * 1 == t * u) by (nonlinear_arith);
    exact::nearest_depends_on_the_ratio(u * t, u, t, 1);
    laws::lemma_own_magnitude(one());
    assert(signed(false, ONE64 as nat) == one());
    assert(x.over(x) == one());
    vstd::arithmetic::power2::lemma_pow2_strictly_increases(1074, 1075);
    assert(one().has_exponent(0));
    one().lemma_exponent(0);
    assert(lift(c, x) == 0);
    vstd::arithmetic::power2::lemma2_to64();
    assert(u * 1 == u) by (nonlinear_arith);
    laws::lemma_own_magnitude(x);
    assert(signed(x.negative(), x.magnitude() as nat) == x);
    assert(x.scaled(0) == x);
    assert(coverage_weights::<Binary64>(c) =~= uniform_weights::<Binary64>(c.len()));
}

/// The extremes of a slice of equal values.
proof fn lemma_all_equal(c: Seq<Binary64>, x: Binary64)
    requires
        x.is_finite(),
        !x.negative(),
        x.magnitude() != 0,
        c.len() > 0,
        forall|i: int| 0 <= i < c.len() ==> #[trigger] c[i] == x,
    ensures
        largest(c) == x,
        smallest(c) == x,
    decreases c.len(),
{
    let rest = c.drop_last();
    assert(c.last() == x);
    assert(x.absolute() == x);
    assert(units64(0) == 0);
    lemma_magnitudes(zero(), x);
    lemma_magnitudes(x, x);
    lemma_magnitudes(x, zero());
    exact::lemma_order(0, x.magnitude() as nat);
    if rest.len() == 0 {
        assert(largest(rest) == zero());
        assert(smallest(rest) == zero());
    } else {
        lemma_all_equal(rest, x);
    }
}

/// Coverages that are all zero determine no direction.
pub proof fn zero_coverages_determine_no_direction(
    embeddings: Seq<Seq<Binary64>>,
    coverages: Seq<Binary64>,
    dim: usize,
)
    requires
        input_error(embeddings, coverages, dim) is None,
        forall|i: int| 0 <= i < coverages.len() ==> (#[trigger] coverages[i]).magnitude() == 0,
    ensures
        folded(coverage_weights(coverages), embeddings, dim as nat, zero()) == Err::<
            Seq<Binary64>,
            WinditError,
        >(WinditError::NonFinite),
{
    lemma_all_zero(coverages);
    let weights = coverage_weights::<Binary64>(coverages);
    assert forall|i: int| 0 <= i < weights.len() implies (#[trigger] weights[i]).magnitude()
        == 0 by {}
    laws::zero_weights_determine_no_direction(weights, embeddings, coverages, dim);
}

/// The largest magnitude of a slice of zeros.
proof fn lemma_all_zero(c: Seq<Binary64>)
    requires
        forall|i: int| 0 <= i < c.len() ==> (#[trigger] c[i]).magnitude() == 0,
    ensures
        largest(c) == zero(),
    decreases c.len(),
{
    if c.len() > 0 {
        let rest = c.drop_last();
        assert(c[c.len() - 1] == c.last());
        assert forall|i: int| 0 <= i < rest.len() implies (#[trigger] rest[i]).magnitude()
            == 0 by {
            assert(rest[i] == c[i]);
        }
        lemma_all_zero(rest);
    }
}

/// The coverage of a span is a positive fraction: at least `2^-64`, and at most one.
pub proof fn span_coverages_are_fractions(c: Binary64, len: nat, window: nat)
    requires
        is_ratio(c, len, window),
        0 < len <= window <= u64::MAX,
    ensures
        coverage_in_range(c),
        c.is_finite(),
        !c.negative(),
        pow2(1010) <= c.units() <= pow2(1074),
{
    let t = pow2(1074);
    lemma_pow2_pos(1074);
    laws::lemma_one_units();
    vstd::arithmetic::power2::lemma_pow2_strictly_increases(1010, 1074);
    vstd::arithmetic::power2::lemma2_to64();
    vstd::arithmetic::power2::lemma2_to64_rest();
    if len == window {
    } else if crate::ratio::rounds_up_to_one(len, window) {
        lemma_pow2_adds(52, 1021);
        vstd::arithmetic::power2::lemma_pow2_unfold(1022);
        let h = crate::binary::HIDDEN64 as nat;
        assert(units64(crate::ratio::NEAREST_BELOW_ONE as nat) == (h + (h - 1)) * pow2(1021));
        lemma_mul_inequality(h as int, h + (h - 1), pow2(1021) as int);
        vstd::arithmetic::power2::lemma_pow2_strictly_increases(1010, 1073);
        exact::lemma_order(crate::ratio::NEAREST_BELOW_ONE as nat, ONE64 as nat);
    } else {
        let a = len * t;
        let mag = c.bits as nat;
        crate::arith::lemma_nearest(mag, a, window);
        // At least `1 / 2^64`, and at most one.
        lemma_pow2_adds(1010, 64);
        let low = pow2(1010);
        lemma_mul_inequality(window as int, pow2(64) as int, low as int);
        assert(window * low <= t) by (nonlinear_arith)
            requires
                window * low <= pow2(64) * low,
                low * pow2(64) == t,
        ;
        lemma_mul_inequality(1, len as int, t as int);
        assert(window * low == low * window) by (nonlinear_arith);
        exact::rounding_is_monotone(low * window, a, window);
        assert((low * window) * 1 == low * window) by (nonlinear_arith);
        exact::nearest_depends_on_the_ratio(low * window, window, low, 1);
        roundoff::lemma_power_value(1010);
        exact::lemma_order(nearest(low, 1), mag);
        exact::lemma_order(mag, nearest(low, 1));
        lemma_mul_inequality(len as int, window as int, t as int);
        exact::rounding_is_monotone(a, window * t, window);
        assert((window * t) * 1 == t * window) by (nonlinear_arith);
        exact::nearest_depends_on_the_ratio(window * t, window, t, 1);
        roundoff::lemma_power_value(1074);
        exact::lemma_order(mag, nearest(t, 1));
        exact::lemma_order(nearest(t, 1), mag);
        exact::lemma_order(mag, ONE64 as nat);
        exact::lemma_order(ONE64 as nat, mag);
    }
}

/// Coverages of planned spans are never lifted: their weights are the bare quotients by the
/// largest one.
pub proof fn planned_coverages_are_not_lifted(c: Seq<Binary64>, lens: Seq<nat>, windows: Seq<nat>)
    requires
        c.len() == lens.len() == windows.len(),
        forall|i: int|
            0 <= i < c.len() ==> {
                &&& is_ratio(#[trigger] c[i], lens[i], windows[i])
                &&& 0 < lens[i] <= windows[i] <= u64::MAX
            },
    ensures
        lift(c, largest(c)) == 0,
{
    if c.len() == 0 {
        assert(largest(c) == zero());
    } else {
        assert forall|i: int| 0 <= i < c.len() implies {
            &&& (#[trigger] c[i]).is_finite()
            &&& !c[i].negative()
            &&& pow2(1010) <= c[i].units() <= pow2(1074)
        } by {
            span_coverages_are_fractions(c[i], lens[i], windows[i]);
        }
        lemma_pow2_pos(1010);
        crate::aggregate::bounds::lemma_largest_is_attained(c);
        crate::aggregate::refusal::lemma_smallest_is_attained(c);
        let (x, y) = (smallest(c), largest(c));
        assert(c[0].units() <= y.units());
        let at = choose|k: int| 0 <= k < c.len() && (#[trigger] c[k]).units() == y.units();
        lemma_smallest_is_a_member(c);
        let (u, v, t) = (x.units(), y.units(), pow2(1074));
        let q = x.over(y);
        assert(units64(0) == 0);
        exact::lemma_order(0, y.magnitude() as nat);
        // The quotient is at least `2^-64`, which is in the normal range.
        let low = pow2(1010);
        lemma_pow2_pos(1074);
        assert(low * v <= u * t) by (nonlinear_arith)
            requires
                low <= u,
                v <= t,
        ;
        exact::rounding_is_monotone(low * v, u * t, v);
        assert((low * v) * 1 == low * v) by (nonlinear_arith);
        exact::nearest_depends_on_the_ratio(low * v, v, low, 1);
        roundoff::lemma_power_value(1010);
        exact::lemma_order(nearest(low, 1), nearest(u * t, v));
        exact::lemma_order(nearest(u * t, v), nearest(low, 1));
        lemma_mul_inequality(u as int, v as int, t as int);
        exact::rounding_is_monotone(u * t, v * t, v);
        assert((v * t) * 1 == t * v) by (nonlinear_arith);
        exact::nearest_depends_on_the_ratio(v * t, v, t, 1);
        roundoff::lemma_power_value(1074);
        exact::lemma_order(nearest(u * t, v), nearest(t, 1));
        exact::lemma_signed_value(false, nearest(u * t, v));
        exact::lemma_order(0, q.magnitude() as nat);
        exact::every_finite_value_has_an_exponent(q);
        let e = q.exponent();
        if e < -1022 {
            vstd::arithmetic::power2::lemma_pow2_strictly_increases((e + 1075) as nat, 1010);
        }
    }
}

/// The smallest magnitude of a slice of positive values is one of them.
proof fn lemma_smallest_is_a_member(c: Seq<Binary64>)
    requires
        forall|i: int|
            0 <= i < c.len() ==> {
                &&& (#[trigger] c[i]).is_finite()
                &&& !c[i].negative()
                &&& pow2(1010) <= c[i].units() <= pow2(1074)
            },
        c.len() > 0,
    ensures
        pow2(1010) <= smallest(c).units() <= largest(c).units(),
    decreases c.len(),
{
    lemma_pow2_pos(1010);
    crate::aggregate::bounds::lemma_largest_is_attained(c);
    crate::aggregate::refusal::lemma_smallest_is_attained(c);
    let rest = c.drop_last();
    let x = c.last();
    assert(c[c.len() - 1] == x);
    assert(units64(0) == 0);
    exact::lemma_signed_value(false, x.magnitude() as nat);
    if rest.len() == 0 {
        assert(smallest(rest) == zero());
        lemma_magnitudes(zero(), x.absolute());
    } else {
        assert forall|i: int| 0 <= i < rest.len() implies {
            &&& (#[trigger] rest[i]).is_finite()
            &&& !rest[i].negative()
            &&& pow2(1010) <= rest[i].units() <= pow2(1074)
        } by {
            assert(rest[i] == c[i]);
        }
        lemma_smallest_is_a_member(rest);
    }
    assert(smallest(c).units() <= x.units());
}

} // verus!
