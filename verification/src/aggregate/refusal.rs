//! What windows that cancel are answered by the policies.
use vstd::arithmetic::mul::{lemma_mul_inequality, lemma_mul_upper_bound};
use vstd::arithmetic::power2::{
    lemma_pow2_adds, lemma_pow2_pos, lemma_pow2_strictly_increases, lemma_pow2_unfold, pow2,
};
use vstd::prelude::*;

use crate::aggregate::accuracy::{ideal_sum, round_ideals, rounds_ideal, tame, MANY};
use crate::aggregate::bounds::{self, WIDE};
use crate::aggregate::cancellation;
use crate::aggregate::domain::{coverage_in_range, input_error, magnitude_in_range};
use crate::aggregate::fold::coverage_weight;
use crate::aggregate::laws::{self, one, zero};
use crate::aggregate::norm::{largest, norm, smallest};
use crate::aggregate::policy::{
    coverage_weights, lift, saliency_weights, uniform_weights, AggregatePolicy,
    CoverageWeightedMean, MeanRenormalized, SaliencyWeighted,
};
use crate::aggregate::ratios;
use crate::arith::nearest;
use crate::binary::{Binary64, HIDDEN64};
use crate::error::WinditError;
use crate::exact::{self, size};
use crate::rounding::units64;
use crate::roundoff::{self, PRECISION};

verus! {

/// Whether `r` reports that no direction is determined, or a refused allocation.
pub open spec fn no_direction(r: Result<Vec<Binary64>, WinditError>) -> bool {
    r matches Err(e) && (e == WinditError::NonFinite || e is AllocFailed)
}

/// A component inside the domain is at most `2^400`.
pub proof fn lemma_component_bound(x: Binary64)
    requires
        x.is_finite(),
        magnitude_in_range(x),
    ensures
        x.units() <= pow2(1474),
{
    let top = 0x58f0_0000_0000_0000nat;
    vstd::arithmetic::power2::lemma2_to64_rest();
    lemma_pow2_adds(52, 1422);
    assert(units64(top) == (HIDDEN64 + 0) * pow2(1422));
    exact::lemma_signed_value(false, x.magnitude() as nat);
    exact::lemma_order(top, x.magnitude() as nat);
    assert(x.magnitude() <= top);
}

/// Inside the domain, weights of at most `2^526` make tame products.
pub proof fn lemma_domain_is_tame(
    weights: Seq<Binary64>,
    embeddings: Seq<Seq<Binary64>>,
    coverages: Seq<Binary64>,
    dim: usize,
)
    requires
        input_error(embeddings, coverages, dim) is None,
        weights.len() == embeddings.len(),
        forall|i: int|
            0 <= i < weights.len() ==> (#[trigger] weights[i]).is_finite() && weights[i].units()
                <= pow2(1600),
    ensures
        forall|j: int| 0 <= j < dim ==> #[trigger] tame(weights, embeddings, j),
{
    laws::in_domain_components_are_finite(embeddings, coverages, dim);
    assert forall|j: int| 0 <= j < dim implies #[trigger] tame(weights, embeddings, j) by {
        assert forall|i: int| 0 <= i < embeddings.len() implies (
        #[trigger] embeddings[i])[j].is_finite() && weights[i].is_finite() && weights[i].units()
            * embeddings[i][j].units() <= pow2(2000) * pow2(1074) by {
            let x = embeddings[i][j];
            assert(embeddings[i][j].is_finite() && magnitude_in_range(embeddings[i][j]));
            assert(weights[i].units() <= pow2(1600));
            lemma_component_bound(x);
            lemma_mul_upper_bound(
                weights[i].units() as int,
                pow2(1600) as int,
                x.units() as int,
                pow2(1474) as int,
            );
            lemma_pow2_adds(1600, 1474);
            lemma_pow2_adds(2000, 1074);
        }
    }
}

/// A weight that is its own ideal.
pub proof fn lemma_own_ideal(w: Binary64)
    requires
        w.is_finite(),
        w.negative() ==> w.units() == 0,
    ensures
        rounds_ideal(w, w.units(), pow2(1074)),
{
    let (u, t) = (w.units(), pow2(1074));
    assert(size(u * t - u * t) == 0);
    assert(0 * (PRECISION - 1) == 0) by (nonlinear_arith);
    assert(0 <= u * t) by (nonlinear_arith);
}

/// The sum of the components themselves, over `n` windows: every weight is one.
pub open spec fn ones(n: nat) -> Seq<nat> {
    Seq::new(n, |i: int| 1nat)
}

/// The weights of a mean are their ideals.
pub proof fn uniform_weights_are_ideal(n: nat)
    ensures
        round_ideals(uniform_weights(n), ones(n), 1),
{
    laws::lemma_one_units();
    let t = pow2(1074);
    assert(t * 1 == t && 1 * t == t) by (nonlinear_arith);
    assert(0 * (PRECISION - 1) == 0) by (nonlinear_arith);
    let weights = uniform_weights::<Binary64>(n);
    assert forall|i: int| 0 <= i < n implies #[trigger] rounds_ideal(weights[i], ones(n)[i], 1) by {
        assert(weights[i] == one() && ones(n)[i] == 1);
    }
}

/// Windows that cancel exactly in every component have no mean.
pub proof fn cancelling_windows_have_no_mean(
    embeddings: Seq<Seq<Binary64>>,
    coverages: Seq<Binary64>,
    dim: usize,
    r: Result<Vec<Binary64>, WinditError>,
)
    requires
        input_error(embeddings, coverages, dim) is None,
        embeddings.len() <= MANY,
        dim <= WIDE,
        forall|j: int|
            0 <= j < dim ==> #[trigger] ideal_sum(
                ones(embeddings.len()),
                embeddings,
                j,
                embeddings.len(),
            ) == 0,
        MeanRenormalized.aggregates(embeddings, coverages, dim, r),
    ensures
        no_direction(r),
{
    let n = embeddings.len();
    let weights = uniform_weights::<Binary64>(n);
    laws::lemma_one_units();
    lemma_pow2_strictly_increases(1074, 1600);
    lemma_domain_is_tame(weights, embeddings, coverages, dim);
    uniform_weights_are_ideal(n);
    assert(units64(0) == 0);
    cancellation::exact_cancellation_is_refused(
        weights,
        ones(n),
        1,
        embeddings,
        dim as nat,
        zero(),
    );
}

/// The norms of the windows, as the library computes them.
pub open spec fn saliencies(embeddings: Seq<Seq<Binary64>>) -> Seq<nat> {
    Seq::new(embeddings.len(), |i: int| norm(embeddings[i]).units())
}

/// The weights of a saliency-weighted mean: nonnegative and moderate inside the domain, and
/// their own ideals.
pub proof fn saliency_weights_are_ideal(
    embeddings: Seq<Seq<Binary64>>,
    coverages: Seq<Binary64>,
    dim: usize,
)
    requires
        input_error(embeddings, coverages, dim) is None,
        dim <= WIDE,
    ensures
        round_ideals(saliency_weights(embeddings), saliencies(embeddings), pow2(1074)),
        forall|i: int|
            0 <= i < embeddings.len() ==> {
                &&& (#[trigger] saliency_weights(embeddings)[i]).is_finite()
                &&& saliency_weights(embeddings)[i].units() <= pow2(1600)
            },
{
    laws::in_domain_components_are_finite(embeddings, coverages, dim);
    let weights = saliency_weights(embeddings);
    lemma_pow2_pos(1074);
    assert forall|i: int| 0 <= i < embeddings.len() implies {
        &&& (#[trigger] weights[i]).is_finite()
        &&& weights[i].units() <= pow2(1600)
        &&& !weights[i].negative()
    } by {
        let v = embeddings[i];
        assert(v.len() == dim);
        assert forall|k: int| 0 <= k < v.len() implies (#[trigger] v[k]).is_finite()
            && v[k].units() <= pow2(1474) by {
            assert(embeddings[i][k].is_finite() && magnitude_in_range(embeddings[i][k]));
            lemma_component_bound(v[k]);
        }
        lemma_window_norm(v);
    }
    assert forall|i: int| 0 <= i < weights.len() implies #[trigger] rounds_ideal(
        weights[i],
        saliencies(embeddings)[i],
        pow2(1074),
    ) by {
        lemma_own_ideal(weights[i]);
    }
}

/// The norm of a window inside the domain.
#[verifier::spinoff_prover]
#[verifier::rlimit(30)]
pub proof fn lemma_window_norm(v: Seq<Binary64>)
    requires
        v.len() <= WIDE,
        forall|k: int|
            0 <= k < v.len() ==> (#[trigger] v[k]).is_finite() && v[k].units() <= pow2(1474),
    ensures
        norm(v).is_finite(),
        !norm(v).negative(),
        norm(v).units() <= pow2(1491),
        norm(v).units() <= pow2(1600),
        largest(v).units() <= pow2(1474),
{
    bounds::lemma_largest_is_attained(v);
    lemma_pow2_strictly_increases(1491, 1600);
    if largest(v).units() == 0 {
        bounds::lemma_norm_of_nothing(v);
        assert(units64(0) == 0);
        lemma_pow2_pos(1491);
        lemma_pow2_pos(1474);
    } else {
        let i = choose|i: int|
            0 <= i < v.len() && (#[trigger] v[i]).units() == largest(v).units();
        assert(v[i].units() <= pow2(1474));
        lemma_pow2_strictly_increases(1474, 2070);
        bounds::norms_keep_their_scale(v);
        let e = largest(v).exponent();
        if e + 1074 > 1474 {
            lemma_pow2_strictly_increases(1474, (e + 1074) as nat);
        }
        if e + 1091 < 1491 {
            lemma_pow2_strictly_increases((e + 1091) as nat, 1491);
        }
    }
}

/// Windows that cancel exactly when they are weighted by their norms have no
/// saliency-weighted mean.
pub proof fn cancelling_windows_have_no_saliency_mean(
    embeddings: Seq<Seq<Binary64>>,
    coverages: Seq<Binary64>,
    dim: usize,
    r: Result<Vec<Binary64>, WinditError>,
)
    requires
        input_error(embeddings, coverages, dim) is None,
        embeddings.len() <= MANY,
        dim <= WIDE,
        forall|j: int|
            0 <= j < dim ==> #[trigger] ideal_sum(
                saliencies(embeddings),
                embeddings,
                j,
                embeddings.len(),
            ) == 0,
        SaliencyWeighted.aggregates(embeddings, coverages, dim, r),
    ensures
        no_direction(r),
{
    let weights = saliency_weights(embeddings);
    saliency_weights_are_ideal(embeddings, coverages, dim);
    lemma_domain_is_tame(weights, embeddings, coverages, dim);
    assert(units64(0) == 0);
    cancellation::exact_cancellation_is_refused(
        weights,
        saliencies(embeddings),
        pow2(1074),
        embeddings,
        dim as nat,
        zero(),
    );
}

/// The smallest nonzero magnitude of a slice of finite values.
pub proof fn lemma_smallest_is_attained(c: Seq<Binary64>)
    requires
        forall|i: int| 0 <= i < c.len() ==> (#[trigger] c[i]).is_finite(),
    ensures
        smallest(c).is_finite(),
        !smallest(c).negative(),
        forall|i: int|
            0 <= i < c.len() && (#[trigger] c[i]).units() > 0 ==> 0 < smallest(c).units()
                <= c[i].units(),
    decreases c.len(),
{
    assert(units64(0) == 0);
    if c.len() > 0 {
        let rest = c.drop_last();
        assert forall|i: int| 0 <= i < rest.len() implies (#[trigger] rest[i]).is_finite() by {
            assert(rest[i] == c[i]);
        }
        lemma_smallest_is_attained(rest);
        let x = c.last();
        assert(c[c.len() - 1] == x);
        exact::lemma_signed_value(false, x.magnitude() as nat);
        let (m, l) = (x.absolute(), smallest(rest));
        ratios::lemma_magnitudes(zero(), m);
        ratios::lemma_magnitudes(l, zero());
        ratios::lemma_magnitudes(zero(), l);
        ratios::lemma_magnitudes(m, l);
        assert forall|i: int| 0 <= i < c.len() && (#[trigger] c[i]).units() > 0 implies 0
            < smallest(c).units() <= c[i].units() by {
            if i < rest.len() {
                assert(rest[i] == c[i]);
            }
        }
    }
}

/// What the lift of a coverage slice does to its smallest quotient.
proof fn lemma_lifted_quotient(c: Seq<Binary64>, small: nat, top: nat)
    requires
        small == smallest(c).units(),
        top == largest(c).units(),
        0 < small <= top <= pow2(1074),
        smallest(c).is_finite(),
        !smallest(c).negative(),
        largest(c).is_finite(),
        !largest(c).negative(),
    ensures
        units64(nearest((small * pow2(lift(c, largest(c)) as nat)) * pow2(1074), top)) >= HIDDEN64,
{
    let t = pow2(1074);
    let (x, y) = (smallest(c), largest(c));
    let q = x.over(y);
    lemma_pow2_pos(1074);
    assert(units64(0) == 0);
    exact::lemma_order(0, y.magnitude() as nat);
    exact::lemma_order(0, x.magnitude() as nat);
    ratios::lemma_magnitudes(zero(), y);
    // The smallest quotient is at least one least positive number, and at most one.
    let a = small * t;
    lemma_mul_inequality(1, small as int, t as int);
    exact::rounding_is_monotone(top, a, top);
    assert(top * 1 == 1 * top) by (nonlinear_arith);
    exact::nearest_depends_on_the_ratio(top, top, 1, 1);
    vstd::arithmetic::power2::lemma2_to64();
    vstd::arithmetic::power2::lemma2_to64_rest();
    roundoff::lemma_power_value(0);
    exact::lemma_order(nearest(1, 1), nearest(a, top));
    exact::lemma_order(nearest(a, top), nearest(1, 1));
    lemma_mul_inequality(small as int, top as int, t as int);
    exact::rounding_is_monotone(a, top * t, top);
    assert((top * t) * 1 == t * top) by (nonlinear_arith);
    exact::nearest_depends_on_the_ratio(top * t, top, t, 1);
    roundoff::lemma_power_value(1074);
    exact::lemma_order(nearest(a, top), nearest(t, 1));
    exact::lemma_signed_value(false, nearest(a, top));
    exact::lemma_order(0, q.magnitude() as nat);
    exact::every_finite_value_has_an_exponent(q);
    let e = q.exponent();
    let shift = lift(c, y);
    if e >= -1022 {
        assert(shift == 0);
        assert((small * 1) * t == small * t) by (nonlinear_arith);
        if e > -1022 {
            lemma_pow2_strictly_increases(52, (e + 1074) as nat);
        }
    } else {
        let l = (e + 1074) as nat;
        let p = pow2(shift as nat);
        assert(shift == 53 - l);
        lemma_pow2_pos(shift as nat);
        lemma_pow2_adds(l, shift as nat);
        lemma_pow2_strictly_increases((e + 1075) as nat, 53);
        lemma_pow2_unfold(53);
        if e + 1075 < 52 {
            lemma_pow2_strictly_increases((e + 1075) as nat, 52);
        }
        roundoff::rounding_error_is_bounded(a, top);
        let u = q.units();
        assert(u == units64(nearest(a, top)));
        lemma_mul_inequality(pow2(l) as int, u as int, top as int);
        lemma_mul_inequality(1, u as int, top as int);
        let low = pow2(l) * top;
        assert(2 * a >= low);
        lemma_mul_inequality(low as int, (2 * a) as int, p as int);
        assert(low * p == pow2(53) * top) by (nonlinear_arith)
            requires
                low == pow2(l) * top,
                pow2(l) * p == pow2(53),
        ;
        assert((small * p) * t == a * p) by (nonlinear_arith)
            requires
                a == small * t,
        ;
        assert((2 * a) * p == 2 * (a * p)) by (nonlinear_arith);
        let h = HIDDEN64 as nat;
        assert(pow2(53) * top == 2 * (h * top)) by (nonlinear_arith)
            requires
                pow2(53) == 2 * h,
        ;
        assert(h * top <= (small * p) * t);
        exact::rounding_is_monotone(h * top, (small * p) * t, top);
        assert((h * top) * 1 == h * top) by (nonlinear_arith);
        exact::nearest_depends_on_the_ratio(h * top, top, h, 1);
        roundoff::lemma_power_value(52);
        exact::lemma_order(nearest(h, 1), nearest((small * p) * t, top));
        exact::lemma_order(nearest((small * p) * t, top), nearest(h, 1));
    }
}

/// The weight of a coverage is its lifted quotient by the largest one, rounded once.
#[verifier::spinoff_prover]
#[verifier::rlimit(40)]
proof fn lemma_coverage_weight(c: Seq<Binary64>, i: int)
    requires
        0 <= i < c.len(),
        forall|k: int| 0 <= k < c.len() ==> coverage_in_range(#[trigger] c[k]),
        largest(c).units() > 0,
    ensures
        ({
            let w = coverage_weight::<Binary64>(c[i], largest(c), lift(c, largest(c)));
            let p = pow2(lift(c, largest(c)) as nat);
            &&& rounds_ideal(w, c[i].units() * p, largest(c).units())
            &&& w.units() <= pow2(1600)
        }),
{
    assert forall|k: int| 0 <= k < c.len() implies (#[trigger] c[k]).is_finite() by {
        ratios::lemma_in_range(c[k]);
    }
    bounds::lemma_largest_is_attained(c);
    lemma_smallest_is_attained(c);
    let (x, y) = (c[i], largest(c));
    let shift = lift(c, y);
    let (u, top, t, p) = (x.units(), y.units(), pow2(1074), pow2(shift as nat));
    ratios::lemma_in_range(x);
    ratios::lifts_are_bounded(c, y);
    ratios::lemma_lifted(x, shift);
    lemma_pow2_pos(1074);
    lemma_pow2_pos(shift as nat);
    assert(units64(0) == 0);
    exact::lemma_order(0, y.magnitude() as nat);
    exact::lemma_order(0, x.magnitude() as nat);
    ratios::lemma_magnitudes(zero(), y);
    let at = choose|k: int| 0 <= k < c.len() && (#[trigger] c[k]).units() == y.units();
    ratios::lemma_in_range(c[at]);
    let ideal = u * p;
    let a = ideal * t;
    let w = coverage_weight::<Binary64>(x, y, shift);
    // At most the lift.
    lemma_mul_inequality(u as int, top as int, p as int);
    lemma_mul_inequality(ideal as int, (top * p) as int, t as int);
    exact::rounding_is_monotone(a, (top * p) * t, top);
    assert(((top * p) * t) * 1 == (p * t) * top) by (nonlinear_arith);
    lemma_pow2_adds(shift as nat, 1074);
    let big = pow2(shift as nat + 1074);
    exact::nearest_depends_on_the_ratio((top * p) * t, top, big, 1);
    roundoff::lemma_power_value(shift as nat + 1074);
    exact::lemma_order(nearest(a, top), nearest(big, 1));
    exact::lemma_order(nearest(big, 1), nearest(a, top));
    lemma_pow2_strictly_increases(shift as nat + 1074, 1600);
    exact::lemma_signed_value(x.negative() != y.negative(), nearest(a, top));
    assert(w.units() == units64(nearest(a, top)));
    roundoff::rounding_error_is_bounded(a, top);
    if u == 0 {
        assert(0 * p == 0 && 0 * t == 0) by (nonlinear_arith);
        let k = w.units();
        if k > 0 {
            lemma_mul_inequality(1, k as int, top as int);
            if k >= HIDDEN64 {
                lemma_mul_inequality(1, PRECISION as int, (k * top) as int);
            }
        }
        assert(w.units() == 0);
        assert(0 * top == 0) by (nonlinear_arith);
    } else {
        let small = smallest(c).units();
        assert(0 < small <= u);
        lemma_lifted_quotient(c, small, top);
        lemma_mul_inequality(small as int, u as int, p as int);
        lemma_mul_inequality((small * p) as int, ideal as int, t as int);
        exact::rounding_is_monotone((small * p) * t, a, top);
        exact::lemma_order(nearest(a, top), nearest((small * p) * t, top));
        assert(w.units() >= HIDDEN64);
    }
}

/// The coverages in least positive numbers.
pub open spec fn shares(coverages: Seq<Binary64>) -> Seq<nat> {
    Seq::new(coverages.len(), |i: int| coverages[i].units())
}

/// The lifted coverages in least positive numbers.
pub open spec fn lifted_shares(coverages: Seq<Binary64>) -> Seq<nat> {
    let p = pow2(lift(coverages, largest(coverages)) as nat);
    Seq::new(coverages.len(), |i: int| coverages[i].units() * p)
}

/// The weights of a coverage-weighted mean are the lifted coverages over the largest one,
/// each rounded once.
pub proof fn coverage_weights_round_their_ideals(coverages: Seq<Binary64>)
    requires
        forall|k: int| 0 <= k < coverages.len() ==> coverage_in_range(#[trigger] coverages[k]),
        largest(coverages).units() > 0,
    ensures
        round_ideals(
            coverage_weights(coverages),
            lifted_shares(coverages),
            largest(coverages).units(),
        ),
        forall|i: int|
            0 <= i < coverages.len() ==> (#[trigger] coverage_weights::<Binary64>(
                coverages,
            )[i]).units() <= pow2(1600),
{
    let weights = coverage_weights::<Binary64>(coverages);
    assert forall|i: int| 0 <= i < weights.len() implies #[trigger] rounds_ideal(
        weights[i],
        lifted_shares(coverages)[i],
        largest(coverages).units(),
    ) by {
        lemma_coverage_weight(coverages, i);
    }
    assert forall|i: int| 0 <= i < coverages.len() implies (#[trigger] weights[i]).units() <= pow2(
        1600,
    ) by {
        lemma_coverage_weight(coverages, i);
    }
}

/// A common factor of the weights is one of the sum.
pub(crate) proof fn lemma_scaled_ideals(
    ideal: Seq<nat>,
    scaled: Seq<nat>,
    k: nat,
    embeddings: Seq<Seq<Binary64>>,
    j: int,
    n: nat,
)
    requires
        n <= ideal.len() == scaled.len(),
        forall|i: int| 0 <= i < ideal.len() ==> #[trigger] scaled[i] == ideal[i] * k,
    ensures
        ideal_sum(scaled, embeddings, j, n) == k * ideal_sum(ideal, embeddings, j, n),
    decreases n,
{
    if n == 0 {
        assert(k * 0 == 0) by (nonlinear_arith);
    } else {
        lemma_scaled_ideals(ideal, scaled, k, embeddings, j, (n - 1) as nat);
        let (a, x, s) = (
            ideal[n - 1],
            embeddings[n - 1][j].value(),
            ideal_sum(ideal, embeddings, j, (n - 1) as nat),
        );
        assert(scaled[n - 1] == a * k);
        assert((a * k) * x + k * s == k * (s + a * x)) by (nonlinear_arith);
    }
}

/// Windows that cancel exactly when they are weighted by their coverages have no
/// coverage-weighted mean.
pub proof fn cancelling_windows_have_no_coverage_mean(
    embeddings: Seq<Seq<Binary64>>,
    coverages: Seq<Binary64>,
    dim: usize,
    r: Result<Vec<Binary64>, WinditError>,
)
    requires
        input_error(embeddings, coverages, dim) is None,
        embeddings.len() <= MANY,
        dim <= WIDE,
        forall|j: int|
            0 <= j < dim ==> #[trigger] ideal_sum(
                shares(coverages),
                embeddings,
                j,
                embeddings.len(),
            ) == 0,
        CoverageWeightedMean.aggregates(embeddings, coverages, dim, r),
    ensures
        no_direction(r),
{
    let n = embeddings.len();
    let weights = coverage_weights::<Binary64>(coverages);
    laws::in_domain_coverages_are_in_range(embeddings, coverages, dim);
    assert forall|k: int| 0 <= k < coverages.len() implies (
    #[trigger] coverages[k]).is_finite() by {
        ratios::lemma_in_range(coverages[k]);
    }
    bounds::lemma_largest_is_attained(coverages);
    assert(units64(0) == 0);
    if largest(coverages).units() == 0 {
        assert forall|i: int| 0 <= i < coverages.len() implies (
        #[trigger] coverages[i]).magnitude() == 0 by {
            assert(coverages[i].units() == 0);
            exact::lemma_order(0, coverages[i].magnitude() as nat);
        }
        ratios::zero_coverages_determine_no_direction(embeddings, coverages, dim);
    } else {
        coverage_weights_round_their_ideals(coverages);
        let p = pow2(lift(coverages, largest(coverages)) as nat);
        assert forall|i: int| 0 <= i < weights.len() implies (#[trigger] weights[i]).is_finite()
            && weights[i].units() <= pow2(1600) by {
            assert(rounds_ideal(
                weights[i],
                lifted_shares(coverages)[i],
                largest(coverages).units(),
            ));
        }
        lemma_domain_is_tame(weights, embeddings, coverages, dim);
        assert forall|j: int| 0 <= j < dim implies #[trigger] ideal_sum(
            lifted_shares(coverages),
            embeddings,
            j,
            n,
        ) == 0 by {
            assert(ideal_sum(shares(coverages), embeddings, j, n) == 0);
            lemma_scaled_ideals(
                shares(coverages),
                lifted_shares(coverages),
                p,
                embeddings,
                j,
                n,
            );
            assert(p * 0 == 0) by (nonlinear_arith);
        }
        cancellation::exact_cancellation_is_refused(
            weights,
            lifted_shares(coverages),
            largest(coverages).units(),
            embeddings,
            dim as nat,
            zero(),
        );
    }
}

} // verus!
