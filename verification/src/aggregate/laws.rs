//! Laws of aggregation in binary64.
use vstd::arithmetic::power2::{lemma_pow2_pos, pow2};
use vstd::prelude::*;

use crate::aggregate::domain::{
    component_error, coverage_in_range, input_error, magnitude_in_range, windows_error,
};
use crate::aggregate::ema::{formation_slack, ladder, power, EmaRenormalized};
use crate::aggregate::fold::{self, column, folded, lost, masses, weighted_sum, Column};
use crate::aggregate::norm::{largest, norm};
use crate::aggregate::policy::{
    uniform_weights, AggregatePolicy, MeanRenormalized, SaliencyWeighted,
};
use crate::arith::{lemma_nearest, nearest, signed};
use crate::binary::{Binary32, Binary64, HIDDEN32, HIDDEN64, INFINITY32, ONE64};
use crate::error::WinditError;
use crate::exact;
use crate::rounding::{self, units64};
use crate::roundoff;
use crate::scalar::Real;

verus! {

/// The positive zero.
pub open spec fn zero() -> Binary64 {
    Binary64 { bits: 0 }
}

/// The value one.
pub open spec fn one() -> Binary64 {
    Binary64 { bits: ONE64 }
}

/// The compensation is computed from the larger of the two addends down.
proof fn lemma_lost(acc: Binary64, term: Binary64)
    requires
        acc.is_finite(),
        term.is_finite(),
    ensures
        acc.magnitude() >= term.magnitude() ==> lost(acc, term) == acc.minus(
            acc.plus(term),
        ).plus(term),
        acc.magnitude() < term.magnitude() ==> lost(acc, term) == term.minus(
            acc.plus(term),
        ).plus(acc),
{
    exact::lemma_signed_value(false, acc.magnitude() as nat);
    exact::lemma_signed_value(false, term.magnitude() as nat);
    assert(acc.absolute().at_least(term.absolute()) == (acc.magnitude() >= term.magnitude()));
}

/// Adding a term to the running sum loses nothing: the rounded sum and the compensation
/// together are the exact sum.
pub proof fn compensation_is_exact(acc: Binary64, term: Binary64)
    requires
        acc.is_finite(),
        term.is_finite(),
        acc.plus(term).is_finite(),
    ensures
        lost(acc, term).is_finite(),
        acc.plus(term).value() + lost(acc, term).value() == acc.value() + term.value(),
{
    lemma_lost(acc, term);
    if acc.magnitude() >= term.magnitude() {
        exact::lemma_fast_two_sum(acc, term);
    } else {
        exact::sums_commute(acc, term);
        exact::lemma_fast_two_sum(term, acc);
    }
}

/// A zero times a finite value is a zero.
pub proof fn lemma_zero_times(w: Binary64, x: Binary64)
    requires
        w.magnitude() == 0,
        x.is_finite(),
    ensures
        w.times(x).magnitude() == 0,
        x.times(w).magnitude() == 0,
{
    let b = pow2(1074);
    lemma_pow2_pos(1074);
    assert(units64(0) == 0);
    let u = x.units();
    assert(0 * u == 0 && u * 0 == 0 && 0 * b == 0) by (nonlinear_arith);
    rounding::lemma_exact_is_nearest(0, 0, b);
    lemma_nearest(0, 0, b);
    exact::lemma_signed_value(w.negative() != x.negative(), 0);
}

/// The magnitude of a value rounds to itself.
pub proof fn lemma_own_magnitude(x: Binary64)
    requires
        x.is_finite(),
    ensures
        nearest(x.units(), 1) == x.magnitude(),
{
    let u = x.units();
    assert(u * 1 == u) by (nonlinear_arith);
    rounding::lemma_exact_is_nearest(x.magnitude() as nat, u, 1);
    lemma_nearest(x.magnitude() as nat, u, 1);
}

/// A zero added to a value that is not the negative zero leaves it.
proof fn lemma_plus_zero(x: Binary64, z: Binary64)
    requires
        x.is_finite(),
        z.magnitude() == 0,
        x.magnitude() == 0 ==> !x.negative(),
    ensures
        x.plus(z) == x,
{
    assert(units64(0) == 0);
    lemma_own_magnitude(x);
    exact::lemma_order(0, x.magnitude() as nat);
    assert(signed(x.negative(), x.magnitude() as nat) == x);
}

/// A value less itself is the positive zero.
proof fn lemma_minus_itself(x: Binary64)
    requires
        x.is_finite(),
    ensures
        x.minus(x) == zero(),
{
    exact::lemma_negated_value(x);
    exact::lemma_signed_value(!x.negative(), x.magnitude() as nat);
}

/// The value one in least positive numbers.
pub proof fn lemma_one_units()
    ensures
        one().units() == pow2(1074),
        one().is_finite(),
        !one().negative(),
        one().magnitude() == ONE64,
{
    vstd::arithmetic::power2::lemma2_to64_rest();
    vstd::arithmetic::power2::lemma_pow2_adds(52, 1022);
    assert(units64(ONE64 as nat) == (HIDDEN64 + 0) * pow2(1022));
}

/// One times a value is the value.
pub proof fn lemma_one_times(x: Binary64)
    requires
        x.is_finite(),
    ensures
        one().times(x) == x,
{
    let (t, u) = (pow2(1074), x.units());
    lemma_one_units();
    lemma_pow2_pos(1074);
    assert((t * u) * 1 == u * t) by (nonlinear_arith);
    exact::nearest_depends_on_the_ratio(t * u, t, u, 1);
    lemma_own_magnitude(x);
    assert(signed(x.negative(), x.magnitude() as nat) == x);
}

/// A column that zero terms do not change: its sums are finite and no negative zeros.
spec fn settled(c: Column<Binary64>) -> bool {
    &&& c.acc.is_finite()
    &&& c.comp.is_finite()
    &&& c.mag.is_finite()
    &&& c.acc.magnitude() == 0 ==> !c.acc.negative()
    &&& c.comp.magnitude() == 0 ==> !c.comp.negative()
    &&& c.mag.magnitude() == 0 ==> !c.mag.negative()
}

/// A zero term leaves a column.
proof fn lemma_zero_step(c: Column<Binary64>, term: Binary64)
    requires
        settled(c),
        term.magnitude() == 0,
    ensures
        c.step(term) == c,
{
    lemma_plus_zero(c.acc, term);
    lemma_minus_itself(c.acc);
    lemma_plus_zero(zero(), term);
    assert(lost(c.acc, term) == zero());
    lemma_plus_zero(c.comp, zero());
    lemma_plus_zero(c.mag, term.absolute());
}

/// Windows of zero weight leave a column.
proof fn lemma_zero_weights(
    weights: Seq<Binary64>,
    embeddings: Seq<Seq<Binary64>>,
    j: int,
    from: nat,
    to: nat,
)
    requires
        from <= to <= embeddings.len(),
        settled(column(weights, embeddings, j, from)),
        forall|i: int| from <= i < to ==> (#[trigger] weights[i]).magnitude() == 0,
        forall|i: int| from <= i < to ==> (#[trigger] embeddings[i])[j].is_finite(),
    ensures
        column(weights, embeddings, j, to) == column(weights, embeddings, j, from),
    decreases to,
{
    if from < to {
        lemma_zero_weights(weights, embeddings, j, from, (to - 1) as nat);
        lemma_zero_times(weights[to - 1], embeddings[to - 1][j]);
        lemma_zero_step(
            column(weights, embeddings, j, (to - 1) as nat),
            weights[to - 1].times(embeddings[to - 1][j]),
        );
    }
}

/// Where the input is in the domain, every component is finite and in range.
pub proof fn in_domain_components_are_finite(
    embeddings: Seq<Seq<Binary64>>,
    coverages: Seq<Binary64>,
    dim: usize,
)
    requires
        input_error(embeddings, coverages, dim) is None,
    ensures
        forall|i: int, j: int|
            0 <= i < embeddings.len() && 0 <= j < dim ==> (
            #[trigger] embeddings[i][j]).is_finite() && magnitude_in_range(embeddings[i][j]),
        forall|i: int| 0 <= i < embeddings.len() ==> (#[trigger] embeddings[i]).len() == dim,
{
    crate::aggregate::domain::lemma_lengths(embeddings, coverages, dim, 0);
    assert forall|i: int, j: int| 0 <= i < embeddings.len() && 0 <= j < dim implies (
    #[trigger] embeddings[i][j]).is_finite() && magnitude_in_range(embeddings[i][j]) by {
        lemma_windows_finite(embeddings, coverages, dim, 0, i, j);
    }
}

/// Where the input is in the domain, every coverage is in its range.
pub proof fn in_domain_coverages_are_in_range(
    embeddings: Seq<Seq<Binary64>>,
    coverages: Seq<Binary64>,
    dim: usize,
)
    requires
        input_error(embeddings, coverages, dim) is None,
    ensures
        coverages.len() == embeddings.len(),
        forall|i: int| 0 <= i < coverages.len() ==> coverage_in_range(#[trigger] coverages[i]),
{
    assert forall|i: int| 0 <= i < coverages.len() implies coverage_in_range(
        #[trigger] coverages[i],
    ) by {
        lemma_coverages_in_range(embeddings, coverages, dim, 0, i);
    }
}

/// The coverages of windows without an error are in range.
proof fn lemma_coverages_in_range(
    embeddings: Seq<Seq<Binary64>>,
    coverages: Seq<Binary64>,
    dim: usize,
    from: nat,
    i: int,
)
    requires
        windows_error(embeddings, coverages, dim, from) is None,
        from <= i < embeddings.len(),
    ensures
        coverage_in_range(coverages[i]),
    decreases i - from,
{
    if from < i {
        lemma_coverages_in_range(embeddings, coverages, dim, from + 1, i);
    }
}

/// The components of windows without an error are finite and in range.
proof fn lemma_windows_finite(
    embeddings: Seq<Seq<Binary64>>,
    coverages: Seq<Binary64>,
    dim: usize,
    from: nat,
    i: int,
    j: int,
)
    requires
        windows_error(embeddings, coverages, dim, from) is None,
        from <= i < embeddings.len(),
        0 <= j < dim,
    ensures
        embeddings[i][j].is_finite(),
        magnitude_in_range(embeddings[i][j]),
    decreases i - from,
{
    if from == i {
        lemma_components_finite(embeddings[i], from, 0, j);
    } else {
        lemma_windows_finite(embeddings, coverages, dim, from + 1, i, j);
    }
}

/// The components of a window without an error are finite and in range.
proof fn lemma_components_finite(v: Seq<Binary64>, window: nat, from: nat, j: int)
    requires
        component_error(v, window, from) is None,
        from <= j < v.len(),
    ensures
        v[j].is_finite(),
        magnitude_in_range(v[j]),
    decreases j - from,
{
    if from < j {
        lemma_components_finite(v, window, from + 1, j);
    }
}

/// A vector of zeros has a zero norm.
proof fn lemma_zero_norm(v: Seq<Binary64>)
    requires
        forall|j: int| 0 <= j < v.len() ==> #[trigger] v[j] == zero(),
    ensures
        largest(v) == zero(),
        norm(v) == zero(),
    decreases v.len(),
{
    if v.len() > 0 {
        assert(v.last() == zero());
        lemma_zero_norm(v.drop_last());
    }
}

/// Weights that are all zero determine no direction.
pub proof fn zero_weights_determine_no_direction(
    weights: Seq<Binary64>,
    embeddings: Seq<Seq<Binary64>>,
    coverages: Seq<Binary64>,
    dim: usize,
)
    requires
        input_error(embeddings, coverages, dim) is None,
        weights.len() == embeddings.len(),
        forall|i: int| 0 <= i < weights.len() ==> (#[trigger] weights[i]).magnitude() == 0,
    ensures
        folded(weights, embeddings, dim as nat, zero()) == Err::<Seq<Binary64>, WinditError>(
            WinditError::NonFinite,
        ),
{
    in_domain_components_are_finite(embeddings, coverages, dim);
    let n = embeddings.len();
    let sum = weighted_sum(weights, embeddings, dim as nat);
    let mass = masses(weights, embeddings, dim as nat);
    assert forall|j: int| 0 <= j < dim implies #[trigger] column(weights, embeddings, j, n)
        == Column::<Binary64>::empty() by {
        lemma_zero_column(weights, embeddings, j, n);
    }
    lemma_empty_total();
    lemma_zero_norm(sum);
    lemma_zero_norm(mass);
    lemma_threshold_of_nothing();
    lemma_floor_is_positive();
}

/// Windows of zero weight fold to an empty column.
proof fn lemma_zero_column(
    weights: Seq<Binary64>,
    embeddings: Seq<Seq<Binary64>>,
    j: int,
    n: nat,
)
    requires
        n <= embeddings.len(),
        forall|i: int| 0 <= i < n ==> (#[trigger] weights[i]).magnitude() == 0,
        forall|i: int| 0 <= i < n ==> (#[trigger] embeddings[i])[j].is_finite(),
    ensures
        column(weights, embeddings, j, n) == Column::<Binary64>::empty(),
{
    assert(column(weights, embeddings, j, 0) == Column::<Binary64>::empty());
    lemma_zero_weights(weights, embeddings, j, 0, n);
}

/// An empty column adds up to zero.
proof fn lemma_empty_total()
    ensures
        zero().plus(zero()) == zero(),
{
    lemma_plus_zero(zero(), zero());
}

/// The absolute floor of the threshold is above zero.
proof fn lemma_floor_is_positive()
    ensures
        <Binary64 as Real>::spec_min_gate_threshold().at_least(zero()),
{
}

/// Folds with the same columns have the same outcome.
proof fn lemma_same_fold(
    w1: Seq<Binary64>,
    e1: Seq<Seq<Binary64>>,
    w2: Seq<Binary64>,
    e2: Seq<Seq<Binary64>>,
    dim: nat,
    slack: Binary64,
)
    requires
        forall|j: int|
            0 <= j < dim ==> #[trigger] column(w1, e1, j, e1.len()) == column(w2, e2, j, e2.len()),
    ensures
        folded(w1, e1, dim, slack) == folded(w2, e2, dim, slack),
{
    assert(weighted_sum(w1, e1, dim) =~= weighted_sum(w2, e2, dim));
    assert(masses(w1, e1, dim) =~= masses(w2, e2, dim));
}

/// The threshold of no mass is the absolute floor.
proof fn lemma_threshold_of_nothing()
    ensures
        fold::sixteen().widened().times(<Binary64 as Real>::spec_epsilon()).times(zero()).plus(
            <Binary64 as Real>::spec_min_gate_threshold(),
        ).plus(zero()) == <Binary64 as Real>::spec_min_gate_threshold(),
{
    let floor = <Binary64 as Real>::spec_min_gate_threshold();
    let product = fold::sixteen().widened().times(<Binary64 as Real>::spec_epsilon());
    lemma_sixteen_epsilon();
    lemma_zero_times(zero(), product);
    let z = product.times(zero());
    assert(z.plus(floor) == floor.plus(z));
    lemma_plus_zero(floor, z);
    lemma_plus_zero(floor, zero());
}

/// Sixteen units of roundoff are a finite value.
pub proof fn lemma_sixteen_epsilon()
    ensures
        fold::sixteen().widened().times(<Binary64 as Real>::spec_epsilon()).is_finite(),
        !fold::sixteen().widened().times(<Binary64 as Real>::spec_epsilon()).negative(),
        fold::sixteen().widened().times(<Binary64 as Real>::spec_epsilon()).units() == pow2(1026),
{
    let x = fold::sixteen().widened();
    let e = <Binary64 as Real>::spec_epsilon();
    // Sixteen is `2^4`, and the unit of roundoff is `2^-52`.
    let t = pow2(1074);
    lemma_pow2_pos(1074);
    vstd::arithmetic::power2::lemma2_to64();
    vstd::arithmetic::power2::lemma2_to64_rest();
    vstd::arithmetic::power2::lemma_pow2_adds(23, 130);
    vstd::arithmetic::power2::lemma_pow2_adds(153, 925);
    assert(crate::binary::units(0x4180_0000, crate::binary::HIDDEN32 as nat) == pow2(153));
    let big = pow2(1078);
    assert(1 * big == big) by (nonlinear_arith);
    roundoff::lemma_top();
    vstd::arithmetic::power2::lemma_pow2_strictly_increases(1078, 2098);
    exact::lemma_representable(1, 1078);
    exact::representable_values_are_not_rounded(big);
    exact::lemma_signed_value(false, nearest(big, 1));
    assert(x.units() == big);
    vstd::arithmetic::power2::lemma_pow2_adds(52, 970);
    assert(units64(0x3cb0_0000_0000_0000) == (HIDDEN64 + 0) * pow2(970));
    assert(e.units() == pow2(1022));
    vstd::arithmetic::power2::lemma_pow2_adds(1078, 1022);
    vstd::arithmetic::power2::lemma_pow2_adds(1026, 1074);
    let small = pow2(1026);
    assert((big * pow2(1022)) * 1 == small * t) by (nonlinear_arith)
        requires
            big * pow2(1022) == small * t,
    ;
    exact::nearest_depends_on_the_ratio(big * pow2(1022), t, small, 1);
    vstd::arithmetic::power2::lemma_pow2_strictly_increases(1026, 2098);
    assert(1 * small == small) by (nonlinear_arith);
    exact::lemma_representable(1, 1026);
    exact::representable_values_are_not_rounded(small);
    exact::lemma_signed_value(false, nearest(small, 1));
}

/// Coverages in range do not change which error the windows have.
proof fn lemma_same_windows_error<C: Real>(
    embeddings: Seq<Seq<C>>,
    c: Seq<Binary64>,
    d: Seq<Binary64>,
    dim: usize,
    i: nat,
)
    requires
        c.len() == d.len() == embeddings.len(),
        forall|k: int| 0 <= k < c.len() ==> coverage_in_range(#[trigger] c[k]),
        forall|k: int| 0 <= k < d.len() ==> coverage_in_range(#[trigger] d[k]),
    ensures
        windows_error(embeddings, c, dim, i) == windows_error(embeddings, d, dim, i),
    decreases embeddings.len() - i,
{
    if i < embeddings.len() {
        assert(coverage_in_range(c[i as int]) && coverage_in_range(d[i as int]));
        lemma_same_windows_error(embeddings, c, d, dim, i + 1);
    }
}

/// Coverages inside their range only ever matter as weights: whether an input is in the
/// domain does not depend on them.
pub proof fn coverages_in_range_are_interchangeable<C: Real>(
    embeddings: Seq<Seq<C>>,
    c: Seq<Binary64>,
    d: Seq<Binary64>,
    dim: usize,
)
    requires
        c.len() == d.len(),
        forall|k: int| 0 <= k < c.len() ==> coverage_in_range(#[trigger] c[k]),
        forall|k: int| 0 <= k < d.len() ==> coverage_in_range(#[trigger] d[k]),
    ensures
        input_error(embeddings, c, dim) == input_error(embeddings, d, dim),
{
    if embeddings.len() == c.len() {
        lemma_same_windows_error(embeddings, c, d, dim, 0);
    }
}

/// A policy that does not weigh by coverage has the same outcomes at all coverages inside
/// their range.
pub proof fn only_the_coverage_policy_reads_coverages(
    embeddings: Seq<Seq<Binary64>>,
    c: Seq<Binary64>,
    d: Seq<Binary64>,
    dim: usize,
    ema: EmaRenormalized<Binary64>,
    r: Result<Vec<Binary64>, WinditError>,
)
    requires
        c.len() == d.len(),
        forall|k: int| 0 <= k < c.len() ==> coverage_in_range(#[trigger] c[k]),
        forall|k: int| 0 <= k < d.len() ==> coverage_in_range(#[trigger] d[k]),
    ensures
        MeanRenormalized.aggregates(embeddings, c, dim, r) == MeanRenormalized.aggregates(
            embeddings,
            d,
            dim,
            r,
        ),
        SaliencyWeighted.aggregates(embeddings, c, dim, r) == SaliencyWeighted.aggregates(
            embeddings,
            d,
            dim,
            r,
        ),
        ema.aggregates(embeddings, c, dim, r) == ema.aggregates(embeddings, d, dim, r),
{
    coverages_in_range_are_interchangeable(embeddings, c, d, dim);
}

/// An aggregated vector has the dimension that was asked for.
pub proof fn aggregated_vectors_have_the_dimension<C: Real>(
    weights: Seq<C>,
    embeddings: Seq<Seq<C>>,
    dim: nat,
    slack: C,
)
    ensures
        folded(weights, embeddings, dim, slack) matches Ok(v) ==> v.len() == dim,
        folded(weights, embeddings, dim, slack) matches Err(e) ==> e == WinditError::NonFinite,
{
}

/// The powers of zero.
pub proof fn lemma_powers_of_zero(k: nat)
    ensures
        power(zero(), 0) == one(),
        k > 0 ==> power(zero(), k).magnitude() == 0,
    decreases k,
{
    lemma_one_units();
    if k > 0 {
        lemma_powers_of_zero((k - 1) as nat);
        lemma_zero_times(zero(), power(zero(), (k - 1) as nat));
    }
}

/// The powers of one.
pub proof fn lemma_powers_of_one(k: nat)
    ensures
        power(one(), k) == one(),
    decreases k,
{
    lemma_one_units();
    if k > 0 {
        lemma_powers_of_one((k - 1) as nat);
        lemma_one_times(one());
    }
}

/// With a smoothing factor of one an exponential moving average keeps the newest window
/// alone.
pub proof fn ema_of_one_keeps_the_newest_window(
    embeddings: Seq<Seq<Binary64>>,
    coverages: Seq<Binary64>,
    dim: usize,
)
    requires
        input_error(embeddings, coverages, dim) is None,
    ensures
        ({
            let weights = ladder(one(), embeddings.len());
            folded(
                weights,
                embeddings,
                dim as nat,
                formation_slack(weights, embeddings, one(), one().minus(one())),
            )
        }) == folded(uniform_weights(1), seq![embeddings.last()], dim as nat, zero()),
{
    let n = embeddings.len();
    let weights = ladder(one(), n);
    let newest = seq![embeddings.last()];
    let ones = uniform_weights::<Binary64>(1);
    in_domain_components_are_finite(embeddings, coverages, dim);
    lemma_ladder_of_one(n);
    assert forall|j: int| 0 <= j < dim implies #[trigger] column(weights, embeddings, j, n)
        == column(ones, newest, j, 1) by {
        lemma_zero_column(weights, embeddings, j, (n - 1) as nat);
        assert(column(ones, newest, j, 0) == Column::<Binary64>::empty());
        assert(newest[0][j] == embeddings[n - 1][j]);
    }
    lemma_same_fold(weights, embeddings, ones, newest, dim as nat, zero());
}

/// The weights of a moving average with a smoothing factor of one.
proof fn lemma_ladder_of_one(n: nat)
    requires
        n > 0,
    ensures
        ladder(one(), n)[n - 1] == one(),
        forall|i: int| 0 <= i < n - 1 ==> (#[trigger] ladder(one(), n)[i]).magnitude() == 0,
        one().minus(one()) == zero(),
{
    lemma_one_units();
    lemma_minus_itself(one());
    lemma_one_times(one());
    lemma_powers_of_zero(0);
    assert forall|i: int| 0 <= i < n - 1 implies (#[trigger] ladder(one(), n)[i]).magnitude()
        == 0 by {
        lemma_powers_of_zero((n - 1 - i) as nat);
        lemma_zero_times(power(zero(), (n - 1 - i) as nat), one());
    }
}

/// The column of one window of weight one is settled.
proof fn lemma_first_column(x: Binary64)
    requires
        x.is_finite(),
    ensures
        settled(Column::<Binary64>::empty().step(x)),
{
    let c = Column::<Binary64>::empty().step(x);
    lemma_plus_zero(zero(), zero());
    if x.magnitude() == 0 {
        lemma_zero_step(Column::<Binary64>::empty(), x);
    } else {
        exact::sums_commute(zero(), x);
        lemma_plus_zero(x, zero());
        lemma_lost(zero(), x);
        lemma_minus_itself(x);
        exact::sums_commute(zero(), x.absolute());
        lemma_plus_zero(x.absolute(), zero());
    }
}

/// With a smoothing factor of zero an exponential moving average keeps the oldest window
/// alone.
pub proof fn ema_of_zero_keeps_the_oldest_window(
    embeddings: Seq<Seq<Binary64>>,
    coverages: Seq<Binary64>,
    dim: usize,
)
    requires
        input_error(embeddings, coverages, dim) is None,
    ensures
        ({
            let weights = ladder(zero(), embeddings.len());
            folded(
                weights,
                embeddings,
                dim as nat,
                formation_slack(weights, embeddings, zero(), one().minus(zero())),
            )
        }) == folded(uniform_weights(1), seq![embeddings.first()], dim as nat, zero()),
{
    let n = embeddings.len();
    let weights = ladder(zero(), n);
    let oldest = seq![embeddings.first()];
    let ones = uniform_weights::<Binary64>(1);
    in_domain_components_are_finite(embeddings, coverages, dim);
    lemma_ladder_of_zero(n);
    assert forall|j: int| 0 <= j < dim implies #[trigger] column(weights, embeddings, j, n)
        == column(ones, oldest, j, 1) by {
        let x = embeddings[0][j];
        lemma_first_window(weights, embeddings, j);
        lemma_first_window(ones, oldest, j);
        assert(oldest[0][j] == x);
        lemma_one_times(x);
        lemma_first_column(x);
        lemma_zero_weights(weights, embeddings, j, 1, n);
    }
    lemma_same_fold(weights, embeddings, ones, oldest, dim as nat, zero());
}

/// The column of the first window.
proof fn lemma_first_window(weights: Seq<Binary64>, embeddings: Seq<Seq<Binary64>>, j: int)
    ensures
        column(weights, embeddings, j, 1) == Column::<Binary64>::empty().step(
            weights[0].times(embeddings[0][j]),
        ),
{
    assert(column(weights, embeddings, j, 0) == Column::<Binary64>::empty());
}

/// The weights of a moving average with a smoothing factor of zero.
proof fn lemma_ladder_of_zero(n: nat)
    requires
        n > 0,
    ensures
        ladder(zero(), n)[0] == one(),
        forall|i: int| 1 <= i < n ==> (#[trigger] ladder(zero(), n)[i]).magnitude() == 0,
        one().minus(zero()) == one(),
{
    lemma_one_units();
    lemma_plus_zero(one(), zero().negated());
    lemma_powers_of_one((n - 1) as nat);
    assert forall|i: int| 1 <= i < n implies (#[trigger] ladder(zero(), n)[i]).magnitude()
        == 0 by {
        lemma_powers_of_one((n - 1 - i) as nat);
        lemma_zero_times(zero(), one());
    }
}

/// Every finite binary32 value is inside the domain of aggregation, far from its ends.
pub proof fn single_precision_values_are_in_the_domain(x: Binary32)
    requires
        x.is_finite(),
    ensures
        x.widened().is_finite(),
        magnitude_in_range(x.widened()),
        x.widened().units() == 0 || pow2(925) <= x.widened().units() < pow2(1202),
{
    let (mag, h) = (x.magnitude(), HIDDEN32 as nat);
    let u = crate::binary::units(mag, h);
    let p = pow2(925);
    let w = x.widened();
    vstd::arithmetic::power2::lemma2_to64();
    // Below the power of two past the largest finite magnitude.
    crate::binary::lemma_units_increase(mag, INFINITY32 as nat, h);
    vstd::arithmetic::power2::lemma_pow2_adds(23, 254);
    assert(crate::binary::units(INFINITY32 as nat, h) == (h + 0) * pow2(254));
    // Widened without a rounding.
    let (m, e) = if mag / h == 0 {
        (mag % h, 0nat)
    } else {
        (h + mag % h, (mag / h - 1) as nat)
    };
    assert(m * 1 == m) by (nonlinear_arith);
    vstd::arithmetic::power2::lemma_pow2_adds(e, 925);
    assert((m * pow2(e)) * p == m * (pow2(e) * p)) by (nonlinear_arith);
    assert(u == m * pow2(e));
    lemma_pow2_pos(925);
    vstd::arithmetic::power2::lemma_pow2_adds(277, 925);
    vstd::arithmetic::mul::lemma_mul_strict_inequality(u as int, pow2(277) as int, p as int);
    if u > 0 {
        vstd::arithmetic::mul::lemma_mul_inequality(1, u as int, p as int);
    } else {
        assert(0 * p == 0) by (nonlinear_arith);
    }
    roundoff::lemma_top();
    vstd::arithmetic::power2::lemma_pow2_strictly_increases(1202, 2098);
    exact::lemma_representable(m, e + 925);
    exact::representable_values_are_not_rounded(u * p);
    exact::lemma_signed_value(x.negative(), nearest(u * p, 1));
    // The ends of the domain.
    let (low, top) = (0x26f0_0000_0000_0000nat, 0x58f0_0000_0000_0000nat);
    vstd::arithmetic::power2::lemma2_to64_rest();
    vstd::arithmetic::power2::lemma_pow2_adds(52, 622);
    vstd::arithmetic::power2::lemma_pow2_adds(52, 1422);
    assert(units64(low) == (HIDDEN64 + 0) * pow2(622));
    assert(units64(top) == (HIDDEN64 + 0) * pow2(1422));
    vstd::arithmetic::power2::lemma_pow2_strictly_increases(674, 925);
    vstd::arithmetic::power2::lemma_pow2_strictly_increases(1202, 1474);
    assert(units64(0) == 0);
    exact::lemma_order(0, w.magnitude() as nat);
    exact::lemma_order(w.magnitude() as nat, low);
    exact::lemma_order(top, w.magnitude() as nat);
    exact::lemma_signed_value(false, w.magnitude() as nat);
}

} // verus!
