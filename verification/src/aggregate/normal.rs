//! The range that the intermediates of a fold stay in.
//!
//! Inside the domain no fold overflows. Where the domain also bounds the weights from below,
//! every term is a multiple of `2^-852`, and so is everything that the fold makes of them:
//! nothing is ever rounded to a subnormal number.
use vstd::arithmetic::div_mod::{lemma_fundamental_div_mod, lemma_mod_multiples_basic};
use vstd::arithmetic::mul::lemma_mul_upper_bound;
use vstd::arithmetic::power2::{
    lemma_pow2_adds, lemma_pow2_pos, lemma_pow2_strictly_increases, pow2,
};
use vstd::prelude::*;

use crate::aggregate::accuracy::{self, moderate, tame, term, MANY};
use crate::aggregate::bounds::{self, WIDE};
use crate::aggregate::domain::{input_error, magnitude_in_range};
use crate::aggregate::ema::{alpha_in_range, ladder};
use crate::aggregate::fold::{column, lost, weighted_sum, Column};
use crate::aggregate::laws::{self, zero};
use crate::aggregate::norm::{largest, norm};
use crate::aggregate::moving;
use crate::aggregate::policy::{coverage_weights, saliency_weights, uniform_weights};
use crate::aggregate::ratios;
use crate::aggregate::refusal;
use crate::arith::nearest;
use crate::binary::{Binary64, HIDDEN64, INFINITY64};
use crate::exact::{self, size};
use crate::rounding::units64;
use crate::roundoff;

verus! {

/// Whether a value is zero or in the normal range.
pub open spec fn normal(x: Binary64) -> bool {
    x.is_finite() && (x.units() == 0 || x.units() >= HIDDEN64)
}

/// The first of the two steps in which the fold finds out what a sum has lost.
pub open spec fn difference(acc: Binary64, t: Binary64) -> Binary64 {
    if acc.absolute().at_least(t.absolute()) {
        acc.minus(acc.plus(t))
    } else {
        t.minus(acc.plus(t))
    }
}

/// Whether everything that the fold computes for one more term is finite: the term, the new
/// sum, the two steps of what it has lost, the new compensation, and the new mass.
#[verifier::opaque]
pub open spec fn finite_step(c: Column<Binary64>, t: Binary64) -> bool {
    &&& t.is_finite()
    &&& c.acc.plus(t).is_finite()
    &&& difference(c.acc, t).is_finite()
    &&& lost(c.acc, t).is_finite()
    &&& c.comp.plus(lost(c.acc, t)).is_finite()
    &&& c.mag.plus(t.absolute()).is_finite()
}

/// Whether everything that the fold computes for one more term is zero or in the normal
/// range.
#[verifier::opaque]
pub open spec fn normal_step(c: Column<Binary64>, t: Binary64) -> bool {
    &&& normal(t)
    &&& normal(c.acc.plus(t))
    &&& normal(difference(c.acc, t))
    &&& normal(lost(c.acc, t))
    &&& normal(c.comp.plus(lost(c.acc, t)))
    &&& normal(c.mag.plus(t.absolute()))
}

/// Whether everything that the fold of dimension `j` computes up to window `n` is finite.
pub open spec fn finite_fold(
    weights: Seq<Binary64>,
    embeddings: Seq<Seq<Binary64>>,
    j: int,
    n: nat,
) -> bool {
    forall|k: nat|
        k < n ==> #[trigger] finite_step(
            column(weights, embeddings, j, k),
            term(weights, embeddings, k as int, j),
        )
}

/// Whether everything that the fold of dimension `j` computes up to window `n` is zero or in
/// the normal range.
pub open spec fn normal_fold(
    weights: Seq<Binary64>,
    embeddings: Seq<Seq<Binary64>>,
    j: int,
    n: nat,
) -> bool {
    forall|k: nat|
        k < n ==> #[trigger] normal_step(
            column(weights, embeddings, j, k),
            term(weights, embeddings, k as int, j),
        )
}

/// The addends of a finite sum are finite.
proof fn lemma_finite_sum(x: Binary64, y: Binary64)
    requires
        x.plus(y).is_finite(),
    ensures
        x.is_finite(),
        y.is_finite(),
{
}

/// One step from finite sums to finite sums computes nothing that is not finite.
proof fn lemma_finite_step(c: Column<Binary64>, t: Binary64)
    requires
        t.is_finite(),
        c.step(t).acc.is_finite(),
        c.step(t).comp.is_finite(),
        c.step(t).mag.is_finite(),
    ensures
        finite_step(c, t),
{
    reveal(finite_step);
    let sum = c.acc.plus(t);
    let rest = lost(c.acc, t);
    lemma_finite_sum(c.comp, rest);
    if c.acc.absolute().at_least(t.absolute()) {
        lemma_finite_sum(c.acc.minus(sum), t);
    } else {
        lemma_finite_sum(t.minus(sum), c.acc);
    }
}

/// Inside the domain, with weights of at most `2^526`, everything that a fold computes is
/// finite.
pub proof fn in_domain_folds_are_finite(
    weights: Seq<Binary64>,
    embeddings: Seq<Seq<Binary64>>,
    coverages: Seq<Binary64>,
    dim: usize,
    j: int,
)
    requires
        input_error(embeddings, coverages, dim) is None,
        weights.len() == embeddings.len() <= MANY,
        forall|i: int|
            0 <= i < weights.len() ==> (#[trigger] weights[i]).is_finite() && weights[i].units()
                <= pow2(1600),
        0 <= j < dim,
    ensures
        finite_fold(weights, embeddings, j, embeddings.len()),
        weighted_sum(weights, embeddings, dim as nat)[j].is_finite(),
{
    let n = embeddings.len();
    refusal::lemma_domain_is_tame(weights, embeddings, coverages, dim);
    assert(tame(weights, embeddings, j));
    accuracy::lemma_tame(weights, embeddings, j);
    accuracy::the_fold_is_moderate(weights, embeddings, dim as nat, j);
    assert forall|k: nat| k < n implies #[trigger] finite_step(
        column(weights, embeddings, j, k),
        term(weights, embeddings, k as int, j),
    ) by {
        let t = term(weights, embeddings, k as int, j);
        assert(t.is_finite());
        assert(moderate(weights, embeddings, j, k + 1));
        let mass = accuracy::exact_mass(weights, embeddings, j, k + 1);
        accuracy::lemma_heights(weights, embeddings, j, k + 1);
        accuracy::the_fold_tracks_the_exact_sum(weights, embeddings, j, k + 1, mass);
        let c = column(weights, embeddings, j, k);
        assert(column(weights, embeddings, j, k + 1) == c.step(t));
        lemma_finite_step(c, t);
    }
}

/// Whether a number is a multiple of `2^-852`, in least positive numbers.
#[verifier::opaque]
pub open spec fn coarse(n: int) -> bool {
    n % (pow2(222) as int) == 0
}

/// A multiple is one.
proof fn lemma_coarse(m: int)
    ensures
        coarse(m * pow2(222)),
        coarse(0),
{
    reveal(coarse);
    lemma_pow2_pos(222);
    lemma_mod_multiples_basic(m, pow2(222) as int);
    lemma_mod_multiples_basic(0, pow2(222) as int);
    assert(0 * pow2(222) == 0) by (nonlinear_arith);
}

/// What a coarse number is a multiple of.
proof fn lemma_factor(n: int) -> (m: int)
    requires
        coarse(n),
    ensures
        n == m * pow2(222),
{
    reveal(coarse);
    let p = pow2(222) as int;
    lemma_pow2_pos(222);
    lemma_fundamental_div_mod(n, p);
    let m = n / p;
    assert(p * m == m * p) by (nonlinear_arith);
    m
}

/// Sums and differences of coarse numbers are coarse.
proof fn lemma_coarse_sum(a: int, b: int)
    requires
        coarse(a),
        coarse(b),
    ensures
        coarse(a + b),
        coarse(-a),
{
    let (x, y) = (lemma_factor(a), lemma_factor(b));
    let p = pow2(222);
    assert((x + y) * p == x * p + y * p) by (nonlinear_arith);
    assert((-x) * p == -(x * p)) by (nonlinear_arith);
    lemma_coarse(x + y);
    lemma_coarse(-x);
}

/// A coarse number is rounded to a coarse one.
proof fn lemma_coarse_rounding(n: nat)
    requires
        coarse(n as int),
        nearest(n, 1) < INFINITY64,
    ensures
        coarse(units64(nearest(n, 1)) as int),
{
    let p = pow2(222);
    let f = lemma_factor(n as int);
    lemma_pow2_pos(222);
    assert(f >= 0) by (nonlinear_arith)
        requires
            n == f * p,
            n >= 0,
            p > 0,
    ;
    let m = f as nat;
    let mag = nearest(n, 1);
    vstd::arithmetic::power2::lemma2_to64_rest();
    if m < 2 * HIDDEN64 {
        roundoff::lemma_top();
        lemma_pow2_adds(53, 222);
        vstd::arithmetic::mul::lemma_mul_inequality(m as int, pow2(53) as int, p as int);
        lemma_pow2_strictly_increases(275, 2098);
        exact::lemma_representable(m, 222);
        exact::representable_values_are_not_rounded(n);
    } else {
        // At least `2^275`, so its last bit is no lower than `2^222`.
        lemma_pow2_adds(53, 222);
        lemma_pow2_strictly_increases(274, 275);
        vstd::arithmetic::mul::lemma_mul_inequality(pow2(53) as int, m as int, p as int);
        exact::rounding_is_monotone(pow2(275), n, 1);
        roundoff::lemma_power_value(275);
        exact::lemma_order(nearest(pow2(275), 1), mag);
        exact::lemma_order(mag, nearest(pow2(275), 1));
        lemma_coarse_value(mag);
    }
}

/// A value of at least `2^-800` is coarse.
proof fn lemma_coarse_value(mag: nat)
    requires
        units64(mag) >= pow2(274),
    ensures
        coarse(units64(mag) as int),
{
    exact::lemma_parts(mag);
    let (s, k) = (exact::significand(mag), exact::scale(mag));
    vstd::arithmetic::power2::lemma2_to64_rest();
    if k < 222 {
        if k < 221 {
            lemma_pow2_strictly_increases(k, 221);
        }
        lemma_pow2_adds(53, 221);
        lemma_pow2_pos(k);
        assert(s * pow2(k) < pow2(53) * pow2(221)) by (nonlinear_arith)
            requires
                s < pow2(53),
                0 < pow2(k) <= pow2(221),
        ;
    }
    let d = (k - 222) as nat;
    lemma_pow2_adds(d, 222);
    let (q, p) = (pow2(d), pow2(222));
    assert(s * (q * p) == (s * q) * p) by (nonlinear_arith);
    lemma_coarse((s * q) as int);
}

/// The sum of two coarse values is coarse.
proof fn lemma_coarse_plus(x: Binary64, y: Binary64)
    requires
        x.is_finite(),
        y.is_finite(),
        x.plus(y).is_finite(),
        coarse(x.value()),
        coarse(y.value()),
    ensures
        coarse(x.plus(y).value()),
{
    let total = x.value() + y.value();
    lemma_coarse(0);
    lemma_coarse_sum(x.value(), y.value());
    lemma_coarse_sum(total, 0);
    assert(units64(0) == 0);
    let n = size(total);
    if total != 0 {
        exact::every_ratio_has_a_nearest_value(n, 1);
        exact::lemma_signed_value(total < 0, nearest(n, 1));
        lemma_coarse_rounding(n);
        lemma_coarse_sum(units64(nearest(n, 1)) as int, 0);
    } else {
        exact::lemma_signed_value(x.negative() && y.negative(), 0);
    }
}

/// The sign of a coarse value does not matter.
proof fn lemma_coarse_sign(x: Binary64)
    requires
        x.is_finite(),
        coarse(x.value()),
    ensures
        coarse(x.units() as int),
        x.absolute().is_finite(),
        coarse(x.absolute().value()),
        x.negated().is_finite(),
        coarse(x.negated().value()),
        normal(x),
{
    lemma_coarse(0);
    lemma_coarse_sum(x.value(), 0);
    exact::lemma_signed_value(false, x.magnitude() as nat);
    exact::lemma_signed_value(!x.negative(), x.magnitude() as nat);
    let m = lemma_factor(x.units() as int);
    let p = pow2(222);
    vstd::arithmetic::power2::lemma2_to64_rest();
    lemma_pow2_strictly_increases(52, 222);
    assert(x.units() == 0 || x.units() >= p) by (nonlinear_arith)
        requires
            x.units() == m * p,
            x.units() >= 0,
            p > 0,
    ;
}

/// Whether the running sums of a dimension are coarse.
#[verifier::opaque]
spec fn coarse_column(c: Column<Binary64>) -> bool {
    &&& c.acc.is_finite() && coarse(c.acc.value())
    &&& c.comp.is_finite() && coarse(c.comp.value())
    &&& c.mag.is_finite() && coarse(c.mag.value())
}

/// A step with a coarse term computes only coarse values.
proof fn lemma_coarse_step(c: Column<Binary64>, t: Binary64)
    requires
        coarse_column(c),
        t.is_finite(),
        coarse(t.value()),
        finite_step(c, t),
    ensures
        coarse_column(c.step(t)),
        normal_step(c, t),
{
    reveal(finite_step);
    reveal(normal_step);
    reveal(coarse_column);
    let sum = c.acc.plus(t);
    lemma_coarse_plus(c.acc, t);
    lemma_coarse_sign(t);
    lemma_coarse_sign(sum);
    let (a, b) = if c.acc.absolute().at_least(t.absolute()) {
        (c.acc, t)
    } else {
        (t, c.acc)
    };
    lemma_coarse_plus(a, sum.negated());
    let first = a.minus(sum);
    lemma_coarse_sign(first);
    lemma_coarse_plus(first, b);
    let rest = first.plus(b);
    lemma_coarse_sign(rest);
    lemma_coarse_plus(c.comp, rest);
    lemma_coarse_sign(c.comp.plus(rest));
    lemma_coarse_plus(c.mag, t.absolute());
    lemma_coarse_sign(c.mag.plus(t.absolute()));
}

/// Whether a term is finite and coarse.
#[verifier::opaque]
spec fn coarse_term(t: Binary64) -> bool {
    t.is_finite() && coarse(t.value())
}

/// The term of a finite step is finite.
proof fn lemma_coarse_term(c: Column<Binary64>, t: Binary64)
    requires
        finite_step(c, t),
        coarse(t.value()),
    ensures
        coarse_term(t),
{
    reveal(finite_step);
    reveal(coarse_term);
}

/// A step with a coarse term, as one fact about the column and the term.
proof fn lemma_coarse_next(c: Column<Binary64>, t: Binary64, next: Column<Binary64>)
    requires
        coarse_column(c),
        coarse_term(t),
        finite_step(c, t),
        next == c.step(t),
    ensures
        coarse_column(next),
        normal_step(c, t),
{
    reveal(coarse_term);
    lemma_coarse_step(c, t);
}

/// The empty column is coarse.
proof fn lemma_coarse_start()
    ensures
        coarse_column(Column::<Binary64>::empty()),
{
    reveal(coarse_column);
    assert(units64(0) == 0);
    lemma_coarse(0);
}

/// A fold of coarse terms, as facts about its columns and terms.
#[verifier::spinoff_prover]
proof fn lemma_coarse_steps(
    weights: Seq<Binary64>,
    embeddings: Seq<Seq<Binary64>>,
    j: int,
    n: nat,
)
    requires
        finite_fold(weights, embeddings, j, n),
        forall|i: int| 0 <= i < n ==> coarse_term(#[trigger] term(weights, embeddings, i, j)),
    ensures
        normal_fold(weights, embeddings, j, n),
        coarse_column(column(weights, embeddings, j, n)),
    decreases n,
{
    if n == 0 {
        lemma_coarse_start();
    } else {
        let k = (n - 1) as nat;
        lemma_coarse_steps(weights, embeddings, j, k);
        let c = column(weights, embeddings, j, k);
        let t = term(weights, embeddings, k as int, j);
        assert(column(weights, embeddings, j, n) == c.step(t));
        lemma_coarse_next(c, t, column(weights, embeddings, j, n));
    }
}

/// The fold of coarse terms computes nothing below the normal range.
proof fn lemma_coarse_fold(
    weights: Seq<Binary64>,
    embeddings: Seq<Seq<Binary64>>,
    j: int,
    n: nat,
)
    requires
        finite_fold(weights, embeddings, j, n),
        forall|i: int| 0 <= i < n ==> coarse((#[trigger] term(weights, embeddings, i, j)).value()),
    ensures
        normal_fold(weights, embeddings, j, n),
        coarse_column(column(weights, embeddings, j, n)),
{
    assert forall|i: int| 0 <= i < n implies coarse_term(
        #[trigger] term(weights, embeddings, i, j),
    ) by {
        let k = i as nat;
        lemma_coarse_term(
            column(weights, embeddings, j, k),
            term(weights, embeddings, k as int, j),
        );
    }
    lemma_coarse_steps(weights, embeddings, j, n);
}

/// The compensated sum of a coarse column.
proof fn lemma_coarse_end(c: Column<Binary64>)
    requires
        coarse_column(c),
        c.acc.plus(c.comp).is_finite(),
    ensures
        normal(c.acc.plus(c.comp)),
{
    reveal(coarse_column);
    lemma_coarse_plus(c.acc, c.comp);
    lemma_coarse_sign(c.acc.plus(c.comp));
}

/// A nonzero component inside the domain is at least `2^-400`.
proof fn lemma_component_floor(x: Binary64)
    requires
        x.is_finite(),
        magnitude_in_range(x),
    ensures
        x.units() == 0 || x.units() >= pow2(674),
{
    let low = 0x26f0_0000_0000_0000nat;
    vstd::arithmetic::power2::lemma2_to64_rest();
    lemma_pow2_adds(52, 622);
    assert(units64(low) == (HIDDEN64 + 0) * pow2(622));
    assert(units64(0) == 0);
    exact::lemma_signed_value(false, x.magnitude() as nat);
    exact::lemma_order(x.magnitude() as nat, low);
    exact::lemma_order(0, x.magnitude() as nat);
}

/// Under a mean everything that the fold computes is zero or in the normal range.
pub proof fn means_stay_in_the_normal_range(
    embeddings: Seq<Seq<Binary64>>,
    coverages: Seq<Binary64>,
    dim: usize,
    j: int,
)
    requires
        input_error(embeddings, coverages, dim) is None,
        embeddings.len() <= MANY,
        0 <= j < dim,
    ensures
        normal_fold(uniform_weights(embeddings.len()), embeddings, j, embeddings.len()),
        normal(weighted_sum(uniform_weights(embeddings.len()), embeddings, dim as nat)[j]),
{
    let n = embeddings.len();
    let weights = uniform_weights::<Binary64>(n);
    laws::lemma_one_units();
    lemma_pow2_strictly_increases(1074, 1600);
    in_domain_folds_are_finite(weights, embeddings, coverages, dim, j);
    laws::in_domain_components_are_finite(embeddings, coverages, dim);
    assert forall|i: int| 0 <= i < n implies coarse(
        (#[trigger] term(weights, embeddings, i, j)).value(),
    ) by {
        let x = embeddings[i][j];
        assert(embeddings[i][j].is_finite() && magnitude_in_range(embeddings[i][j]));
        lemma_component_floor(x);
        laws::lemma_one_times(x);
        lemma_coarse(0);
        if x.units() != 0 {
            lemma_pow2_strictly_increases(274, 674);
            lemma_coarse_value(x.magnitude() as nat);
            lemma_coarse_sum(x.units() as int, 0);
        }
    }
    lemma_coarse_fold(weights, embeddings, j, n);
    lemma_coarse_end(column(weights, embeddings, j, n));
}

/// The norm of a window inside the domain is zero or at least `2^-400`.
proof fn lemma_norm_floor(v: Seq<Binary64>)
    requires
        v.len() <= WIDE,
        forall|k: int|
            0 <= k < v.len() ==> (#[trigger] v[k]).is_finite() && magnitude_in_range(v[k]),
    ensures
        norm(v).is_finite(),
        norm(v).units() == 0 || norm(v).units() >= pow2(674),
{
    bounds::lemma_largest_is_attained(v);
    if largest(v).units() == 0 {
        bounds::lemma_norm_of_nothing(v);
        assert(units64(0) == 0);
    } else {
        let i = choose|i: int|
            0 <= i < v.len() && (#[trigger] v[i]).units() == largest(v).units();
        lemma_component_floor(v[i]);
        refusal::lemma_component_bound(v[i]);
        lemma_pow2_strictly_increases(1474, 2070);
        bounds::norms_keep_their_scale(v);
        let e = largest(v).exponent();
        if e + 1075 <= 674 {
            if e + 1075 < 674 {
                lemma_pow2_strictly_increases((e + 1075) as nat, 674);
            }
        }
        if e + 1074 > 674 {
            lemma_pow2_strictly_increases(674, (e + 1074) as nat);
        }
    }
}

/// A product of values of at least `2^-400` is coarse.
proof fn lemma_coarse_product(w: Binary64, x: Binary64)
    requires
        w.is_finite(),
        x.is_finite(),
        w.units() == 0 || w.units() >= pow2(674),
        x.units() == 0 || x.units() >= pow2(674),
        w.times(x).is_finite(),
    ensures
        coarse(w.times(x).value()),
{
    let (u, v, t) = (w.units(), x.units(), pow2(1074));
    lemma_coarse(0);
    lemma_pow2_pos(1074);
    assert(units64(0) == 0);
    exact::lemma_order(0, w.magnitude() as nat);
    exact::lemma_order(0, x.magnitude() as nat);
    if u == 0 {
        laws::lemma_zero_times(w, x);
    } else if v == 0 {
        laws::lemma_zero_times(x, w);
    } else {
        let p = pow2(674);
        lemma_mul_upper_bound(p as int, u as int, p as int, v as int);
        lemma_pow2_adds(674, 674);
        lemma_pow2_adds(274, 1074);
        let low = pow2(274);
        exact::rounding_is_monotone(low * t, u * v, t);
        assert((low * t) * 1 == low * t) by (nonlinear_arith);
        exact::nearest_depends_on_the_ratio(low * t, t, low, 1);
        roundoff::lemma_power_value(274);
        let mag = nearest(u * v, t);
        exact::lemma_order(nearest(low, 1), mag);
        exact::lemma_order(mag, nearest(low, 1));
        exact::every_ratio_has_a_nearest_value(u * v, t);
        exact::lemma_signed_value(w.negative() != x.negative(), mag);
        lemma_coarse_value(mag);
        lemma_coarse_sum(units64(mag) as int, 0);
    }
}

/// Under a saliency-weighted mean everything that the fold computes is zero or in the normal
/// range.
pub proof fn saliency_means_stay_in_the_normal_range(
    embeddings: Seq<Seq<Binary64>>,
    coverages: Seq<Binary64>,
    dim: usize,
    j: int,
)
    requires
        input_error(embeddings, coverages, dim) is None,
        embeddings.len() <= MANY,
        dim <= WIDE,
        0 <= j < dim,
    ensures
        normal_fold(saliency_weights(embeddings), embeddings, j, embeddings.len()),
        normal(weighted_sum(saliency_weights(embeddings), embeddings, dim as nat)[j]),
{
    let n = embeddings.len();
    let weights = saliency_weights(embeddings);
    refusal::saliency_weights_are_ideal(embeddings, coverages, dim);
    in_domain_folds_are_finite(weights, embeddings, coverages, dim, j);
    laws::in_domain_components_are_finite(embeddings, coverages, dim);
    assert forall|i: int| 0 <= i < n implies coarse(
        (#[trigger] term(weights, embeddings, i, j)).value(),
    ) by {
        let v = embeddings[i];
        assert(embeddings[i].len() == dim);
        assert forall|k: int| 0 <= k < v.len() implies (#[trigger] v[k]).is_finite()
            && magnitude_in_range(v[k]) by {
            assert(embeddings[i][k].is_finite());
        }
        lemma_norm_floor(v);
        assert(weights[i] == norm(v));
        lemma_component_floor(v[j]);
        assert(term(weights, embeddings, i, j).is_finite()) by {
            reveal(finite_step);
            let c = column(weights, embeddings, j, i as nat);
            assert(finite_step(c, term(weights, embeddings, i as nat as int, j)));
        }
        lemma_coarse_product(weights[i], v[j]);
    }
    lemma_coarse_fold(weights, embeddings, j, n);
    lemma_coarse_end(column(weights, embeddings, j, n));
}

/// Under a moving average everything that the fold computes is finite.
pub proof fn moving_averages_stay_finite(
    alpha: Binary64,
    embeddings: Seq<Seq<Binary64>>,
    coverages: Seq<Binary64>,
    dim: usize,
    j: int,
)
    requires
        alpha_in_range(alpha),
        input_error(embeddings, coverages, dim) is None,
        embeddings.len() <= MANY,
        0 <= j < dim,
    ensures
        finite_fold(ladder(alpha, embeddings.len()), embeddings, j, embeddings.len()),
        weighted_sum(ladder(alpha, embeddings.len()), embeddings, dim as nat)[j].is_finite(),
{
    let weights = ladder(alpha, embeddings.len());
    lemma_pow2_strictly_increases(1074, 1600);
    assert forall|i: int| 0 <= i < weights.len() implies (#[trigger] weights[i]).is_finite()
        && weights[i].units() <= pow2(1600) by {
        moving::moving_average_weights_are_fractions(alpha, embeddings.len(), i);
    }
    in_domain_folds_are_finite(weights, embeddings, coverages, dim, j);
}

/// Under a coverage-weighted mean everything that the fold computes is finite.
pub proof fn coverage_means_stay_finite(
    embeddings: Seq<Seq<Binary64>>,
    coverages: Seq<Binary64>,
    dim: usize,
    j: int,
)
    requires
        input_error(embeddings, coverages, dim) is None,
        embeddings.len() <= MANY,
        0 <= j < dim,
    ensures
        finite_fold(coverage_weights(coverages), embeddings, j, embeddings.len()),
        weighted_sum(coverage_weights(coverages), embeddings, dim as nat)[j].is_finite(),
{
    let weights = coverage_weights::<Binary64>(coverages);
    laws::in_domain_coverages_are_in_range(embeddings, coverages, dim);
    assert forall|k: int| 0 <= k < coverages.len() implies (
    #[trigger] coverages[k]).is_finite() by {
        ratios::lemma_in_range(coverages[k]);
    }
    bounds::lemma_largest_is_attained(coverages);
    assert(units64(0) == 0);
    assert forall|i: int| 0 <= i < weights.len() implies (#[trigger] weights[i]).is_finite()
        && weights[i].units() <= pow2(1600) by {
        if largest(coverages).units() == 0 {
            exact::lemma_order(0, largest(coverages).magnitude() as nat);
            assert(weights[i] == zero());
        } else {
            refusal::coverage_weights_round_their_ideals(coverages);
            assert(accuracy::rounds_ideal(
                weights[i],
                refusal::lifted_shares(coverages)[i],
                largest(coverages).units(),
            ));
        }
    }
    in_domain_folds_are_finite(weights, embeddings, coverages, dim, j);
}

} // verus!
