//! How accurate the compensated fold is.
//!
//! Everything here is stated in least positive numbers, as exact integers: the sum of the
//! terms of a dimension, the mass of their magnitudes, and what the fold makes of them.
use vstd::arithmetic::mul::lemma_mul_inequality;
use vstd::arithmetic::power2::{
    lemma_pow2_adds, lemma_pow2_pos, lemma_pow2_strictly_increases, pow2,
};
use vstd::prelude::*;

use crate::aggregate::fold::{column, lost, masses, weighted_sum, Column};
use crate::aggregate::laws;
use crate::arith::nearest;
use crate::binary::{Binary64, HIDDEN64};
use crate::close::lemma_size_times;
use crate::exact::{self, size};
use crate::rounding::units64;
use crate::roundoff::{self, lemma_sum_error, PRECISION};

verus! {

/// The term of window `i` in dimension `j`.
pub open spec fn term(
    weights: Seq<Binary64>,
    embeddings: Seq<Seq<Binary64>>,
    i: int,
    j: int,
) -> Binary64 {
    weights[i].times(embeddings[i][j])
}

/// The exact sum of the terms of the first `n` windows.
pub open spec fn exact_sum(
    weights: Seq<Binary64>,
    embeddings: Seq<Seq<Binary64>>,
    j: int,
    n: nat,
) -> int
    decreases n,
{
    if n == 0 {
        0
    } else {
        exact_sum(weights, embeddings, j, (n - 1) as nat) + term(
            weights,
            embeddings,
            n - 1,
            j,
        ).value()
    }
}

/// The exact sum of the magnitudes of the terms of the first `n` windows.
pub open spec fn exact_mass(
    weights: Seq<Binary64>,
    embeddings: Seq<Seq<Binary64>>,
    j: int,
    n: nat,
) -> nat
    decreases n,
{
    if n == 0 {
        0
    } else {
        exact_mass(weights, embeddings, j, (n - 1) as nat) + term(
            weights,
            embeddings,
            n - 1,
            j,
        ).units()
    }
}

/// The largest number of windows that the refusal of windows that cancel is stated for.
pub const MANY: u64 = 1_000_000_000;

/// The largest number of windows that the accuracy of the fold is stated for: `2^28`.
pub const FEW: u64 = 0x1000_0000;

/// Whether the products of dimension `j` are of finite values and far from overflow.
pub open spec fn tame(weights: Seq<Binary64>, embeddings: Seq<Seq<Binary64>>, j: int) -> bool {
    forall|i: int|
        0 <= i < embeddings.len() ==> (#[trigger] embeddings[i])[j].is_finite()
            && weights[i].is_finite() && weights[i].units() * embeddings[i][j].units() <= pow2(2000)
            * pow2(1074)
}

/// Tame products make moderate terms.
pub proof fn lemma_tame(weights: Seq<Binary64>, embeddings: Seq<Seq<Binary64>>, j: int)
    requires
        tame(weights, embeddings, j),
    ensures
        moderate(weights, embeddings, j, embeddings.len()),
{
    let (t, big) = (pow2(1074), pow2(2000));
    lemma_pow2_pos(1074);
    assert forall|i: int| 0 <= i < embeddings.len() implies (#[trigger] term(
        weights,
        embeddings,
        i,
        j,
    )).is_finite() && term(weights, embeddings, i, j).units() <= big by {
        let (w, x) = (weights[i], embeddings[i][j]);
        let a = w.units() * x.units();
        assert(a <= big * t);
        roundoff::lemma_power_value(2000);
        assert((big * t) * 1 == big * t) by (nonlinear_arith);
        exact::nearest_depends_on_the_ratio(big * t, t, big, 1);
        exact::rounding_is_monotone(a, big * t, t);
        exact::lemma_order(nearest(a, t), nearest(big, 1));
        exact::lemma_order(nearest(big, 1), nearest(a, t));
        exact::lemma_signed_value(w.negative() != x.negative(), nearest(a, t));
    }
}

/// Whether the terms of the first `n` windows in dimension `j` are finite and far from
/// overflow.
pub open spec fn moderate(
    weights: Seq<Binary64>,
    embeddings: Seq<Seq<Binary64>>,
    j: int,
    n: nat,
) -> bool {
    forall|i: int|
        0 <= i < n ==> (#[trigger] term(weights, embeddings, i, j)).is_finite() && term(
            weights,
            embeddings,
            i,
            j,
        ).units() <= pow2(2000)
}

/// Whether the exact sum of any of the first windows, up to `n`, is at most `height`.
pub open spec fn stays_below(
    weights: Seq<Binary64>,
    embeddings: Seq<Seq<Binary64>>,
    j: int,
    n: nat,
    height: nat,
) -> bool {
    forall|k: nat| k <= n ==> size(#[trigger] exact_sum(weights, embeddings, j, k)) <= height
}

/// What the fold of the first `n` windows of a dimension holds: with `total` the exact sum,
/// `mass` the exact mass and `height` a bound on the exact sums on the way, the running sum is
/// off by at most `n` roundings of the height, the running compensation makes up for it but
/// for a second-order rest, and the running mass is within a relative error of the exact one.
pub open spec fn tracks(
    c: Column<Binary64>,
    total: int,
    mass: nat,
    height: nat,
    n: nat,
) -> bool {
    let missing = total - c.acc.value();
    let rest = missing - c.comp.value();
    &&& c.acc.is_finite()
    &&& c.comp.is_finite()
    &&& c.mag.is_finite()
    &&& !c.mag.negative()
    &&& size(total) <= mass
    &&& size(missing) <= mass
    &&& 1024 * (size(missing) * PRECISION) <= 1025 * (n * height)
    &&& size(rest) <= mass
    &&& 2048 * (size(rest) * PRECISION * PRECISION) <= 1030 * (n * (n + 1) * height)
    &&& c.mag.units() * PRECISION >= mass * (PRECISION - n)
    &&& c.mag.units() <= 2 * mass
}

/// The arithmetic of one step of the sum and its compensation.
#[verifier::spinoff_prover]
#[verifier::rlimit(60)]
proof fn lemma_step_sum(
    mass: nat,
    height: nat,
    t: nat,
    n: nat,
    missing: int,
    rest: int,
    acc_t: nat,
    l: int,
    comp_l: nat,
    delta: int,
)
    requires
        n < MANY,
        size(missing) <= mass,
        1024 * (size(missing) * PRECISION) <= 1025 * (n * height),
        size(rest) <= mass,
        2048 * (size(rest) * PRECISION * PRECISION) <= 1030 * (n * (n + 1) * height),
        acc_t <= height + size(missing),
        size(l) <= t,
        size(l) * PRECISION <= acc_t,
        comp_l <= size(missing + l) + size(rest),
        size(delta) <= size(l),
        size(delta) * PRECISION <= comp_l,
    ensures
        size(missing + l) <= mass + t,
        1024 * (size(missing + l) * PRECISION) <= 1025 * ((n + 1) * height),
        size(rest + delta) <= mass + t,
        2048 * (size(rest + delta) * PRECISION * PRECISION) <= 1030 * ((n + 1) * (n + 2) * height),
{
    assert((n + 1) * height == n * height + height) by (nonlinear_arith);
    lemma_mul_inequality(n as int, MANY as int, height as int);
    // The sum is off by so little that each rounding is one of the height.
    assert(1024 * (size(l) * PRECISION) <= 1025 * height);
    // The compensation is of first order, so its own rounding is of second order.
    let k = (n + 1) * height;
    let z = n * (n + 1) * height;
    assert(z == n * k) by (nonlinear_arith)
        requires
            z == n * (n + 1) * height,
            k == (n + 1) * height,
    ;
    lemma_mul_inequality(n as int, MANY as int, k as int);
    assert(z <= MANY * k);
    assert(2048 * (size(rest) * PRECISION) <= k);
    assert(2048 * (comp_l * PRECISION) <= 2051 * k);
    assert(2048 * (size(delta) * PRECISION * PRECISION) <= 2051 * k);
    assert(n * k + 2 * k == (n + 1) * (n + 2) * height) by (nonlinear_arith)
        requires
            k == (n + 1) * height,
    ;
}

/// The arithmetic of one step of the mass.
proof fn lemma_step_mass(mass: nat, t: nat, n: nat, mag: nat, next: nat)
    requires
        n < MANY,
        mag * PRECISION >= mass * (PRECISION - n),
        size(mag + t - next) * PRECISION <= mag + t,
    ensures
        next * PRECISION >= (mass + t) * (PRECISION - (n + 1)),
{
    let x = (mag + t) as int;
    let m = (mass + t) as int;
    let k = PRECISION - n;
    assert(t * (PRECISION - n) <= t * PRECISION) by (nonlinear_arith);
    assert((mass + t) * (PRECISION - n) == mass * (PRECISION - n) + t * (PRECISION - n))
        by (nonlinear_arith);
    assert(x * PRECISION >= m * k);
    assert(next * PRECISION >= x * (PRECISION - 1));
    // `x * P * (P - 1) >= m * k * (P - 1) >= m * P * (k - 1)`.
    assert((x * PRECISION) * (PRECISION - 1) >= (m * k) * (PRECISION - 1)) by (nonlinear_arith)
        requires
            x * PRECISION >= m * k,
    ;
    assert((m * k) * (PRECISION - 1) >= (m * (k - 1)) * PRECISION) by (nonlinear_arith)
        requires
            m >= 0,
            k <= PRECISION,
    ;
    assert((next * PRECISION) * PRECISION >= (m * (k - 1)) * PRECISION);
    assert(next * PRECISION >= m * (k - 1));
}

/// The fold of every dimension tracks its exact sum and mass.
#[verifier::spinoff_prover]
#[verifier::rlimit(50)]
pub proof fn the_fold_tracks_the_exact_sum(
    weights: Seq<Binary64>,
    embeddings: Seq<Seq<Binary64>>,
    j: int,
    n: nat,
    height: nat,
)
    requires
        n <= MANY,
        moderate(weights, embeddings, j, n),
        stays_below(weights, embeddings, j, n, height),
    ensures
        tracks(
            column(weights, embeddings, j, n),
            exact_sum(weights, embeddings, j, n),
            exact_mass(weights, embeddings, j, n),
            height,
            n,
        ),
        exact_mass(weights, embeddings, j, n) <= n * pow2(2000),
    decreases n,
{
    assert(units64(0) == 0);
    if n == 0 {
        assert(0 * pow2(2000) == 0) by (nonlinear_arith);
        assert(0 * height == 0 && 0 * (0 + 1) * height == 0) by (nonlinear_arith);
    } else {
        let k = (n - 1) as nat;
        the_fold_tracks_the_exact_sum(weights, embeddings, j, k, height);
        let t = term(weights, embeddings, k as int, j);
        assert(t.is_finite() && t.units() <= pow2(2000));
        let mass = exact_mass(weights, embeddings, j, k);
        let p = pow2(2000);
        assert(k * p + p == n * p) by (nonlinear_arith)
            requires
                n == k + 1,
        ;
        lemma_mul_inequality(n as int, MANY as int, p as int);
        assert(size(exact_sum(weights, embeddings, j, n)) <= height);
        lemma_step(
            column(weights, embeddings, j, k),
            exact_sum(weights, embeddings, j, k),
            mass,
            height,
            k,
            t,
        );
    }
}

/// The exact sum of some windows is at most their mass, and what the windows after the first
/// `k` add to it is at most what they add to the mass.
proof fn lemma_sums_within_masses(
    weights: Seq<Binary64>,
    embeddings: Seq<Seq<Binary64>>,
    j: int,
    k: nat,
    n: nat,
)
    requires
        k <= n,
    ensures
        size(exact_sum(weights, embeddings, j, k)) <= exact_mass(weights, embeddings, j, k),
        size(exact_sum(weights, embeddings, j, n) - exact_sum(weights, embeddings, j, k))
            <= exact_mass(weights, embeddings, j, n) - exact_mass(weights, embeddings, j, k),
    decreases n,
{
    if n > k {
        lemma_sums_within_masses(weights, embeddings, j, k, (n - 1) as nat);
    } else if n > 0 {
        lemma_sums_within_masses(weights, embeddings, j, (n - 1) as nat, (n - 1) as nat);
    }
}

/// The exact sums on the way to a sum are at most its mass, and at most half of what its mass
/// and its own magnitude make together.
pub proof fn lemma_heights(
    weights: Seq<Binary64>,
    embeddings: Seq<Seq<Binary64>>,
    j: int,
    n: nat,
)
    ensures
        ({
            let mass = exact_mass(weights, embeddings, j, n);
            let total = size(exact_sum(weights, embeddings, j, n));
            &&& stays_below(weights, embeddings, j, n, mass)
            &&& stays_below(weights, embeddings, j, n, (mass + total) / 2)
        }),
{
    let mass = exact_mass(weights, embeddings, j, n);
    let total = size(exact_sum(weights, embeddings, j, n));
    assert forall|k: nat| k <= n implies {
        let s = size(#[trigger] exact_sum(weights, embeddings, j, k));
        s <= mass && s <= (mass + total) / 2
    } by {
        lemma_sums_within_masses(weights, embeddings, j, k, n);
    }
}

/// What one more term leaves out of the running sum and of the running compensation.
#[verifier::spinoff_prover]
#[verifier::rlimit(60)]
proof fn lemma_step_errors(
    c: Column<Binary64>,
    total: int,
    mass: nat,
    height: nat,
    n: nat,
    t: Binary64,
)
    requires
        n < MANY,
        tracks(c, total, mass, height, n),
        size(total + t.value()) <= height,
        t.is_finite(),
        mass + t.units() <= MANY * pow2(2000),
    ensures
        ({
            let u = t.units();
            let missing = total - c.acc.value();
            let rest = missing - c.comp.value();
            let l = c.acc.value() + t.value() - c.acc.plus(t).value();
            let next = c.comp.plus(lost(c.acc, t));
            let delta = c.comp.value() + l - next.value();
            &&& c.acc.plus(t).is_finite()
            &&& next.is_finite()
            &&& size(c.acc.value() + t.value()) <= height + size(missing)
            &&& size(l) <= u
            &&& size(l) * PRECISION <= size(c.acc.value() + t.value())
            &&& size(c.comp.value() + l) <= size(missing + l) + size(rest)
            &&& size(delta) <= size(l)
            &&& size(delta) * PRECISION <= size(c.comp.value() + l)
        }),
{
    let u = t.units();
    let missing = total - c.acc.value();
    let rest = missing - c.comp.value();
    lemma_room(mass + u);
    lemma_sum_error(c.acc, t);
    laws::compensation_is_exact(c.acc, t);
    let lost_t = lost(c.acc, t);
    let l = lost_t.value();
    assert(l == c.acc.value() + t.value() - c.acc.plus(t).value());
    assert(size(c.comp.value() + l) <= pow2(2097));
    lemma_sum_error(c.comp, lost_t);
    assert(lost_t.units() == size(l));
}

/// One more term on the running mass.
proof fn lemma_step_magnitude(mag: Binary64, mass: nat, n: nat, t: Binary64)
    requires
        n < MANY,
        mag.is_finite(),
        !mag.negative(),
        mag.units() * PRECISION >= mass * (PRECISION - n),
        mag.units() <= 2 * mass,
        t.is_finite(),
        mass + t.units() <= MANY * pow2(2000),
    ensures
        ({
            let next = mag.plus(t.absolute());
            &&& next.is_finite()
            &&& !next.negative()
            &&& next.units() * PRECISION >= (mass + t.units()) * (PRECISION - (n + 1))
            &&& next.units() <= 2 * (mass + t.units())
        }),
{
    let w = t.absolute();
    lemma_room(mass + t.units());
    exact::lemma_signed_value(false, t.magnitude() as nat);
    lemma_sum_error(mag, w);
    exact::lemma_sum_value(mag, w);
    let next = mag.plus(w);
    assert(!next.negative()) by {
        if mag.value() + w.value() == 0 {
            exact::lemma_signed_value(false, 0);
        }
    }
    lemma_step_mass(mass, t.units(), n, mag.units(), next.units());
}

/// One more term keeps the fold on track.
#[verifier::spinoff_prover]
proof fn lemma_step(
    c: Column<Binary64>,
    total: int,
    mass: nat,
    height: nat,
    n: nat,
    t: Binary64,
)
    requires
        n < MANY,
        tracks(c, total, mass, height, n),
        size(total + t.value()) <= height,
        t.is_finite(),
        mass + t.units() <= MANY * pow2(2000),
    ensures
        tracks(c.step(t), total + t.value(), mass + t.units(), height, n + 1),
{
    let u = t.units();
    let missing = total - c.acc.value();
    let rest = missing - c.comp.value();
    let l = c.acc.value() + t.value() - c.acc.plus(t).value();
    let next = c.comp.plus(lost(c.acc, t));
    let delta = c.comp.value() + l - next.value();
    lemma_step_errors(c, total, mass, height, n, t);
    lemma_step_sum(
        mass,
        height,
        u,
        n,
        missing,
        rest,
        size(c.acc.value() + t.value()),
        l,
        size(c.comp.value() + l),
        delta,
    );
    lemma_step_magnitude(c.mag, mass, n, t);
    assert(c.step(t) == (Column {
        acc: c.acc.plus(t),
        comp: next,
        mag: c.mag.plus(t.absolute()),
    }));
    assert(total + t.value() - c.acc.plus(t).value() == missing + l);
    assert(missing + l - next.value() == rest + delta);
}

/// A few times the mass of many moderate terms is far from overflow.
proof fn lemma_room(m: nat)
    requires
        m <= MANY * pow2(2000),
    ensures
        2 * m <= pow2(2031),
        8 * m <= pow2(2033) < pow2(2097),
{
    vstd::arithmetic::power2::lemma2_to64();
    lemma_pow2_adds(30, 2000);
    lemma_pow2_adds(1, 2030);
    lemma_pow2_adds(3, 2030);
    lemma_pow2_strictly_increases(2033, 2097);
}

/// What the fold of the terms of a dimension leaves out of their exact sum: the rest that the
/// compensation misses, and one rounding.
proof fn lemma_rest(
    weights: Seq<Binary64>,
    embeddings: Seq<Seq<Binary64>>,
    dim: nat,
    j: int,
    height: nat,
) -> (rest: nat)
    requires
        embeddings.len() <= MANY,
        0 <= j < dim,
        moderate(weights, embeddings, j, embeddings.len()),
        stays_below(weights, embeddings, j, embeddings.len(), height),
    ensures
        ({
            let n = embeddings.len();
            let r = weighted_sum(weights, embeddings, dim)[j];
            let total = exact_sum(weights, embeddings, j, n);
            &&& r.is_finite()
            &&& rest <= exact_mass(weights, embeddings, j, n)
            &&& 2048 * (rest * PRECISION * PRECISION) <= 1030 * (n * (n + 1) * height)
            &&& size(r.value() - total) * PRECISION <= rest * PRECISION + size(total) + rest
        }),
{
    let n = embeddings.len();
    the_fold_tracks_the_exact_sum(weights, embeddings, j, n, height);
    let c = column(weights, embeddings, j, n);
    let total = exact_sum(weights, embeddings, j, n);
    let mass = exact_mass(weights, embeddings, j, n);
    lemma_mul_inequality(n as int, MANY as int, pow2(2000) as int);
    lemma_room(mass);
    let rest = total - c.acc.value() - c.comp.value();
    lemma_sum_error(c.acc, c.comp);
    assert(weighted_sum(weights, embeddings, dim)[j] == c.acc.plus(c.comp));
    size(rest)
}

/// The fold of the terms of a dimension: within `5.625` half units of roundoff of the mass
/// of their exact sum.
proof fn lemma_terms(weights: Seq<Binary64>, embeddings: Seq<Seq<Binary64>>, dim: nat, j: int)
    requires
        embeddings.len() <= FEW,
        0 <= j < dim,
        moderate(weights, embeddings, j, embeddings.len()),
    ensures
        ({
            let n = embeddings.len();
            let r = weighted_sum(weights, embeddings, dim)[j];
            let m = exact_mass(weights, embeddings, j, n);
            &&& r.is_finite()
            &&& 8 * (size(r.value() - exact_sum(weights, embeddings, j, n)) * PRECISION) <= 45 * m
        }),
{
    let n = embeddings.len();
    let mass = exact_mass(weights, embeddings, j, n);
    lemma_heights(weights, embeddings, j, n);
    lemma_sums_within_masses(weights, embeddings, j, n, n);
    let rest = lemma_rest(weights, embeddings, dim, j, mass);
    assert(n * (n + 1) <= FEW * (FEW + 1)) by (nonlinear_arith)
        requires
            n <= FEW,
    ;
    lemma_mul_inequality((n * (n + 1)) as int, FEW * (FEW + 1), mass as int);
    assert(FEW * (FEW + 1) == 0x100_0000_1000_0000);
    assert(2048 * (rest * PRECISION * PRECISION) <= 1030 * (0x100_0000_1000_0000 * mass));
}

/// The fold of many terms of a dimension, against their exact sum: within `28` half units of
/// roundoff of their mass, and a few of the sum itself, as the sums on the way to a small sum
/// are at most half of its mass.
proof fn lemma_balanced_terms(
    weights: Seq<Binary64>,
    embeddings: Seq<Seq<Binary64>>,
    dim: nat,
    j: int,
)
    requires
        embeddings.len() <= MANY,
        0 <= j < dim,
        moderate(weights, embeddings, j, embeddings.len()),
    ensures
        ({
            let n = embeddings.len();
            let r = weighted_sum(weights, embeddings, dim)[j];
            let total = exact_sum(weights, embeddings, j, n);
            let m = exact_mass(weights, embeddings, j, n);
            &&& r.is_finite()
            &&& size(r.value() - total) * PRECISION <= 28 * m + 29 * size(total)
        }),
{
    let n = embeddings.len();
    let mass = exact_mass(weights, embeddings, j, n);
    let total = size(exact_sum(weights, embeddings, j, n));
    let height = (mass + total) / 2;
    lemma_heights(weights, embeddings, j, n);
    let rest = lemma_rest(weights, embeddings, dim, j, height);
    assert(n * (n + 1) <= MANY * (MANY + 1)) by (nonlinear_arith)
        requires
            n <= MANY,
    ;
    lemma_mul_inequality((n * (n + 1)) as int, MANY * (MANY + 1), height as int);
    assert(MANY * (MANY + 1) == 1_000_000_001_000_000_000);
    assert(2048 * (rest * PRECISION * PRECISION) <= 1030 * (1_000_000_001_000_000_000 * height));
}

/// The exact sum, over the first `n` windows, of the components times given weights.
pub open spec fn ideal_sum(
    ideal: Seq<nat>,
    embeddings: Seq<Seq<Binary64>>,
    j: int,
    n: nat,
) -> int
    decreases n,
{
    if n == 0 {
        0
    } else {
        ideal_sum(ideal, embeddings, j, (n - 1) as nat) + ideal[n - 1] * embeddings[n - 1][j].value()
    }
}

/// Whether a weight is the ratio `ideal / denominator` rounded once: off by at most one part
/// in `2^53 - 1` of it.
pub open spec fn rounds_ideal(w: Binary64, ideal: nat, denominator: nat) -> bool {
    &&& w.is_finite()
    &&& w.negative() ==> w.units() == 0
    &&& size(w.units() * denominator - ideal * pow2(1074)) * (PRECISION - 1) <= ideal * pow2(
        1074,
    )
}

/// Whether every weight is its ideal, over a common denominator, rounded once.
pub open spec fn round_ideals(weights: Seq<Binary64>, ideal: Seq<nat>, denominator: nat) -> bool {
    &&& denominator > 0
    &&& weights.len() == ideal.len()
    &&& forall|i: int|
        0 <= i < weights.len() ==> #[trigger] rounds_ideal(weights[i], ideal[i], denominator)
}

/// The arithmetic of the error of a term: that of its product, and that of its weight.
pub(crate) proof fn lemma_term_arithmetic(
    t: nat,
    w: nat,
    x: nat,
    ideal: nat,
    den: nat,
    unit: nat,
)
    requires
        unit > 0,
        t >= HIDDEN64 ==> size(t * unit - w * x) * PRECISION <= t * unit,
        t < HIDDEN64 ==> 2 * size(t * unit - w * x) <= unit,
        size(w * den - ideal * unit) * (PRECISION - 1) <= ideal * unit,
    ensures
        16 * (size(t * den - ideal * x) * PRECISION) <= den * (33 * t + 16 * PRECISION),
{
    let d = t * unit - w * x;
    let f = w * den - ideal * unit;
    let e = t * den - ideal * x;
    assert((t * den - ideal * x) * unit == (t * unit - w * x) * den + x * (w * den - ideal * unit))
        by (nonlinear_arith);
    let (ds, fs, es) = (size(d), size(f), size(e));
    // Sizes in place of signed numbers.
    let (a, b, c) = (ds * den, x * fs, es * unit);
    assert(size(d * den) == a && size(x * f) == b && size(e * unit) == c) by {
        lemma_size_times(d, den);
        lemma_size_times(f, x);
        assert(x * f == f * x && x * fs == fs * x) by (nonlinear_arith);
        lemma_size_times(e, unit);
    }
    assert(c <= a + b);
    // The weight's error, against the weight itself.
    let p = PRECISION as nat;
    assert(fs * (p - 1) == fs * (p - 2) + fs) by (nonlinear_arith);
    assert(fs * (p - 2) <= w * den);
    assert(x * (fs * (p - 2)) <= x * (w * den)) by (nonlinear_arith)
        requires
            fs * (p - 2) <= w * den,
    ;
    assert(x * (fs * (p - 2)) == (x * fs) * (p - 2)) by (nonlinear_arith);
    assert(x * (w * den) == (w * x) * den) by (nonlinear_arith);
    let tu = t * unit;
    let wx = w * x;
    assert(wx * den <= (tu + ds) * den) by (nonlinear_arith)
        requires
            wx <= tu + ds,
    ;
    assert((tu + ds) * den == tu * den + ds * den) by (nonlinear_arith);
    let g = tu * den;
    assert(b * (p - 2) <= g + a);
    // The product's error.
    assert(2 * (ds * p) <= 2 * tu + p * unit);
    assert((2 * (ds * p)) * den <= (2 * tu + p * unit) * den) by (nonlinear_arith)
        requires
            2 * (ds * p) <= 2 * tu + p * unit,
    ;
    assert((2 * (ds * p)) * den == 2 * ((ds * den) * p)) by (nonlinear_arith);
    assert((2 * tu + p * unit) * den == 2 * (tu * den) + p * (unit * den)) by (nonlinear_arith);
    let h = unit * den;
    assert(2 * (a * p) <= 2 * g + p * h);
    assert(2 * (c * (p - 2)) <= 4 * g + p * h) by {
        assert(c * (p - 2) <= (a + b) * (p - 2)) by (nonlinear_arith)
            requires
                c <= a + b,
                p >= 2,
        ;
        assert((a + b) * (p - 2) == a * (p - 2) + b * (p - 2)) by (nonlinear_arith);
    }
    assert(16 * (c * p) <= 33 * g + 16 * (p * h));
    // Divided by the unit again.
    assert(16 * (c * p) == (16 * (es * p)) * unit) by (nonlinear_arith)
        requires
            c == es * unit,
    ;
    let goal = den * (33 * t + 16 * p);
    assert(33 * g + 16 * (p * h) == goal * unit) by (nonlinear_arith)
        requires
            g == (t * unit) * den,
            h == unit * den,
            goal == den * (33 * t + 16 * p),
    ;
    vstd::arithmetic::mul::lemma_mul_inequality_converse(
        (16 * (es * p)) as int,
        goal as int,
        unit as int,
    );
}

/// The error of a term against its ideal.
proof fn lemma_term(w: Binary64, x: Binary64, ideal: nat, denominator: nat)
    requires
        x.is_finite(),
        rounds_ideal(w, ideal, denominator),
        w.units() * x.units() <= pow2(2097) * pow2(1074),
    ensures
        16 * (size(w.times(x).value() * denominator - ideal * x.value()) * PRECISION)
            <= denominator * (33 * w.times(x).units() + 16 * PRECISION),
{
    let t = w.times(x);
    let unit = pow2(1074);
    lemma_pow2_pos(1074);
    roundoff::lemma_product_error(w, x);
    lemma_term_arithmetic(t.units(), w.units(), x.units(), ideal, denominator, unit);
    let (a, b) = (t.units(), ideal * x.units());
    if w.negative() {
        // Both the weight and its ideal are zero.
        assert(0 * denominator == 0 && 0 * x.units() == 0) by (nonlinear_arith);
        assert(ideal * unit == 0);
        assert(ideal == 0) by {
            if ideal > 0 {
                vstd::arithmetic::mul::lemma_mul_strictly_positive(ideal as int, unit as int);
            }
        }
        assert(0 * x.value() == 0) by (nonlinear_arith);
        assert(2 * size(a * unit - 0) <= unit);
        assert(a == 0) by {
            if a > 0 {
                lemma_mul_inequality(1, a as int, unit as int);
            }
        }
    } else {
        let (y, z) = (x.units() as int, denominator as int);
        assert(ideal * (-y) == -(ideal * y)) by (nonlinear_arith);
        assert((-(a as int)) * z == -(a * z)) by (nonlinear_arith);
    }
}

/// The sum of the terms of the first `n` windows against the sum of their ideals.
proof fn lemma_ideal_sum(
    weights: Seq<Binary64>,
    ideal: Seq<nat>,
    denominator: nat,
    embeddings: Seq<Seq<Binary64>>,
    j: int,
    n: nat,
)
    requires
        n <= embeddings.len() == weights.len(),
        round_ideals(weights, ideal, denominator),
        tame(weights, embeddings, j),
    ensures
        16 * (size(
            exact_sum(weights, embeddings, j, n) * denominator - ideal_sum(ideal, embeddings, j, n),
        ) * PRECISION) <= denominator * (33 * exact_mass(weights, embeddings, j, n) + 16 * (n
            * PRECISION)),
    decreases n,
{
    if n == 0 {
        assert(0 * denominator == 0 && denominator * 0 == 0) by (nonlinear_arith);
    } else {
        let k = (n - 1) as nat;
        lemma_ideal_sum(weights, ideal, denominator, embeddings, j, k);
        let (w, x) = (weights[n - 1], embeddings[n - 1][j]);
        assert(rounds_ideal(weights[n - 1], ideal[n - 1], denominator));
        assert(embeddings[n - 1][j].is_finite());
        lemma_pow2_strictly_increases(2000, 2097);
        lemma_mul_inequality(pow2(2000) as int, pow2(2097) as int, pow2(1074) as int);
        lemma_term(w, x, ideal[n - 1], denominator);
        let t = term(weights, embeddings, n - 1, j);
        let (s, m) = (
            exact_sum(weights, embeddings, j, k),
            exact_mass(weights, embeddings, j, k),
        );
        assert((s + t.value()) * denominator == s * denominator + t.value() * denominator)
            by (nonlinear_arith);
        let p = PRECISION as nat;
        assert(denominator * (33 * (m + t.units()) + 16 * (n * p)) == denominator * (33 * m + 16
            * (k * p)) + denominator * (33 * t.units() + 16 * p)) by (nonlinear_arith)
            requires
                n == k + 1,
        ;
    }
}

/// The fold is accurate: in every dimension it is within four units of roundoff of the mass
/// of its terms, and one least positive number for each window, of the exact weighted sum of
/// the components, where each weight is its ideal rounded once.
pub proof fn the_fold_is_accurate(
    weights: Seq<Binary64>,
    ideal: Seq<nat>,
    denominator: nat,
    embeddings: Seq<Seq<Binary64>>,
    dim: nat,
    j: int,
)
    requires
        embeddings.len() == weights.len() <= FEW,
        0 <= j < dim,
        round_ideals(weights, ideal, denominator),
        tame(weights, embeddings, j),
    ensures
        ({
            let n = embeddings.len();
            let r = weighted_sum(weights, embeddings, dim)[j];
            let m = exact_mass(weights, embeddings, j, n);
            &&& r.is_finite()
            &&& size(r.value() * denominator - ideal_sum(ideal, embeddings, j, n)) * PRECISION
                <= denominator * (8 * m + n * PRECISION)
        }),
{
    let n = embeddings.len();
    lemma_tame(weights, embeddings, j);
    lemma_terms(weights, embeddings, dim, j);
    lemma_ideal_sum(weights, ideal, denominator, embeddings, j, n);
    let r = weighted_sum(weights, embeddings, dim)[j].value();
    let s = exact_sum(weights, embeddings, j, n);
    let m = exact_mass(weights, embeddings, j, n);
    let p = PRECISION as nat;
    let d = size(r - s);
    assert((r - s) * denominator == r * denominator - s * denominator) by (nonlinear_arith);
    lemma_size_times(r - s, denominator);
    assert((8 * (d * p)) * denominator <= (45 * m) * denominator) by (nonlinear_arith)
        requires
            8 * (d * p) <= 45 * m,
    ;
    assert((8 * (d * p)) * denominator == 8 * ((d * denominator) * p)) by (nonlinear_arith);
    assert((45 * m) * denominator == 45 * (denominator * m)) by (nonlinear_arith);
    assert(denominator * (33 * m + 16 * (n * p)) == 33 * (denominator * m) + 16 * (denominator * (n
        * p))) by (nonlinear_arith);
    assert(denominator * (8 * m + n * p) == 8 * (denominator * m) + denominator * (n * p))
        by (nonlinear_arith);
}

/// The fold of many windows, against the exact weighted sum of the components: within `30.2`
/// half units of roundoff of the computed mass, one least positive number for each window and
/// one more, and a few half units of the sum itself.
pub proof fn lemma_fold_error(
    weights: Seq<Binary64>,
    ideal: Seq<nat>,
    denominator: nat,
    embeddings: Seq<Seq<Binary64>>,
    dim: nat,
    j: int,
)
    requires
        embeddings.len() == weights.len() <= MANY,
        0 <= j < dim,
        round_ideals(weights, ideal, denominator),
        tame(weights, embeddings, j),
    ensures
        ({
            let n = embeddings.len();
            let r = weighted_sum(weights, embeddings, dim)[j];
            let mag = masses(weights, embeddings, dim)[j];
            let x = ideal_sum(ideal, embeddings, j, n);
            &&& r.is_finite()
            &&& 16 * (size(r.value() * denominator - x) * PRECISION) <= denominator * (483
                * mag.units() + 16 * ((n + 1) * PRECISION)) + 464 * size(x)
        }),
{
    let n = embeddings.len();
    lemma_tame(weights, embeddings, j);
    lemma_balanced_terms(weights, embeddings, dim, j);
    lemma_ideal_sum(weights, ideal, denominator, embeddings, j, n);
    the_mass_is_accurate(weights, embeddings, dim, j);
    let mag = masses(weights, embeddings, dim)[j].units();
    lemma_balanced_arithmetic(
        weighted_sum(weights, embeddings, dim)[j].value(),
        exact_sum(weights, embeddings, j, n),
        ideal_sum(ideal, embeddings, j, n),
        denominator,
        exact_mass(weights, embeddings, j, n),
        mag,
        n,
    );
}

/// The arithmetic of the error of the fold of many windows.
proof fn lemma_balanced_arithmetic(r: int, s: int, x: int, den: nat, m: nat, mag: nat, n: nat)
    requires
        n <= MANY,
        size(r - s) * PRECISION <= 28 * m + 29 * size(s),
        16 * (size(s * den - x) * PRECISION) <= den * (33 * m + 16 * (n * PRECISION)),
        mag * PRECISION >= m * (PRECISION - n),
    ensures
        16 * (size(r * den - x) * PRECISION) <= den * (483 * mag + 16 * ((n + 1) * PRECISION))
            + 464 * size(x),
{
    let p = PRECISION as nat;
    let (a, b) = (size(r - s), size(s));
    assert((r - s) * den == r * den - s * den) by (nonlinear_arith);
    lemma_size_times(r - s, den);
    lemma_size_times(s, den);
    let (ad, bd, dm, dn) = (a * den, b * den, den * m, den * n);
    let dp = den * p;
    assert(ad * p <= 28 * dm + 29 * bd) by (nonlinear_arith)
        requires
            a * p <= 28 * m + 29 * b,
            ad == a * den,
            bd == b * den,
            dm == den * m,
    ;
    assert(den * (33 * m + 16 * (n * p)) == 33 * dm + 16 * (dn * p)) by (nonlinear_arith)
        requires
            dm == den * m,
            dn == den * n,
    ;
    // What the mass lacks is next to nothing.
    assert(m * (p - n) >= m * (p - MANY)) by (nonlinear_arith)
        requires
            n <= MANY,
    ;
    let e = size(s * den - x);
    assert(16 * (e * p) <= 33 * dm + 16 * (dn * p));
    assert(bd <= size(x) + e);
    assert(dn <= MANY * den) by (nonlinear_arith)
        requires
            n <= MANY,
            dn == den * n,
    ;
    assert(16 * (size(r * den - x) * p) <= 481 * dm + dm / 2 + 16 * (dn * p) + 16 * dp + 464 * size(
        x,
    ));
    let dg = den * mag;
    assert(481 * dm + dm / 2 <= 483 * dg) by {
        assert(963 * m <= 966 * mag);
        assert(963 * (den * m) <= 966 * (den * mag)) by (nonlinear_arith)
            requires
                963 * m <= 966 * mag,
        ;
    }
    assert(den * (483 * mag + 16 * ((n + 1) * p)) == 483 * dg + 16 * (dn * p) + 16 * dp)
        by (nonlinear_arith)
        requires
            dg == den * mag,
            dn == den * n,
            dp == den * p,
    ;
}

/// The mass of a dimension as the fold adds it up.
pub proof fn the_mass_is_accurate(
    weights: Seq<Binary64>,
    embeddings: Seq<Seq<Binary64>>,
    dim: nat,
    j: int,
)
    requires
        embeddings.len() <= MANY,
        0 <= j < dim,
        tame(weights, embeddings, j),
    ensures
        ({
            let mag = masses(weights, embeddings, dim)[j];
            let m = exact_mass(weights, embeddings, j, embeddings.len());
            &&& mag.is_finite()
            &&& !mag.negative()
            &&& mag.units() <= pow2(2031)
            &&& 16 * m <= 17 * mag.units()
            &&& mag.units() <= 2 * m
            &&& mag.units() * PRECISION >= m * (PRECISION - embeddings.len())
        }),
{
    let n = embeddings.len();
    lemma_tame(weights, embeddings, j);
    let m = exact_mass(weights, embeddings, j, n);
    lemma_heights(weights, embeddings, j, n);
    the_fold_tracks_the_exact_sum(weights, embeddings, j, n, m);
    let c = column(weights, embeddings, j, n);
    lemma_mul_inequality(n as int, MANY as int, pow2(2000) as int);
    lemma_room(m);
    assert(masses(weights, embeddings, dim)[j] == c.mag);
    assert(m * (PRECISION - n) >= m * (PRECISION - MANY)) by (nonlinear_arith)
        requires
            n <= MANY,
    ;
}

/// The fold of a dimension is far from overflow.
pub proof fn the_fold_is_moderate(
    weights: Seq<Binary64>,
    embeddings: Seq<Seq<Binary64>>,
    dim: nat,
    j: int,
)
    requires
        embeddings.len() <= MANY,
        0 <= j < dim,
        tame(weights, embeddings, j),
    ensures
        weighted_sum(weights, embeddings, dim)[j].is_finite(),
        weighted_sum(weights, embeddings, dim)[j].units() <= pow2(2060),
{
    let n = embeddings.len();
    lemma_tame(weights, embeddings, j);
    let m = exact_mass(weights, embeddings, j, n);
    lemma_heights(weights, embeddings, j, n);
    the_fold_tracks_the_exact_sum(weights, embeddings, j, n, m);
    lemma_balanced_terms(weights, embeddings, dim, j);
    lemma_sums_within_masses(weights, embeddings, j, n, n);
    lemma_mul_inequality(n as int, MANY as int, pow2(2000) as int);
    lemma_room(m);
    lemma_pow2_strictly_increases(2033, 2060);
}

} // verus!
