//! Which windows are never refused: those whose exact sum is clearly not zero.
use vstd::arithmetic::mul::{
    lemma_mul_inequality, lemma_mul_inequality_converse, lemma_mul_upper_bound,
};
use vstd::arithmetic::power2::{
    lemma_pow2_adds, lemma_pow2_pos, lemma_pow2_strictly_increases, pow2,
};
use vstd::prelude::*;

use crate::aggregate::accuracy::{
    self, exact_mass, ideal_sum, round_ideals, rounds_ideal, tame, FEW,
};
use crate::aggregate::bounds::{self, energy, WIDE};
use crate::aggregate::cancellation::{self, floor, own_threshold, relative_part};
use crate::aggregate::domain::input_error;
use crate::aggregate::fold::{folded, masses, threshold, weighted_sum};
use crate::aggregate::heading::{self, ideal_mass};
use crate::aggregate::laws::{self, zero};
use crate::aggregate::length;
use crate::aggregate::norm::{largest, norm};
use crate::aggregate::policy::{
    coverage_weights, lift, saliency_weights, uniform_weights, AggregatePolicy,
    CoverageWeightedMean, MeanRenormalized, SaliencyWeighted,
};
use crate::aggregate::ratios;
use crate::aggregate::refusal::{self, lifted_shares, ones, saliencies, shares};
use crate::aggregate::vector;
use crate::arith::nearest;
use crate::binary::Binary64;
use crate::close::lemma_size_times;
use crate::error::WinditError;
use crate::exact::{self, size};
use crate::rounding::units64;
use crate::roundoff::{self, PRECISION};
use crate::scalar::Real;
use crate::triangle::{self, square_sum};

verus! {

/// The masses of all dimensions.
pub open spec fn ideal_masses(
    ideal: Seq<nat>,
    embeddings: Seq<Seq<Binary64>>,
    dim: nat,
) -> Seq<int> {
    Seq::new(dim, |j: int| ideal_mass(ideal, embeddings, j, embeddings.len()) as int)
}

/// A square is at most another one only where the number is.
proof fn lemma_root_order(x: nat, y: nat)
    requires
        x * x <= y * y,
    ensures
        x <= y,
{
    if x > y {
        lemma_mul_upper_bound((y + 1) as int, x as int, (y + 1) as int, x as int);
        assert((y + 1) * (y + 1) == y * y + 2 * y + 1) by (nonlinear_arith);
    }
}

/// A component is no longer than its vector.
proof fn lemma_component_within(v: Seq<int>, j: int)
    requires
        0 <= j < v.len(),
    ensures
        v[j] * v[j] <= square_sum(v),
    decreases v.len(),
{
    let rest = v.drop_last();
    triangle::square_sums_are_not_negative(rest);
    let x = v.last();
    assert(x * x >= 0) by (nonlinear_arith);
    if j < rest.len() {
        lemma_component_within(rest, j);
        assert(rest[j] == v[j]);
    }
}

/// The arithmetic of the part of the threshold that is relative to the mass, from above.
proof fn lemma_relative_ceiling(q: nat, c: nat, s: nat, t: nat)
    requires
        s > 0,
        t == s * 0x1_0000_0000_0000,
        size(q * t - s * c) * PRECISION <= 2 * (s * c) + PRECISION * t,
    ensures
        q * PRECISION <= 33 * c + PRECISION,
{
    let p = PRECISION as nat;
    let x: nat = q * 0x1_0000_0000_0000;
    assert(q * t == x * s && s * c == c * s && p * t == (p * 0x1_0000_0000_0000) * s)
        by (nonlinear_arith)
        requires
            t == s * 0x1_0000_0000_0000,
            x == q * 0x1_0000_0000_0000,
    ;
    let (xs, cs): (nat, nat) = (x * s, c * s);
    assert((xs - cs) * p <= 2 * cs + (p * 0x1_0000_0000_0000) * s);
    let (l, r) = ((x - c) * p - 2 * c, p * 0x1_0000_0000_0000);
    assert(l * s == (xs - cs) * p - 2 * cs) by (nonlinear_arith)
        requires
            l == (x - c) * p - 2 * c,
            xs == x * s,
            cs == c * s,
    ;
    lemma_mul_inequality_converse(l, r as int, s as int);
    assert((x - c) * p - 2 * c <= p * 0x1_0000_0000_0000);
}

/// A sum of two nonnegative numbers, from above.
pub(crate) proof fn lemma_sum_ceiling(x: Binary64, y: Binary64)
    requires
        x.is_finite(),
        y.is_finite(),
        !x.negative(),
        !y.negative(),
        x.units() + y.units() <= pow2(2097),
    ensures
        x.plus(y).is_finite(),
        !x.plus(y).negative(),
        x.plus(y).units() * PRECISION <= (x.units() + y.units()) * (PRECISION + 1),
{
    roundoff::lemma_sum_error(x, y);
    cancellation::lemma_sum_grows(x, y);
}

/// What the threshold is at most: thirty-five half units of roundoff of the norm of the mass,
/// three times the floor, and twice what the policy owes.
#[verifier::spinoff_prover]
#[verifier::rlimit(40)]
pub proof fn thresholds_are_small(mass: Seq<Binary64>, slack: Binary64)
    requires
        norm(mass).is_finite(),
        !norm(mass).negative(),
        norm(mass).units() <= pow2(2090),
        slack.is_finite(),
        !slack.negative(),
        slack.units() <= pow2(2090),
    ensures
        threshold(mass, slack).is_finite(),
        !threshold(mass, slack).negative(),
        threshold(mass, slack).units() * PRECISION <= 35 * norm(mass).units() + 3 * (PRECISION
            * pow2(74)) + 2 * (PRECISION * slack.units()),
{
    laws::lemma_sixteen_epsilon();
    cancellation::lemma_floor();
    cancellation::lemma_own_threshold(mass);
    let (c, t, s, f, p) = (
        norm(mass).units(),
        pow2(1074),
        pow2(1026),
        pow2(74),
        PRECISION as nat,
    );
    let y = relative_part(mass);
    lemma_pow2_pos(1074);
    lemma_pow2_pos(1026);
    let a = s * c;
    lemma_mul_inequality(c as int, pow2(2090) as int, s as int);
    assert(a == c * s) by (nonlinear_arith)
        requires
            a == s * c,
    ;
    lemma_pow2_adds(2090, 1026);
    lemma_pow2_adds(2091, 1074);
    lemma_pow2_strictly_increases(3116, 3165);
    roundoff::lemma_power_value(2091);
    let big = pow2(2091);
    assert((big * t) * 1 == big * t) by (nonlinear_arith);
    exact::nearest_depends_on_the_ratio(big * t, t, big, 1);
    exact::rounding_is_monotone(a, big * t, t);
    exact::lemma_order(nearest(a, t), nearest(big, 1));
    exact::lemma_order(nearest(big, 1), nearest(a, t));
    exact::lemma_signed_value(false, nearest(a, t));
    bounds::lemma_ratio_error(a, t);
    let q = y.units();
    vstd::arithmetic::power2::lemma2_to64();
    vstd::arithmetic::power2::lemma2_to64_rest();
    lemma_pow2_adds(1026, 48);
    lemma_relative_ceiling(q, c, s, t);
    // The floor on top, and what the policy owes.
    lemma_pow2_strictly_increases(74, 2091);
    vstd::arithmetic::power2::lemma_pow2_unfold(2092);
    vstd::arithmetic::power2::lemma_pow2_unfold(2093);
    lemma_pow2_strictly_increases(2090, 2092);
    lemma_pow2_strictly_increases(2092, 2097);
    lemma_pow2_strictly_increases(2093, 2097);
    lemma_sum_ceiling(y, floor());
    let own = own_threshold(mass);
    lemma_sum_ceiling(own, slack);
    assert(threshold(mass, slack) == own.plus(slack));
    lemma_pow2_strictly_increases(1, 74);
    lemma_threshold_arithmetic(
        q,
        c,
        f,
        own.units(),
        slack.units(),
        threshold(mass, slack).units(),
    );
}

/// The arithmetic of the threshold, from above.
proof fn lemma_threshold_arithmetic(q: nat, c: nat, f: nat, own: nat, slack: nat, tau: nat)
    requires
        f >= 2,
        q * PRECISION <= 33 * c + PRECISION,
        own * PRECISION <= (q + f) * (PRECISION + 1),
        tau * PRECISION <= (own + slack) * (PRECISION + 1),
    ensures
        tau * PRECISION <= 35 * c + 3 * (PRECISION * f) + 2 * (PRECISION * slack),
{
    assert(q <= c + 1);
    assert((q + f) * (PRECISION + 1) == q * PRECISION + q + f * PRECISION + f) by (nonlinear_arith);
    assert((own + slack) * (PRECISION + 1) == own * PRECISION + own + slack * PRECISION + slack)
        by (nonlinear_arith);
    assert(own * PRECISION <= 34 * c + PRECISION + f * PRECISION + f + 1);
    assert(own <= c + 2 * f + 2);
}

/// The norm of the masses, against the exact ones.
#[verifier::spinoff_prover]
#[verifier::rlimit(40)]
proof fn lemma_norm_of_masses(
    weights: Seq<Binary64>,
    ideal: Seq<nat>,
    denominator: nat,
    embeddings: Seq<Seq<Binary64>>,
    dim: nat,
    bound: nat,
)
    requires
        embeddings.len() == weights.len() <= FEW,
        dim <= WIDE,
        round_ideals(weights, ideal, denominator),
        forall|j: int| 0 <= j < dim ==> #[trigger] tame(weights, embeddings, j),
        square_sum(ideal_masses(ideal, embeddings, dim)) <= bound * bound,
    ensures
        ({
            let c = norm(masses(weights, embeddings, dim));
            let room = bound + (embeddings.len() * denominator) * 0x1_0000;
            &&& c.is_finite()
            &&& !c.negative()
            &&& c.units() <= pow2(2090)
            &&& 4 * (c.units() * denominator) <= 10 * room + 4 * (pow2(57) * denominator)
        }),
{
    let n = embeddings.len();
    let mass = masses(weights, embeddings, dim);
    let nd: nat = n * denominator;
    let room: nat = bound + nd * 0x1_0000;
    let exact = ideal_masses(ideal, embeddings, dim);
    let units = Seq::new(mass.len(), |j: int| mass[j].units() as int);
    let x = Seq::new(units.len(), |j: int| (4 * denominator) * units[j]);
    let y = Seq::new(exact.len(), |j: int| 9 * exact[j]);
    let z = Seq::new(dim, |j: int| (9 * nd) as int);
    let yz = triangle::combined(y, z, 1, 1);
    assert forall|j: int| 0 <= j < dim implies (#[trigger] mass[j]).is_finite() && mass[j].units()
        <= pow2(2031) && size(x[j]) <= yz[j] by {
        assert(tame(weights, embeddings, j));
        accuracy::the_mass_is_accurate(weights, embeddings, dim, j);
        heading::lemma_mass_of_terms(weights, ideal, denominator, embeddings, j, n);
        lemma_mass_component(
            exact_mass(weights, embeddings, j, n),
            ideal_mass(ideal, embeddings, j, n),
            mass[j].units(),
            denominator,
            n,
        );
        assert(yz[j] == 1 * y[j] + 1 * z[j]);
    }
    assert forall|j: int| 0 <= j < x.len() implies size(#[trigger] x[j]) <= yz[j] by {
        assert(mass[j].is_finite());
    }
    vector::lemma_no_longer(x, yz);
    triangle::lengths_scale(exact, 9);
    triangle::lengths_scale(units, (4 * denominator) as int);
    cancellation::lemma_unit_squares(mass);
    vector::lemma_equal_components(9 * nd, dim, 0x1_0000);
    let (e, ss) = (energy(mass), square_sum(exact));
    lemma_mul_inequality(ss, (bound * bound) as int, 81);
    assert(9 * 9 * ss <= (9 * bound) * (9 * bound)) by {
        assert((9 * bound) * (9 * bound) == 81 * (bound * bound)) by (nonlinear_arith);
    }
    triangle::lengths_add_up(y, z, 9 * bound, (9 * nd) * 0x1_0000);
    assert(9 * bound + (9 * nd) * 0x1_0000 == 9 * room);
    let k: nat = 4 * denominator;
    assert(k * k * e <= (9 * room) * (9 * room));
    bounds::lemma_largest_is_attained(mass);
    let l = largest(mass).units();
    lemma_pow2_strictly_increases(2031, 2070);
    if l > 0 {
        let at = choose|i: int| 0 <= i < mass.len() && (#[trigger] mass[i]).units() == l;
        assert(mass[at].is_finite() && mass[at].units() <= pow2(2031));
    } else {
        lemma_pow2_pos(2070);
    }
    cancellation::lemma_norm_is_a_number(mass);
    let c = norm(mass).units();
    if l < pow2(40) {
        cancellation::lemma_tiny_norm(mass);
        lemma_mul_inequality(c as int, pow2(57) as int, denominator as int);
    } else {
        bounds::norms_are_accurate(mass);
        let cc: nat = c * c;
        assert(0x4000 * cc <= 16385 * e) by {
            let d = size(cc - e);
            assert(d * 0x4000 <= e);
        }
        let kk: nat = k * k;
        lemma_mul_inequality((0x4000 * cc) as int, (16385 * e) as int, kk as int);
        let kc: nat = k * c;
        let rr: nat = room * room;
        assert((0x4000 * cc) * kk == 0x4000 * (kc * kc)) by (nonlinear_arith)
            requires
                kc == k * c,
                cc == c * c,
                kk == k * k,
        ;
        assert((16385 * e) * kk == 16385 * (k * k * e)) by (nonlinear_arith)
            requires
                kk == k * k,
        ;
        assert((9 * room) * (9 * room) == 81 * rr && (10 * room) * (10 * room) == 100 * rr)
            by (nonlinear_arith)
            requires
                rr == room * room,
        ;
        assert(0x4000 * (kc * kc) <= 0x4000 * (100 * rr));
        lemma_root_order(kc, 10 * room);
        assert(kc == 4 * (c * denominator)) by (nonlinear_arith)
            requires
                kc == k * c,
                k == 4 * denominator,
        ;
        let rest: nat = pow2(57) * denominator;
    }
}

/// The arithmetic of a mass as the fold adds it up, against the exact one.
proof fn lemma_mass_component(e: nat, f: nat, mag: nat, den: nat, n: nat)
    requires
        mag <= 2 * e,
        16 * (size(e * den - f) * PRECISION) <= den * (33 * e + 16 * (n * PRECISION)),
    ensures
        (4 * den) * mag <= 9 * f + 9 * (n * den),
        8 * (e * den) <= 9 * (f + n * den),
{
    let p = PRECISION as nat;
    let (ed, nd): (nat, nat) = (e * den, n * den);
    let np: nat = n * p;
    assert(den * (33 * e + 16 * np) == 33 * ed + 16 * (nd * p)) by (nonlinear_arith)
        requires
            ed == e * den,
            nd == n * den,
            np == n * p,
    ;
    let d = size(ed - f);
    assert(16 * (d * p) <= 33 * ed + 16 * (nd * p));
    assert(ed <= f + d);
    assert(8 * ed <= 9 * (f + nd));
    lemma_mul_inequality(mag as int, (2 * e) as int, (4 * den) as int);
    assert(mag * (4 * den) == (4 * den) * mag && (2 * e) * (4 * den) == 8 * ed) by (nonlinear_arith)
        requires
            ed == e * den,
    ;
}

/// The norm of a vector is at least fifteen sixteenths of each of its components, where that is
/// not next to nothing.
proof fn lemma_norm_of_component(v: Seq<Binary64>, j: int)
    requires
        v.len() <= WIDE,
        0 <= j < v.len(),
        forall|i: int| 0 <= i < v.len() ==> (#[trigger] v[i]).is_finite(),
        largest(v).units() <= pow2(2070),
        v[j].units() >= pow2(40),
    ensures
        norm(v).is_finite(),
        !norm(v).negative(),
        15 * v[j].units() <= 16 * norm(v).units(),
{
    bounds::lemma_largest_is_attained(v);
    assert(v[j].units() <= largest(v).units());
    bounds::norms_are_accurate(v);
    bounds::lemma_energy_contains(v, j);
    let (r, e, s) = (norm(v).units(), energy(v), v[j].units());
    let (rr, ss): (nat, nat) = (r * r, s * s);
    let d = size(rr - e);
    assert(d * 0x4000 <= e);
    assert(0x4000 * rr >= 16383 * e);
    assert((16 * r) * (16 * r) == 256 * rr && (15 * s) * (15 * s) == 225 * ss) by (nonlinear_arith)
        requires
            rr == r * r,
            ss == s * s,
    ;
    lemma_root_order(15 * s, 16 * r);
}

/// The arithmetic of a clear sum: its norm `r` is above the threshold `tau`.
#[verifier::spinoff_prover]
#[verifier::rlimit(60)]
proof fn lemma_clear_arithmetic(
    x: nat,
    s: nat,
    ed: nat,
    f: nat,
    b: nat,
    c: nat,
    r: nat,
    tau: nat,
    slack: nat,
    den: nat,
    n: nat,
)
    requires
        den > 0,
        n <= FEW,
        f <= b,
        x * PRECISION >= 104 * b + PRECISION * (den * (pow2(78) + 3 * slack)),
        (x - s * den) * PRECISION <= 8 * ed + PRECISION * (n * den),
        8 * ed <= 9 * (f + n * den),
        15 * s <= 16 * r,
        4 * (c * den) <= 10 * (b + (n * den) * 0x1_0000) + 4 * (pow2(57) * den),
        tau * PRECISION <= 35 * c + 3 * (PRECISION * pow2(74)) + 2 * (PRECISION * slack),
    ensures
        r > tau,
{
    let p = PRECISION as nat;
    vstd::arithmetic::power2::lemma2_to64();
    vstd::arithmetic::power2::lemma2_to64_rest();
    lemma_pow2_adds(10, 64);
    lemma_pow2_adds(14, 64);
    let (nd, cd, sd, ld): (nat, nat, nat, nat) = (n * den, c * den, s * den, slack * den);
    lemma_mul_inequality(n as int, FEW as int, den as int);
    assert(nd <= 0x1000_0000 * den);
    assert(den * (pow2(78) + 3 * slack) == pow2(78) * den + 3 * ld) by (nonlinear_arith)
        requires
            ld == slack * den,
    ;
    if r <= tau {
        let td: nat = tau * den;
        lemma_mul_inequality(
            (tau * p) as int,
            (35 * c + 3 * (p * pow2(74)) + 2 * (p * slack)) as int,
            den as int,
        );
        assert((tau * p) * den == td * p) by (nonlinear_arith)
            requires
                td == tau * den,
        ;
        assert((35 * c + 3 * (p * pow2(74)) + 2 * (p * slack)) * den == 35 * cd + 3 * (p * (pow2(74)
            * den)) + 2 * (p * ld)) by (nonlinear_arith)
            requires
                cd == c * den,
                ld == slack * den,
        ;
        lemma_mul_inequality((15 * s) as int, (16 * tau) as int, den as int);
        assert((15 * s) * den == 15 * sd && (16 * tau) * den == 16 * td) by (nonlinear_arith)
            requires
                sd == s * den,
                td == tau * den,
        ;
        assert(15 * sd <= 16 * td);
        assert(pow2(74) * den == 0x400_0000_0000_0000_0000 * den);
        assert(pow2(78) * den == 0x4000_0000_0000_0000_0000 * den);
        assert(pow2(57) * den == 0x200_0000_0000_0000 * den);
        assert(false);
    }
}

/// A sum that is clearly not zero is never refused: one whose exact value in some dimension is at
/// least a hundred and four half units of roundoff of the length of the exact masses, and a number
/// that is next to nothing, and three times what the policy owes.
///
/// Stated for up to `2^28` windows and `2^32` dimensions, with products far from overflow.
#[verifier::spinoff_prover]
#[verifier::rlimit(40)]
pub proof fn clear_sums_have_a_direction(
    weights: Seq<Binary64>,
    ideal: Seq<nat>,
    denominator: nat,
    embeddings: Seq<Seq<Binary64>>,
    dim: nat,
    slack: Binary64,
    bound: nat,
    j: int,
)
    requires
        embeddings.len() == weights.len() <= FEW,
        dim <= WIDE,
        round_ideals(weights, ideal, denominator),
        forall|j: int| 0 <= j < dim ==> #[trigger] tame(weights, embeddings, j),
        slack.is_finite(),
        !slack.negative(),
        slack.units() <= pow2(2090),
        square_sum(ideal_masses(ideal, embeddings, dim)) <= bound * bound,
        0 <= j < dim,
        size(ideal_sum(ideal, embeddings, j, embeddings.len())) * PRECISION >= 104 * bound
            + PRECISION * (denominator * (pow2(78) + 3 * slack.units())),
    ensures
        folded(weights, embeddings, dim, slack) is Ok,
{
    let n = embeddings.len();
    let sum = weighted_sum(weights, embeddings, dim);
    let mass = masses(weights, embeddings, dim);
    assert forall|i: int| 0 <= i < sum.len() implies (#[trigger] sum[i]).is_finite()
        && sum[i].units() <= pow2(2060) by {
        assert(tame(weights, embeddings, i));
        accuracy::the_fold_is_moderate(weights, embeddings, dim, i);
    }
    bounds::lemma_largest_is_attained(sum);
    lemma_pow2_strictly_increases(2060, 2070);
    if largest(sum).units() > 0 {
        let at = choose|i: int|
            0 <= i < sum.len() && (#[trigger] sum[i]).units() == largest(sum).units();
        assert(sum[at].units() <= pow2(2060));
    }
    lemma_norm_of_masses(weights, ideal, denominator, embeddings, dim, bound);
    thresholds_are_small(mass, slack);
    assert(tame(weights, embeddings, j));
    accuracy::the_mass_is_accurate(weights, embeddings, dim, j);
    accuracy::the_fold_is_accurate(weights, ideal, denominator, embeddings, dim, j);
    heading::lemma_mass_of_terms(weights, ideal, denominator, embeddings, j, n);
    let (e, f) = (exact_mass(weights, embeddings, j, n), ideal_mass(ideal, embeddings, j, n));
    lemma_mass_component(e, f, mass[j].units(), denominator, n);
    let exact = ideal_masses(ideal, embeddings, dim);
    lemma_component_within(exact, j);
    assert(exact[j] == f);
    lemma_root_order(f, bound);
    let x = ideal_sum(ideal, embeddings, j, n);
    let s = sum[j].units();
    let (v, p) = (sum[j].value(), PRECISION as nat);
    let (ed, nd): (nat, nat) = (e * denominator, n * denominator);
    let np: nat = n * p;
    assert(denominator * (8 * e + np) == 8 * ed + p * nd) by (nonlinear_arith)
        requires
            ed == e * denominator,
            nd == n * denominator,
            np == n * p,
    ;
    let gap = v * denominator - x;
    lemma_size_times(v, denominator);
    assert(size(v) == s);
    assert(size(x) <= s * denominator + size(gap));
    lemma_mul_inequality(size(x) - s * denominator, size(gap) as int, p as int);
    // Not next to nothing.
    lemma_clear_component(size(x), s, ed, f, bound, slack.units(), denominator, n);
    lemma_norm_of_component(sum, j);
    lemma_clear_arithmetic(
        size(x),
        s,
        ed,
        f,
        bound,
        norm(mass).units(),
        norm(sum).units(),
        threshold(mass, slack).units(),
        slack.units(),
        denominator,
        n,
    );
    let (tau, r) = (threshold(mass, slack), norm(sum));
    exact::lemma_order(tau.magnitude() as nat, r.magnitude() as nat);
    exact::lemma_order(r.magnitude() as nat, tau.magnitude() as nat);
    assert(!tau.at_least(r));
    lemma_pow2_pos(40);
    assert(sum[j].units() > 0);
    length::directions_are_those_of_finite_vectors(sum);
}

/// The arithmetic of a clear component: it is not next to nothing.
proof fn lemma_clear_component(
    x: nat,
    s: nat,
    ed: nat,
    f: nat,
    b: nat,
    slack: nat,
    den: nat,
    n: nat,
)
    requires
        den > 0,
        n <= FEW,
        f <= b,
        x * PRECISION >= 104 * b + PRECISION * (den * (pow2(78) + 3 * slack)),
        (x - s * den) * PRECISION <= 8 * ed + PRECISION * (n * den),
        8 * ed <= 9 * (f + n * den),
    ensures
        s >= pow2(40),
{
    let p = PRECISION as nat;
    vstd::arithmetic::power2::lemma2_to64();
    vstd::arithmetic::power2::lemma2_to64_rest();
    lemma_pow2_adds(14, 64);
    let (nd, sd, ld): (nat, nat, nat) = (n * den, s * den, slack * den);
    lemma_mul_inequality(n as int, FEW as int, den as int);
    assert(den * (pow2(78) + 3 * slack) == pow2(78) * den + 3 * ld) by (nonlinear_arith)
        requires
            ld == slack * den,
    ;
    assert(pow2(78) * den == 0x4000_0000_0000_0000_0000 * den);
    if s < pow2(40) {
        lemma_mul_inequality(s as int, pow2(40) as int, den as int);
        assert(pow2(40) * den == 0x100_0000_0000 * den);
        assert(false);
    }
}

/// Windows whose exact sum is clearly not zero have a mean.
#[verifier::spinoff_prover]
#[verifier::rlimit(40)]
pub proof fn clear_windows_have_a_mean(
    embeddings: Seq<Seq<Binary64>>,
    coverages: Seq<Binary64>,
    dim: usize,
    bound: nat,
    j: int,
    r: Result<Vec<Binary64>, WinditError>,
)
    requires
        input_error(embeddings, coverages, dim) is None,
        embeddings.len() <= FEW,
        dim <= WIDE,
        square_sum(ideal_masses(ones(embeddings.len()), embeddings, dim as nat)) <= bound * bound,
        0 <= j < dim,
        size(ideal_sum(ones(embeddings.len()), embeddings, j, embeddings.len())) * PRECISION >= 104
            * bound + PRECISION * pow2(78),
        MeanRenormalized.aggregates(embeddings, coverages, dim, r),
    ensures
        r is Ok || r == Err::<Vec<Binary64>, WinditError>(
            WinditError::AllocFailed { elements: dim },
        ),
{
    let n = embeddings.len();
    let weights = uniform_weights::<Binary64>(n);
    laws::lemma_one_units();
    lemma_pow2_strictly_increases(1074, 1600);
    refusal::lemma_domain_is_tame(weights, embeddings, coverages, dim);
    refusal::uniform_weights_are_ideal(n);
    let f = pow2(78);
    assert(1 * f == f) by (nonlinear_arith);
    lemma_clear_fold(weights, ones(n), 1, embeddings, dim as nat, bound, j);
}

/// The fold of a clear sum, where nothing is owed.
#[verifier::spinoff_prover]
#[verifier::rlimit(30)]
proof fn lemma_clear_fold(
    weights: Seq<Binary64>,
    ideal: Seq<nat>,
    denominator: nat,
    embeddings: Seq<Seq<Binary64>>,
    dim: nat,
    bound: nat,
    j: int,
)
    requires
        embeddings.len() == weights.len() <= FEW,
        dim <= WIDE,
        round_ideals(weights, ideal, denominator),
        forall|j: int| 0 <= j < dim ==> #[trigger] tame(weights, embeddings, j),
        square_sum(ideal_masses(ideal, embeddings, dim)) <= bound * bound,
        0 <= j < dim,
        size(ideal_sum(ideal, embeddings, j, embeddings.len())) * PRECISION >= 104 * bound
            + PRECISION * (denominator * pow2(78)),
    ensures
        folded(weights, embeddings, dim, zero()) is Ok,
{
    assert(units64(0) == 0);
    let (f, u) = (pow2(78), zero().units());
    assert(u == 0);
    assert(denominator * (f + 3 * u) == denominator * f) by (nonlinear_arith)
        requires
            u == 0,
    ;
    lemma_pow2_pos(2090);
    clear_sums_have_a_direction(weights, ideal, denominator, embeddings, dim, zero(), bound, j);
}

/// The weights of a saliency-weighted mean, and their products.
proof fn lemma_saliency_setting(
    embeddings: Seq<Seq<Binary64>>,
    coverages: Seq<Binary64>,
    dim: usize,
)
    requires
        input_error(embeddings, coverages, dim) is None,
        dim <= WIDE,
    ensures
        saliency_weights(embeddings).len() == embeddings.len(),
        round_ideals(saliency_weights(embeddings), saliencies(embeddings), pow2(1074)),
        forall|j: int|
            0 <= j < dim ==> #[trigger] tame(saliency_weights(embeddings), embeddings, j),
{
    refusal::saliency_weights_are_ideal(embeddings, coverages, dim);
    refusal::lemma_domain_is_tame(saliency_weights(embeddings), embeddings, coverages, dim);
}

/// Windows whose exact sum, weighted by their norms, is clearly not zero have a saliency-weighted
/// mean.
pub proof fn clear_windows_have_a_saliency_mean(
    embeddings: Seq<Seq<Binary64>>,
    coverages: Seq<Binary64>,
    dim: usize,
    bound: nat,
    j: int,
    r: Result<Vec<Binary64>, WinditError>,
)
    requires
        input_error(embeddings, coverages, dim) is None,
        embeddings.len() <= FEW,
        dim <= WIDE,
        square_sum(ideal_masses(saliencies(embeddings), embeddings, dim as nat)) <= bound * bound,
        0 <= j < dim,
        size(ideal_sum(saliencies(embeddings), embeddings, j, embeddings.len())) * PRECISION >= 104
            * bound + PRECISION * (pow2(1074) * pow2(78)),
        SaliencyWeighted.aggregates(embeddings, coverages, dim, r),
    ensures
        r is Ok || (r matches Err(e) && e is AllocFailed),
{
    lemma_saliency_setting(embeddings, coverages, dim);
    lemma_clear_fold(
        saliency_weights(embeddings),
        saliencies(embeddings),
        pow2(1074),
        embeddings,
        dim as nat,
        bound,
        j,
    );
}

/// Windows whose exact sum, weighted by their coverages, is clearly not zero have a
/// coverage-weighted mean. Here `top` is any bound on the coverages.
#[verifier::spinoff_prover]
#[verifier::rlimit(40)]
pub proof fn clear_windows_have_a_coverage_mean(
    embeddings: Seq<Seq<Binary64>>,
    coverages: Seq<Binary64>,
    dim: usize,
    top: nat,
    bound: nat,
    j: int,
    r: Result<Vec<Binary64>, WinditError>,
)
    requires
        input_error(embeddings, coverages, dim) is None,
        embeddings.len() <= FEW,
        dim <= WIDE,
        forall|i: int| 0 <= i < coverages.len() ==> (#[trigger] coverages[i]).units() <= top,
        top > 0,
        square_sum(ideal_masses(shares(coverages), embeddings, dim as nat)) <= bound * bound,
        0 <= j < dim,
        size(ideal_sum(shares(coverages), embeddings, j, embeddings.len())) * PRECISION >= 104
            * bound + PRECISION * (top * pow2(78)),
        CoverageWeightedMean.aggregates(embeddings, coverages, dim, r),
    ensures
        r is Ok || r == Err::<Vec<Binary64>, WinditError>(
            WinditError::AllocFailed { elements: dim },
        ),
{
    let n = embeddings.len();
    let weights = coverage_weights::<Binary64>(coverages);
    laws::in_domain_coverages_are_in_range(embeddings, coverages, dim);
    assert forall|k: int| 0 <= k < coverages.len() implies (
    #[trigger] coverages[k]).is_finite() by {
        ratios::lemma_in_range(coverages[k]);
    }
    bounds::lemma_largest_is_attained(coverages);
    assert(units64(0) == 0);
    let most = largest(coverages).units();
    let x = ideal_sum(shares(coverages), embeddings, j, n);
    let f = pow2(78);
    lemma_pow2_pos(78);
    if most == 0 {
        lemma_no_shares(coverages, embeddings, j, n);
        vstd::arithmetic::mul::lemma_mul_strictly_positive(top as int, f as int);
        assert(0 * PRECISION == 0) by (nonlinear_arith);
    }
    assert(most > 0);
    let at = choose|i: int| 0 <= i < coverages.len() && (#[trigger] coverages[i]).units() == most;
    assert(coverages[at].units() <= top);
    refusal::coverage_weights_round_their_ideals(coverages);
    let lifted = lifted_shares(coverages);
    let p = pow2(lift(coverages, largest(coverages)) as nat);
    lemma_pow2_pos(lift(coverages, largest(coverages)) as nat);
    assert forall|i: int| 0 <= i < weights.len() implies (#[trigger] weights[i]).is_finite()
        && weights[i].units() <= pow2(1600) by {
        assert(rounds_ideal(weights[i], lifted[i], most));
    }
    refusal::lemma_domain_is_tame(weights, embeddings, coverages, dim);
    // The lift is a common factor.
    let (plain, scaled) = (
        ideal_masses(shares(coverages), embeddings, dim as nat),
        ideal_masses(lifted, embeddings, dim as nat),
    );
    assert forall|i: int| 0 <= i < dim implies #[trigger] scaled[i] == p * plain[i] by {
        heading::lemma_scaled_mass(shares(coverages), lifted, p, embeddings, i, n);
    }
    assert(scaled =~= Seq::new(plain.len(), |i: int| p * plain[i]));
    triangle::lengths_scale(plain, p as int);
    let b: nat = p * bound;
    let (q, bb): (int, nat) = (square_sum(plain), bound * bound);
    lemma_mul_inequality(q, bb as int, (p * p) as int);
    assert(q * (p * p) == p * p * q && bb * (p * p) == b * b) by (nonlinear_arith)
        requires
            b == p * bound,
            bb == bound * bound,
    ;
    refusal::lemma_scaled_ideals(shares(coverages), lifted, p, embeddings, j, n);
    let y = ideal_sum(lifted, embeddings, j, n);
    assert(y == x * p) by (nonlinear_arith)
        requires
            y == p * x,
    ;
    lemma_size_times(x, p);
    let xp: nat = size(x) * PRECISION as nat;
    let tf: nat = top * f;
    lemma_mul_inequality((104 * bound + PRECISION * tf) as int, xp as int, p as int);
    assert((104 * bound + PRECISION * tf) * p == 104 * b + PRECISION * (tf * p)) by (nonlinear_arith)
        requires
            b == p * bound,
    ;
    assert(xp * p == size(y) * PRECISION) by (nonlinear_arith)
        requires
            xp == size(x) * PRECISION,
            size(y) == size(x) * p,
    ;
    lemma_mul_inequality(most as int, top as int, f as int);
    lemma_mul_inequality(1, p as int, tf as int);
    assert(p * tf == tf * p) by (nonlinear_arith);
    assert(most * f <= tf * p);
    lemma_clear_fold(weights, lifted, most, embeddings, dim as nat, b, j);
}

/// Without coverages there is no sum.
proof fn lemma_no_shares(
    coverages: Seq<Binary64>,
    embeddings: Seq<Seq<Binary64>>,
    j: int,
    n: nat,
)
    requires
        n <= coverages.len(),
        forall|i: int| 0 <= i < coverages.len() ==> (#[trigger] coverages[i]).units() == 0,
    ensures
        ideal_sum(shares(coverages), embeddings, j, n) == 0,
    decreases n,
{
    if n > 0 {
        lemma_no_shares(coverages, embeddings, j, (n - 1) as nat);
        let x = embeddings[n - 1][j].value();
        assert(coverages[n - 1].units() == 0);
        assert(0 * x == 0) by (nonlinear_arith);
    }
}

} // verus!
