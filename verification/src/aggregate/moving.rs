//! Windows that cancel have no moving average.
use vstd::arithmetic::mul::{
    lemma_mul_inequality, lemma_mul_inequality_converse, lemma_mul_upper_bound,
};
use vstd::arithmetic::power2::{
    lemma_pow2_adds, lemma_pow2_pos, lemma_pow2_strictly_increases, lemma_pow2_unfold, pow2,
};
use vstd::prelude::*;

use crate::aggregate::accuracy::{
    self, exact_mass, ideal_sum, round_ideals, rounds_ideal, tame, FEW, MANY,
};
use crate::aggregate::bounds::{self, energy, WIDE};
use crate::aggregate::cancellation::{self, dwarfed, own_threshold, relative_part};
use crate::aggregate::chain::{self, complement, exact_complement, raised, unit};
use crate::aggregate::domain::{input_error, magnitude_in_range};
use crate::aggregate::ema::{
    alpha_in_range, formation_slack, ladder, power, slack_of, weight_error, EmaRenormalized,
};
use crate::aggregate::fold::{folded, masses, threshold, weighted_sum};
use crate::aggregate::formation::{self, charge, covered, gap, ideal_ladder, proper};
use crate::aggregate::laws::{self, one, zero};
use crate::aggregate::norm::{largest, norm};
use crate::aggregate::policy::AggregatePolicy;
use crate::aggregate::refusal::{self, no_direction};
use crate::binary::{Binary64, HIDDEN64};
use crate::close::lemma_size_times;
use crate::error::WinditError;
use crate::exact::{self, size};
use crate::rounding::units64;
use crate::roundoff::{self, PRECISION};
use crate::triangle::{self, length_sum, row_sum, square_sum};

verus! {

/// The sum over the first `i` windows of the bound on the error of the weight, times the
/// norm of the window.
pub open spec fn charged_sum(
    alpha: Binary64,
    embeddings: Seq<Seq<Binary64>>,
    i: nat,
) -> nat
    decreases i,
{
    if i == 0 {
        0
    } else {
        charged_sum(alpha, embeddings, (i - 1) as nat) + charge(
            alpha,
            embeddings.len(),
            i - 1,
        ) * norm(embeddings[i - 1]).units()
    }
}

/// The arithmetic of one more charge on the slack.
proof fn lemma_slack_arithmetic(i: nat, sum: nat, e: nat, t: nat, s: nat, x: nat, next: nat)
    requires
        i < MANY,
        (s + 2 * i) * t * PRECISION >= sum * (PRECISION - 4 * i),
        s * t <= 3 * sum + 2 * i * t,
        size(x * t - e) * PRECISION <= 2 * e + PRECISION * t,
        size(s + x - next) * PRECISION <= s + x,
        size(s + x - next) <= x,
    ensures
        (next + 2 * (i + 1)) * t * PRECISION >= (sum + e) * (PRECISION - 4 * (i + 1)),
        next * t <= 3 * (sum + e) + 2 * (i + 1) * t,
{
    let p = PRECISION as nat;
    let (st, xt, nt, it) = (s * t, x * t, next * t, i * t);
    let d = size(s + x - next);
    let dt = d * t;
    assert(dt * p <= st + xt) by (nonlinear_arith)
        requires
            d * p <= s + x,
            dt == d * t,
            st == s * t,
            xt == x * t,
    ;
    assert(dt <= xt) by (nonlinear_arith)
        requires
            d <= x,
            dt == d * t,
            xt == x * t,
    ;
    assert(nt <= st + xt + dt && st + xt <= nt + dt) by (nonlinear_arith)
        requires
            next <= s + x + d,
            s + x <= next + d,
            nt == next * t,
            st == s * t,
            xt == x * t,
            dt == d * t,
    ;
    assert(2 * i * t == 2 * it && 2 * (i + 1) * t == 2 * it + 2 * t) by (nonlinear_arith)
        requires
            it == i * t,
    ;
    assert(nt <= 3 * (sum + e) + 2 * (i + 1) * t);
    assert((s + 2 * i) * t * p == (st + 2 * it) * p) by (nonlinear_arith)
        requires
            st == s * t,
            it == i * t,
    ;
    assert((next + 2 * (i + 1)) * t * p == (nt + 2 * it + 2 * t) * p) by (nonlinear_arith)
        requires
            nt == next * t,
            it == i * t,
    ;
    let (ia, ie) = (i * sum, i * e);
    assert(sum * (p - 4 * i) == sum * p - 4 * ia) by (nonlinear_arith)
        requires
            ia == i * sum,
    ;
    assert((sum + e) * (p - 4 * (i + 1)) == sum * p - 4 * ia - 4 * sum + e * p - 4 * ie - 4 * e)
        by (nonlinear_arith)
        requires
            ia == i * sum,
            ie == i * e,
    ;
    lemma_mul_inequality(i as int, MANY as int, t as int);
}

/// The slack of the first `i` windows, against the sum of their charges.
#[verifier::spinoff_prover]
pub(crate) proof fn lemma_slack(alpha: Binary64, embeddings: Seq<Seq<Binary64>>, i: nat)
    requires
        i <= embeddings.len() <= MANY,
        forall|l: int| 0 <= l < embeddings.len() ==> proper(alpha, embeddings.len(), l),
        forall|l: int|
            0 <= l < embeddings.len() ==> {
                &&& norm(#[trigger] embeddings[l]).is_finite()
                &&& !norm(embeddings[l]).negative()
                &&& norm(embeddings[l]).units() <= pow2(1491)
            },
    ensures
        ({
            let n = embeddings.len();
            let s = slack_of(ladder(alpha, n), embeddings, alpha, complement(alpha), i);
            let sum = charged_sum(alpha, embeddings, i);
            &&& s.is_finite()
            &&& !s.negative()
            &&& (s.units() + 2 * i) * unit() * PRECISION >= sum * (PRECISION - 4 * i)
            &&& s.units() * unit() <= 3 * sum + 2 * i * unit()
            &&& sum <= i * (unit() * pow2(1491))
        }),
    decreases i,
{
    let n = embeddings.len();
    let t = unit();
    let b = complement(alpha);
    let weights = ladder(alpha, n);
    let big = t * pow2(1491);
    lemma_pow2_pos(1074);
    assert(units64(0) == 0);
    if i == 0 {
        assert(0 * big == 0 && 0 * t == 0) by (nonlinear_arith);
        assert((0 + 2 * 0) * t * PRECISION == 0) by (nonlinear_arith);
    } else {
        let h = (i - 1) as nat;
        lemma_slack(alpha, embeddings, h);
        assert(proper(alpha, n, h as int));
        let rest = slack_of(weights, embeddings, alpha, b, h);
        let error = weight_error(alpha, b, weights[h as int], h, n);
        let v = norm(embeddings[h as int]);
        let sum = charged_sum(alpha, embeddings, h);
        let (s, e, c) = (rest.units(), error.units(), v.units());
        assert(e == charge(alpha, n, h as int));
        assert(c <= pow2(1491));
        let ec = e * c;
        lemma_mul_upper_bound(e as int, t as int, c as int, pow2(1491) as int);
        assert(h * big + big == i * big) by (nonlinear_arith)
            requires
                i == h + 1,
        ;
        exact::lemma_order(0, error.magnitude() as nat);
        lemma_slack_room(s, sum, h, t, big);
        if e == 0 {
            assert(0 * c == 0) by (nonlinear_arith);
            assert(!zero().below(error));
            assert(slack_of(weights, embeddings, alpha, b, i) == rest);
            lemma_slack_idle(h, sum, t, s);
        } else {
            assert(zero().below(error));
            let x = error.times(v);
            lemma_pow2_strictly_increases(1491, 2097);
            lemma_mul_upper_bound(e as int, t as int, c as int, pow2(2097) as int);
            assert(t * pow2(2097) == pow2(2097) * t) by (nonlinear_arith);
            roundoff::lemma_product_error(error, v);
            bounds::lemma_error_of_exact(x.units() * t, ec, t);
            lemma_product_room(x.units(), ec, t);
            roundoff::lemma_sum_error(rest, x);
            cancellation::lemma_sum_grows(rest, x);
            let next = rest.plus(x);
            assert(slack_of(weights, embeddings, alpha, b, i) == next);
            lemma_slack_arithmetic(h, sum, ec, t, s, x.units(), next.units());
        }
    }
}

/// A window that is not charged for.
proof fn lemma_slack_idle(i: nat, sum: nat, t: nat, s: nat)
    requires
        (s + 2 * i) * t * PRECISION >= sum * (PRECISION - 4 * i),
        s * t <= 3 * sum + 2 * i * t,
    ensures
        (s + 2 * (i + 1)) * t * PRECISION >= sum * (PRECISION - 4 * (i + 1)),
        s * t <= 3 * sum + 2 * (i + 1) * t,
{
    let p = PRECISION as nat;
    assert((s + 2 * (i + 1)) * t * p >= (s + 2 * i) * t * p) by (nonlinear_arith);
    assert(sum * (p - 4 * (i + 1)) <= sum * (p - 4 * i)) by (nonlinear_arith);
    assert(2 * (i + 1) * t >= 2 * i * t) by (nonlinear_arith);
}

/// The slack so far is far from overflow.
proof fn lemma_slack_room(s: nat, sum: nat, i: nat, t: nat, big: nat)
    requires
        i <= MANY,
        t == pow2(1074),
        big == t * pow2(1491),
        sum <= i * big,
        s * t <= 3 * sum + 2 * i * t,
    ensures
        s <= pow2(1530),
{
    let m = pow2(1491);
    lemma_pow2_pos(1074);
    lemma_pow2_pos(1491);
    let k = 3 * (i * m) + 2 * i;
    assert(3 * (i * big) + 2 * i * t == k * t) by (nonlinear_arith)
        requires
            big == t * m,
            k == 3 * (i * m) + 2 * i,
    ;
    assert(s * t <= k * t);
    lemma_mul_inequality_converse(s as int, k as int, t as int);
    lemma_mul_inequality(i as int, MANY as int, m as int);
    lemma_mul_inequality(1, m as int, i as int);
    assert(i * m >= i) by (nonlinear_arith)
        requires
            m >= 1,
    ;
    vstd::arithmetic::power2::lemma2_to64();
    lemma_pow2_adds(30, 1491);
    lemma_pow2_adds(3, 1521);
    lemma_pow2_strictly_increases(1524, 1530);
}

/// A charge is far from overflow.
proof fn lemma_product_room(x: nat, e: nat, t: nat)
    requires
        t == pow2(1074),
        e <= t * pow2(1491),
        size(x * t - e) * PRECISION <= 2 * e + PRECISION * t,
    ensures
        x <= pow2(1493),
        x + pow2(1530) <= pow2(2097),
{
    let m = pow2(1491);
    lemma_pow2_pos(1074);
    lemma_pow2_pos(1491);
    assert(x * t <= 2 * e + t);
    let k = 2 * m + 1;
    assert(2 * (t * m) + t == k * t) by (nonlinear_arith)
        requires
            k == 2 * m + 1,
    ;
    lemma_mul_inequality_converse(x as int, k as int, t as int);
    lemma_pow2_unfold(1492);
    lemma_pow2_unfold(1493);
    lemma_pow2_strictly_increases(1493, 1530);
    lemma_pow2_unfold(1531);
    lemma_pow2_strictly_increases(1531, 2097);
}

/// The weights of a moving average in least positive numbers.
pub open spec fn weight_units(alpha: Binary64, n: nat) -> Seq<nat> {
    Seq::new(n, |i: int| ladder(alpha, n)[i].units())
}

/// The gaps of the weights of a moving average.
pub open spec fn gaps(alpha: Binary64, n: nat) -> Seq<int> {
    Seq::new(n, |i: int| gap(alpha, n, i))
}

/// The components of a window, scaled by `2^14`.
pub open spec fn scaled_row(v: Seq<Binary64>) -> Seq<int> {
    Seq::new(v.len(), |j: int| 0x4000 * v[j].value())
}

/// The components of the windows, scaled by `2^14`.
pub open spec fn scaled_rows(embeddings: Seq<Seq<Binary64>>) -> Seq<Seq<int>> {
    Seq::new(embeddings.len(), |i: int| scaled_row(embeddings[i]))
}

/// Bounds on the lengths of the scaled windows.
pub open spec fn scaled_lengths(embeddings: Seq<Seq<Binary64>>) -> Seq<nat> {
    Seq::new(embeddings.len(), |i: int| 16385 * norm(embeddings[i]).units())
}

/// The sum over the weights and the one over their ideals differ by the sum over the gaps.
proof fn lemma_gap_sum(alpha: Binary64, embeddings: Seq<Seq<Binary64>>, j: int, m: nat)
    requires
        m <= embeddings.len(),
        0 <= j,
        forall|i: int| 0 <= i < embeddings.len() ==> j < (#[trigger] embeddings[i]).len(),
    ensures
        ({
            let n = embeddings.len();
            0x4000 * (ideal_sum(weight_units(alpha, n), embeddings, j, m) * raised(unit(), n)
                - ideal_sum(ideal_ladder(alpha, n), embeddings, j, m) * unit()) == row_sum(
                gaps(alpha, n),
                scaled_rows(embeddings),
                j,
                m,
            )
        }),
    decreases m,
{
    let n = embeddings.len();
    let (den, t) = (raised(unit(), n), unit());
    if m == 0 {
        assert(0 * den == 0 && 0 * t == 0) by (nonlinear_arith);
    } else {
        let k = (m - 1) as nat;
        lemma_gap_sum(alpha, embeddings, j, k);
        let i = m - 1;
        let x = embeddings[i][j].value();
        let (w, q) = (weight_units(alpha, n)[i], ideal_ladder(alpha, n)[i]);
        let (s, r) = (
            ideal_sum(weight_units(alpha, n), embeddings, j, k),
            ideal_sum(ideal_ladder(alpha, n), embeddings, j, k),
        );
        assert(j < embeddings[i].len());
        assert(scaled_rows(embeddings)[i][j] == 0x4000 * x);
        assert(gaps(alpha, n)[i] == w * den - q * t);
        assert((s + w * x) * den == s * den + (w * x) * den) by (nonlinear_arith);
        assert((r + q * x) * t == r * t + (q * x) * t) by (nonlinear_arith);
        assert((w * den - q * t) * (0x4000 * x) == 0x4000 * ((w * x) * den - (q * x) * t))
            by (nonlinear_arith);
    }
}

/// The squares of the values are those of the magnitudes.
proof fn lemma_value_squares(v: Seq<Binary64>)
    ensures
        square_sum(Seq::new(v.len(), |j: int| v[j].value())) == energy(v),
    decreases v.len(),
{
    let s = Seq::new(v.len(), |j: int| v[j].value());
    if v.len() > 0 {
        let v0 = v.drop_last();
        lemma_value_squares(v0);
        assert(s.drop_last() =~= Seq::new(v0.len(), |j: int| v0[j].value()));
        let u = v.last().units() as int;
        assert((-u) * (-u) == u * u) by (nonlinear_arith);
    }
}

/// A component inside the domain is zero, or at least `2^-400`.
proof fn lemma_component_floor(x: Binary64)
    requires
        x.is_finite(),
        magnitude_in_range(x),
    ensures
        x.units() == 0 || x.units() >= pow2(674),
{
    let low = 0x26f0_0000_0000_0000nat;
    vstd::arithmetic::power2::lemma2_to64_rest();
    lemma_pow2_adds(52, 622);
    assert(units64(low) == (HIDDEN64 + 0) * pow2(622));
    exact::lemma_signed_value(false, x.magnitude() as nat);
    exact::lemma_order(x.magnitude() as nat, low);
    assert(units64(0) == 0);
    assert(x.magnitude() == 0 || x.magnitude() >= low);
}

/// The norm of a window inside the domain bounds its length.
proof fn lemma_row_length(v: Seq<Binary64>)
    requires
        v.len() <= WIDE,
        forall|k: int|
            0 <= k < v.len() ==> (#[trigger] v[k]).is_finite() && magnitude_in_range(v[k]),
    ensures
        ({
            let c = 16385 * norm(v).units();
            square_sum(scaled_row(v)) <= c * c
        }),
{
    let values = Seq::new(v.len(), |j: int| v[j].value());
    lemma_value_squares(v);
    triangle::lengths_scale(values, 0x4000);
    assert(scaled_row(v) =~= Seq::new(values.len(), |j: int| 0x4000 * values[j]));
    assert forall|k: int| 0 <= k < v.len() implies (#[trigger] v[k]).units() <= pow2(1474) by {
        refusal::lemma_component_bound(v[k]);
    }
    refusal::lemma_window_norm(v);
    bounds::lemma_largest_is_attained(v);
    let c = norm(v).units();
    let e = energy(v);
    assert(0x4000 * 0x4000 * e == 0x1000_0000 * e) by (nonlinear_arith);
    if largest(v).units() == 0 {
        assert forall|k: int| 0 <= k < v.len() implies (#[trigger] v[k]).units() == 0 by {
            assert(v[k].units() <= largest(v).units());
        }
        lemma_no_energy(v);
        assert(0 <= (16385 * c) * (16385 * c)) by (nonlinear_arith);
    } else {
        let k = choose|k: int|
            0 <= k < v.len() && (#[trigger] v[k]).units() == largest(v).units();
        lemma_component_floor(v[k]);
        lemma_pow2_strictly_increases(40, 674);
        lemma_pow2_strictly_increases(1474, 2070);
        bounds::norms_are_accurate(v);
        cancellation::lemma_length_arithmetic(energy(v), c);
    }
}

/// A vector of zeros has no energy.
proof fn lemma_no_energy(v: Seq<Binary64>)
    requires
        forall|k: int| 0 <= k < v.len() ==> (#[trigger] v[k]).units() == 0,
    ensures
        energy(v) == 0,
    decreases v.len(),
{
    if v.len() > 0 {
        assert(v[v.len() - 1] == v.last());
        let rest = v.drop_last();
        assert forall|k: int| 0 <= k < rest.len() implies (#[trigger] rest[k]).units() == 0 by {
            assert(rest[k] == v[k]);
        }
        lemma_no_energy(rest);
    }
}

/// The arithmetic of one more window on the bound of the gaps.
proof fn lemma_reach_arithmetic(l: nat, f: nat, c: nat, e: nat, sum: nat, m: nat, den: nat, z: nat)
    requires
        l * (8192 * z) <= den * (16385 * (8191 * z * sum + m * pow2(1491))),
        f * (8192 * z) <= (8191 * e * z + 1) * den,
        c <= pow2(1491),
    ensures
        (l + f * (16385 * c)) * (8192 * z) <= den * (16385 * (8191 * z * (sum + e * c) + (m + 1)
            * pow2(1491))),
{
    let big = pow2(1491);
    let k = 16385 * c;
    let ec = e * c;
    assert((f * k) * (8192 * z) <= ((8191 * e * z + 1) * den) * k) by (nonlinear_arith)
        requires
            f * (8192 * z) <= (8191 * e * z + 1) * den,
    ;
    assert(((8191 * e * z + 1) * den) * k == den * (16385 * (8191 * z * ec + c)))
        by (nonlinear_arith)
        requires
            k == 16385 * c,
            ec == e * c,
    ;
    assert(den * (16385 * (8191 * z * ec + c)) <= den * (16385 * (8191 * z * ec + big)))
        by (nonlinear_arith)
        requires
            c <= big,
    ;
    assert((l + f * k) * (8192 * z) == l * (8192 * z) + (f * k) * (8192 * z)) by (nonlinear_arith);
    let (x, y) = (8191 * z * sum + m * big, 8191 * z * ec + big);
    assert(8191 * z * (sum + ec) + (m + 1) * big == x + y) by (nonlinear_arith)
        requires
            x == 8191 * z * sum + m * big,
            y == 8191 * z * ec + big,
    ;
    assert(den * (16385 * (x + y)) == den * (16385 * x) + den * (16385 * y)) by (nonlinear_arith);
}

/// The gaps reach no farther than their charges.
proof fn lemma_reach(alpha: Binary64, embeddings: Seq<Seq<Binary64>>, m: nat)
    requires
        m <= embeddings.len(),
        forall|l: int| 0 <= l < embeddings.len() ==> #[trigger] covered(alpha, embeddings.len(), l),
        forall|l: int|
            0 <= l < embeddings.len() ==> norm(#[trigger] embeddings[l]).units() <= pow2(1491),
    ensures
        ({
            let n = embeddings.len();
            let z = pow2(600);
            length_sum(gaps(alpha, n), scaled_lengths(embeddings), m) * (8192 * z) <= raised(
                unit(),
                n,
            ) * (16385 * (8191 * z * charged_sum(alpha, embeddings, m) + m * pow2(1491)))
        }),
    decreases m,
{
    let n = embeddings.len();
    let (z, den) = (pow2(600), raised(unit(), n));
    if m == 0 {
        assert(0 * (8192 * z) == 0) by (nonlinear_arith);
        let y = 8191 * z * 0 + 0 * pow2(1491);
        assert(0 <= den * (16385 * y)) by (nonlinear_arith)
            requires
                y >= 0,
        ;
    } else {
        let k = (m - 1) as nat;
        lemma_reach(alpha, embeddings, k);
        assert(covered(alpha, n, m - 1));
        let c = norm(embeddings[m - 1]).units();
        lemma_reach_arithmetic(
            length_sum(gaps(alpha, n), scaled_lengths(embeddings), k),
            size(gap(alpha, n, m - 1)),
            c,
            charge(alpha, n, m - 1),
            charged_sum(alpha, embeddings, k),
            k,
            den,
            z,
        );
    }
}

/// The factor of the errors of the weights, on the scale of the fold: sixteen, and what the
/// roundings of the fold add to them.
pub open spec fn reach_factor() -> nat {
    16 * PRECISION as nat + 464
}

/// The arithmetic of a refusal: a norm within the errors of the fold and of the weights is
/// at most the threshold.
proof fn lemma_below_threshold(r: nat, m: nat, s: nat, n: nat, y: nat, z: nat, tau: nat)
    requires
        n <= MANY,
        r * (0x20_0000_0000_0000 * PRECISION) <= 32769 * (0x10_0000 * (483 * (16385 * m
            + 0x40_0000_0000_0000_0000nat) + 0x4_0000_0000 * ((n + 1) * PRECISION)) + 17178836991 * ((
        s + 2 * n) * reach_factor()) + 0x10_0000 * reach_factor()),
        31 * m <= (y + 1) * PRECISION,
        z * PRECISION + y + 0x400_0000_0000_0000_0000 >= (y + 0x400_0000_0000_0000_0000)
            * PRECISION,
        tau * PRECISION + z + s >= (z + s) * PRECISION,
    ensures
        r <= tau,
{
    let (p, q, u) = (PRECISION as nat, reach_factor(), s + 2 * n);
    assert(u * q == 16 * (u * p) + 464 * u) by (nonlinear_arith)
        requires
            q == 16 * p + 464,
    ;
    assert(r * (0x20_0000_0000_0000 * p) == 0x20_0000_0000_0000 * (r * p)) by (nonlinear_arith);
    assert((n + 1) * p <= 1_000_000_001 * p);
    assert(0x20_0000_0000_0000 * (r * p) <= 32769 * (0x10_0000 * (483 * (16385 * m
        + 0x40_0000_0000_0000_0000nat) + 0x4_0000_0000 * (1_000_000_001 * p)) + 17178836991 * (u * q)
        + 0x10_0000 * q));
    assert(4 * (r * p) <= 121 * m + 0x4_0000_0000_0000 * p + 4 * (u * p) - u * 0x80_0000_0000);
    assert(124 * (r * p) <= 121 * ((y + 1) * p) + 31 * 0x4_0000_0000_0000 * p + 124 * (u * p) - 31
        * (u * 0x80_0000_0000));
}

/// The sum of the charges, against the slack.
proof fn lemma_charges_of_slack(sum: nat, s: nat, n: nat, t: nat)
    requires
        n <= MANY,
        (s + 2 * n) * t * PRECISION >= sum * (PRECISION - 4 * n),
    ensures
        sum * 0x10_0000 <= (s + 2 * n) * t * 0x10_0001,
{
    let p = PRECISION as nat;
    let x = (s + 2 * n) * t;
    assert(sum * (p - 4 * n) >= sum * (p - 4 * MANY)) by (nonlinear_arith)
        requires
            n <= MANY,
    ;
    assert(x * p >= sum * 9_007_195_254_740_992) by (nonlinear_arith)
        requires
            x * p >= sum * (p - 4 * MANY),
            p == 0x20_0000_0000_0000,
            MANY == 1_000_000_000,
    ;
}

/// The common denominator left out of the bound on the norm, where `f` bounds the errors of
/// the fold.
proof fn lemma_without_denominator(
    r: nat,
    f: nat,
    sum: nat,
    l: nat,
    n: nat,
    t: nat,
    den: nat,
    z: nat,
)
    requires
        den > 0,
        ({
            let s = t * (den * 0x4000);
            let k = s * (0x4_0000 * PRECISION);
            r * k * 0x8000 <= 32769 * (s * f + 0x4000 * (reach_factor() * l))
        }),
        l * (8192 * z) <= den * (16385 * (8191 * z * sum + n * pow2(1491))),
    ensures
        (r * t * (0x2_0000_0000 * PRECISION)) * (8192 * z) <= 32769 * ((t * f) * (8192 * z)
            + reach_factor() * (16385 * (8191 * z * sum + n * pow2(1491)))),
{
    let (p, q) = (PRECISION as nat, reach_factor());
    let big = 8192 * z;
    let s = t * (den * 0x4000);
    let k = s * (0x4_0000 * p);
    let reach = 16385 * (8191 * z * sum + n * pow2(1491));
    let x = r * t * (0x2_0000_0000 * p);
    let (tf, ql) = (t * f, q * l);
    assert(r * k * 0x8000 == 0x4000 * (x * den)) by (nonlinear_arith)
        requires
            k == t * (den * 0x4000) * (0x4_0000 * p),
            x == r * t * (0x2_0000_0000 * p),
    ;
    assert(s * f == 0x4000 * (tf * den)) by (nonlinear_arith)
        requires
            s == t * (den * 0x4000),
            tf == t * f,
    ;
    assert(x * den <= 32769 * (tf * den + ql));
    assert((x * den) * big <= (32769 * (tf * den + ql)) * big) by (nonlinear_arith)
        requires
            x * den <= 32769 * (tf * den + ql),
    ;
    assert((32769 * (tf * den + ql)) * big == 32769 * ((tf * den) * big + q * (l * big)))
        by (nonlinear_arith)
        requires
            ql == q * l,
    ;
    assert(q * (l * big) <= q * (den * reach)) by (nonlinear_arith)
        requires
            l * big <= den * reach,
    ;
    assert((tf * den) * big == (tf * big) * den) by (nonlinear_arith);
    assert(q * (den * reach) == (q * reach) * den) by (nonlinear_arith);
    let goal = 32769 * (tf * big + q * reach);
    assert(goal * den == 32769 * ((tf * big) * den + (q * reach) * den)) by (nonlinear_arith)
        requires
            goal == 32769 * (tf * big + q * reach),
    ;
    assert((x * den) * big == (x * big) * den) by (nonlinear_arith);
    lemma_mul_inequality_converse((x * big) as int, goal as int, den as int);
}

/// The numbers that are next to nothing left out of the bound on the norm.
proof fn lemma_without_traces(r: nat, f: nat, sum: nat, n: nat, t: nat, z: nat)
    requires
        n <= MANY,
        t == pow2(1074),
        z == pow2(600),
        (r * t * (0x2_0000_0000 * PRECISION)) * (8192 * z) <= 32769 * ((t * f) * (8192 * z)
            + reach_factor() * (16385 * (8191 * z * sum + n * pow2(1491)))),
    ensures
        r * t * (0x2_0000_0000 * PRECISION) <= 32769 * (t * f + reach_factor() * (16383 * sum)
            + reach_factor() * t),
{
    let (p, q) = (PRECISION as nat, reach_factor());
    let big = 8192 * z;
    let tf = t * f;
    let x = r * t * (0x2_0000_0000 * p);
    let w = pow2(1491);
    // The traces are below one least positive number.
    vstd::arithmetic::power2::lemma2_to64();
    lemma_pow2_adds(30, 1491);
    lemma_pow2_adds(15, 1521);
    lemma_pow2_adds(13, 600);
    lemma_pow2_adds(1074, 613);
    lemma_pow2_strictly_increases(1536, 1687);
    lemma_mul_inequality(n as int, MANY as int, w as int);
    assert(16385 * (n * w) <= t * big) by {
        assert(8192 * z == pow2(613));
        assert(n * w <= pow2(1521));
    }
    let zs = z * sum;
    assert(8191 * z * sum == 8191 * zs) by (nonlinear_arith)
        requires
            zs == z * sum,
    ;
    assert(16385 * (8191 * zs + n * w) <= 16383 * (8192 * zs) + t * big);
    assert(16383 * (8192 * zs) == (16383 * sum) * big) by (nonlinear_arith)
        requires
            zs == z * sum,
            big == 8192 * z,
    ;
    let a = 16383 * sum;
    assert(q * (16385 * (8191 * zs + n * w)) <= q * (a * big + t * big)) by (nonlinear_arith)
        requires
            16385 * (8191 * zs + n * w) <= a * big + t * big,
    ;
    assert(q * (a * big + t * big) == (q * a + q * t) * big) by (nonlinear_arith);
    let goal = 32769 * (tf + q * a + q * t);
    assert(goal * big == 32769 * (tf * big + (q * a + q * t) * big)) by (nonlinear_arith)
        requires
            goal == 32769 * (tf + q * a + q * t),
    ;
    assert(x * big <= goal * big);
    lemma_pow2_pos(613);
    lemma_mul_inequality_converse(x as int, goal as int, big as int);
}

/// The unit left out of the bound on the norm, with the slack in place of the charges.
proof fn lemma_without_unit(r: nat, f: nat, sum: nat, s: nat, n: nat, t: nat)
    requires
        t > 0,
        sum * 0x10_0000 <= (s + 2 * n) * t * 0x10_0001,
        r * t * (0x2_0000_0000 * PRECISION) <= 32769 * (t * f + reach_factor() * (16383 * sum)
            + reach_factor() * t),
    ensures
        r * (0x20_0000_0000_0000 * PRECISION) <= 32769 * (0x10_0000 * f + 17178836991 * ((s + 2
            * n) * reach_factor()) + 0x10_0000 * reach_factor()),
{
    let (p, q) = (PRECISION as nat, reach_factor());
    let u = s + 2 * n;
    assert(0x10_0000 * (q * (16383 * sum)) <= (17178836991 * (u * q)) * t) by (nonlinear_arith)
        requires
            sum * 0x10_0000 <= u * t * 0x10_0001,
    ;
    let x = r * (0x20_0000_0000_0000 * p);
    assert(0x10_0000 * (r * t * (0x2_0000_0000 * p)) == x * t) by (nonlinear_arith)
        requires
            x == r * (0x20_0000_0000_0000 * p),
    ;
    let goal = 32769 * (0x10_0000 * f + 17178836991 * (u * q) + 0x10_0000 * q);
    assert(goal * t == 32769 * (0x10_0000 * (t * f) + (17178836991 * (u * q)) * t + 0x10_0000 * (q
        * t))) by (nonlinear_arith)
        requires
            goal == 32769 * (0x10_0000 * f + 17178836991 * (u * q) + 0x10_0000 * q),
    ;
    assert(x * t <= goal * t);
    lemma_mul_inequality_converse(x as int, goal as int, t as int);
}

/// What the weights of a moving average and its windows are inside the domain.
pub(crate) proof fn lemma_setting(
    alpha: Binary64,
    embeddings: Seq<Seq<Binary64>>,
    coverages: Seq<Binary64>,
    dim: usize,
)
    requires
        input_error(embeddings, coverages, dim) is None,
        embeddings.len() <= MANY,
        dim <= WIDE,
        alpha_in_range(alpha),
        alpha.units() > 0,
        complement(alpha).units() > 0,
    ensures
        ({
            let n = embeddings.len();
            let weights = ladder(alpha, n);
            &&& weights.len() == n
            &&& round_ideals(weights, weight_units(alpha, n), unit())
            &&& forall|j: int| 0 <= j < dim ==> #[trigger] tame(weights, embeddings, j)
            &&& forall|l: int| 0 <= l < n ==> #[trigger] proper(alpha, n, l)
            &&& forall|l: int| 0 <= l < n ==> #[trigger] covered(alpha, n, l)
            &&& forall|l: int|
                0 <= l < n ==> {
                    &&& (#[trigger] embeddings[l]).len() == dim
                    &&& norm(embeddings[l]).is_finite()
                    &&& !norm(embeddings[l]).negative()
                    &&& norm(embeddings[l]).units() <= pow2(1491)
                    &&& square_sum(scaled_row(embeddings[l])) <= (16385 * norm(
                        embeddings[l],
                    ).units()) * (16385 * norm(embeddings[l]).units())
                }
        }),
{
    let n = embeddings.len();
    let weights = ladder(alpha, n);
    assert forall|l: int| 0 <= l < n implies #[trigger] proper(alpha, n, l) by {
        formation::weight_errors_are_covered(alpha, n, l);
    }
    assert forall|l: int| 0 <= l < n implies #[trigger] covered(alpha, n, l) by {
        formation::weight_errors_are_covered(alpha, n, l);
    }
    lemma_pow2_pos(1074);
    lemma_pow2_strictly_increases(1074, 1600);
    assert forall|i: int| 0 <= i < weights.len() implies (#[trigger] weights[i]).is_finite()
        && weights[i].units() <= pow2(1600) by {
        assert(proper(alpha, n, i));
    }
    refusal::lemma_domain_is_tame(weights, embeddings, coverages, dim);
    assert forall|i: int| 0 <= i < weights.len() implies #[trigger] rounds_ideal(
        weights[i],
        weight_units(alpha, n)[i],
        unit(),
    ) by {
        assert(proper(alpha, n, i));
        refusal::lemma_own_ideal(weights[i]);
    }
    laws::in_domain_components_are_finite(embeddings, coverages, dim);
    assert forall|l: int| 0 <= l < n implies {
        &&& (#[trigger] embeddings[l]).len() == dim
        &&& norm(embeddings[l]).is_finite()
        &&& !norm(embeddings[l]).negative()
        &&& norm(embeddings[l]).units() <= pow2(1491)
        &&& square_sum(scaled_row(embeddings[l])) <= (16385 * norm(embeddings[l]).units()) * (16385
            * norm(embeddings[l]).units())
    } by {
        let v = embeddings[l];
        assert forall|k: int| 0 <= k < v.len() implies (#[trigger] v[k]).is_finite()
            && magnitude_in_range(v[k]) && v[k].units() <= pow2(1474) by {
            assert(embeddings[l][k].is_finite() && magnitude_in_range(embeddings[l][k]));
            refusal::lemma_component_bound(v[k]);
        }
        refusal::lemma_window_norm(v);
        lemma_row_length(v);
    }
}

/// The reach of the gaps of the weights in every dimension.
pub open spec fn reaches(alpha: Binary64, embeddings: Seq<Seq<Binary64>>, dim: nat) -> Seq<int> {
    let n = embeddings.len();
    Seq::new(dim, |j: int| row_sum(gaps(alpha, n), scaled_rows(embeddings), j, n))
}

/// The reach of the gaps in every dimension, on the scale of the fold.
pub open spec fn scaled_reaches(
    alpha: Binary64,
    embeddings: Seq<Seq<Binary64>>,
    dim: nat,
) -> Seq<int> {
    Seq::new(dim, |j: int| reach_factor() * reaches(alpha, embeddings, dim)[j])
}

/// The arithmetic of the fold in one dimension: the error of the fold, and that of the
/// weights, which is all that there is to the exact sum `x`.
proof fn lemma_fold_arithmetic(r: int, x: int, t: nat, c: nat, g: nat)
    requires
        16 * (size(r * t - x) * PRECISION) <= t * g + 464 * size(x),
    ensures
        (t * c) * (16 * (size(r) * PRECISION)) <= (t * c) * g + size(reach_factor() * (c * x)),
{
    let (p, q) = (PRECISION as nat, reach_factor());
    let (u, v) = (size(r), size(x));
    lemma_size_times(r, t);
    let ut = u * t;
    assert(q * v == 16 * (v * p) + 464 * v) by (nonlinear_arith)
        requires
            q == 16 * p + 464,
    ;
    assert(16 * (ut * p) <= t * g + q * v);
    let (a, b) = (16 * (ut * p), t * g + q * v);
    assert(a * c <= b * c) by (nonlinear_arith)
        requires
            a <= b,
    ;
    assert(a * c == (t * c) * (16 * (u * p))) by (nonlinear_arith)
        requires
            a == 16 * (u * t * p),
    ;
    assert(b * c == (t * c) * g + (v * c) * q) by (nonlinear_arith)
        requires
            b == t * g + q * v,
    ;
    lemma_size_times(x, c);
    lemma_size_times(x * c, q);
    assert(q * (c * x) == x * c * q) by (nonlinear_arith);
}

/// The fold of windows that cancel in one dimension.
proof fn lemma_fold_component(
    alpha: Binary64,
    embeddings: Seq<Seq<Binary64>>,
    dim: nat,
    j: int,
)
    requires
        embeddings.len() <= MANY,
        0 <= j < dim,
        forall|i: int| 0 <= i < embeddings.len() ==> (#[trigger] embeddings[i]).len() == dim,
        round_ideals(
            ladder(alpha, embeddings.len()),
            weight_units(alpha, embeddings.len()),
            unit(),
        ),
        tame(ladder(alpha, embeddings.len()), embeddings, j),
        ideal_sum(ideal_ladder(alpha, embeddings.len()), embeddings, j, embeddings.len()) == 0,
    ensures
        ({
            let n = embeddings.len();
            let weights = ladder(alpha, n);
            let r = weighted_sum(weights, embeddings, dim)[j];
            let mag = masses(weights, embeddings, dim)[j];
            let s = unit() * (raised(unit(), n) * 0x4000);
            &&& r.is_finite()
            &&& r.units() <= pow2(2060)
            &&& mag.is_finite()
            &&& mag.units() <= pow2(2031)
            &&& s * (16 * (r.units() * PRECISION)) <= s * (483 * mag.units() + 16 * ((n + 1)
                * PRECISION)) + size(scaled_reaches(alpha, embeddings, dim)[j])
        }),
{
    let n = embeddings.len();
    let weights = ladder(alpha, n);
    let wu = weight_units(alpha, n);
    let (t, den) = (unit(), raised(unit(), n));
    accuracy::lemma_fold_error(weights, wu, t, embeddings, dim, j);
    accuracy::the_mass_is_accurate(weights, embeddings, dim, j);
    accuracy::the_fold_is_moderate(weights, embeddings, dim, j);
    lemma_gap_sum(alpha, embeddings, j, n);
    let r = weighted_sum(weights, embeddings, dim)[j];
    let mag = masses(weights, embeddings, dim)[j].units();
    let x = ideal_sum(wu, embeddings, j, n);
    let c = den * 0x4000;
    assert(0 * t == 0) by (nonlinear_arith);
    assert(0x4000 * (x * den) == c * x) by (nonlinear_arith)
        requires
            c == den * 0x4000,
    ;
    assert(reaches(alpha, embeddings, dim)[j] == c * x);
    lemma_fold_arithmetic(
        r.value(),
        x,
        t,
        c,
        483 * mag + 16 * ((n + 1) * PRECISION as nat),
    );
}

/// The fold of windows that cancel is dwarfed by its errors.
proof fn lemma_length(
    alpha: Binary64,
    embeddings: Seq<Seq<Binary64>>,
    coverages: Seq<Binary64>,
    dim: usize,
)
    requires
        input_error(embeddings, coverages, dim) is None,
        embeddings.len() <= MANY,
        dim <= WIDE,
        alpha_in_range(alpha),
        alpha.units() > 0,
        complement(alpha).units() > 0,
        forall|j: int|
            0 <= j < dim ==> #[trigger] ideal_sum(
                ideal_ladder(alpha, embeddings.len()),
                embeddings,
                j,
                embeddings.len(),
            ) == 0,
    ensures
        ({
            let n = embeddings.len();
            let weights = ladder(alpha, n);
            let sum = weighted_sum(weights, embeddings, dim as nat);
            let mass = masses(weights, embeddings, dim as nat);
            let l = reach_factor() * length_sum(gaps(alpha, n), scaled_lengths(embeddings), n);
            let extra = scaled_reaches(alpha, embeddings, dim as nat);
            &&& dwarfed(sum, mass, n, unit() * (raised(unit(), n) * 0x4000), extra)
            &&& square_sum(extra) <= l * l
        }),
{
    let n = embeddings.len();
    let weights = ladder(alpha, n);
    let sum = weighted_sum(weights, embeddings, dim as nat);
    let mass = masses(weights, embeddings, dim as nat);
    let extra = scaled_reaches(alpha, embeddings, dim as nat);
    let s = unit() * (raised(unit(), n) * 0x4000);
    lemma_setting(alpha, embeddings, coverages, dim);
    assert(dwarfed(sum, mass, n, s, extra)) by {
        reveal(dwarfed);
        assert forall|j: int| 0 <= j < sum.len() implies {
            &&& (#[trigger] sum[j]).is_finite()
            &&& sum[j].units() <= pow2(2060)
            &&& mass[j].is_finite()
            &&& mass[j].units() <= pow2(2031)
            &&& s * (16 * (sum[j].units() * PRECISION)) <= s * (483 * mass[j].units() + 16 * ((n
                + 1) * PRECISION)) + size(extra[j])
        } by {
            assert(tame(weights, embeddings, j));
            assert(ideal_sum(ideal_ladder(alpha, n), embeddings, j, n) == 0);
            lemma_fold_component(alpha, embeddings, dim as nat, j);
        }
    }
    // The errors of the weights.
    let l = length_sum(gaps(alpha, n), scaled_lengths(embeddings), n);
    assert forall|i: int| 0 <= i < n implies (#[trigger] scaled_rows(embeddings)[i]).len() == dim
        && square_sum(scaled_rows(embeddings)[i]) <= scaled_lengths(embeddings)[i]
        * scaled_lengths(embeddings)[i] by {
        assert(embeddings[i].len() == dim);
    }
    triangle::combinations_are_bounded(
        gaps(alpha, n),
        scaled_rows(embeddings),
        scaled_lengths(embeddings),
        dim as nat,
        n,
    );
    let (reach, q) = (reaches(alpha, embeddings, dim as nat), reach_factor());
    triangle::lengths_scale(reach, q as int);
    let sr = square_sum(reach);
    assert(q * q * sr <= (q * l) * (q * l)) by (nonlinear_arith)
        requires
            sr <= l * l,
    ;
    assert(extra =~= Seq::new(reach.len(), |j: int| q * reach[j]));
}

/// Windows that cancel are at or below the threshold, with what is charged for the weights.
#[verifier::spinoff_prover]
#[verifier::rlimit(30)]
proof fn lemma_refused(
    alpha: Binary64,
    embeddings: Seq<Seq<Binary64>>,
    coverages: Seq<Binary64>,
    dim: usize,
)
    requires
        input_error(embeddings, coverages, dim) is None,
        embeddings.len() <= MANY,
        dim <= WIDE,
        alpha_in_range(alpha),
        alpha.units() > 0,
        complement(alpha).units() > 0,
        forall|j: int|
            0 <= j < dim ==> #[trigger] ideal_sum(
                ideal_ladder(alpha, embeddings.len()),
                embeddings,
                j,
                embeddings.len(),
            ) == 0,
    ensures
        ({
            let n = embeddings.len();
            let weights = ladder(alpha, n);
            let slack = slack_of(weights, embeddings, alpha, complement(alpha), n);
            threshold(masses(weights, embeddings, dim as nat), slack).at_least(
                norm(weighted_sum(weights, embeddings, dim as nat)),
            )
        }),
{
    let n = embeddings.len();
    let weights = ladder(alpha, n);
    let slack = slack_of(weights, embeddings, alpha, complement(alpha), n);
    let sum = weighted_sum(weights, embeddings, dim as nat);
    let mass = masses(weights, embeddings, dim as nat);
    let (t, den, z) = (unit(), raised(unit(), n), pow2(600));
    lemma_setting(alpha, embeddings, coverages, dim);
    lemma_length(alpha, embeddings, coverages, dim);
    lemma_slack(alpha, embeddings, n);
    lemma_reach(alpha, embeddings, n);
    let s = t * (den * 0x4000);
    let extra = scaled_reaches(alpha, embeddings, dim as nat);
    cancellation::lemma_dwarfed(sum, mass, n, s, extra);
    lemma_pow2_strictly_increases(2031, 2070);
    cancellation::lemma_norm_is_a_number(mass);
    cancellation::lemma_own_threshold(mass);
    let own = own_threshold(mass);
    cancellation::lemma_sum_grows(own, slack);
    let tau = threshold(mass, slack);
    assert(tau == own.plus(slack));
    let charged = charged_sum(alpha, embeddings, n);
    lemma_slack_room(slack.units(), charged, n, t, t * pow2(1491));
    lemma_pow2_strictly_increases(1530, 2092);
    lemma_pow2_unfold(2093);
    lemma_pow2_strictly_increases(2093, 2097);
    roundoff::lemma_sum_error(own, slack);
    let r = norm(sum);
    assert(r.is_finite() && !r.negative() && r.units() <= tau.units()) by {
        if largest(sum).units() < pow2(40) {
            cancellation::lemma_tiny_norm(sum);
            lemma_pow2_strictly_increases(57, 74);
            exact::lemma_order(tau.magnitude() as nat, own.magnitude() as nat);
        } else {
            lemma_pow2_strictly_increases(2060, 2070);
            bounds::norms_are_accurate(sum);
            let m = norm(mass).units();
            let k = s * (0x4_0000 * PRECISION as nat);
            let l = length_sum(gaps(alpha, n), scaled_lengths(embeddings), n);
            let q = reach_factor() * l;
            cancellation::lemma_dwarfed_length(sum, mass, n, s, extra, q);
            let bound = cancellation::dwarfed_length(mass, n, s, q);
            cancellation::lemma_norm_of_errors(r.units(), energy(sum), k, bound);
            let f = 483 * (16385 * m + 0x40_0000_0000_0000_0000nat) + 0x4_0000_0000 * ((n + 1)
                * PRECISION as nat);
            lemma_pow2_pos(1074);
            formation::lemma_raised_positive(t, n);
            lemma_without_denominator(r.units(), f, charged, l, n, t, den, z);
            lemma_without_traces(r.units(), f, charged, n, t, z);
            lemma_charges_of_slack(charged, slack.units(), n, t);
            lemma_without_unit(r.units(), f, charged, slack.units(), n, t);
            vstd::arithmetic::power2::lemma2_to64();
            vstd::arithmetic::power2::lemma2_to64_rest();
            lemma_pow2_adds(10, 64);
            lemma_below_threshold(
                r.units(),
                m,
                slack.units(),
                n,
                relative_part(mass).units(),
                own.units(),
                tau.units(),
            );
        }
    }
    exact::lemma_order(tau.magnitude() as nat, r.magnitude() as nat);
}

/// At both ends of the range of the smoothing factor every weight is its ideal.
pub(crate) proof fn lemma_ends(alpha: Binary64, n: nat, i: int)
    requires
        alpha_in_range(alpha),
        alpha.units() == 0 || complement(alpha).units() == 0,
        0 <= i < n,
    ensures
        gap(alpha, n, i) == 0,
        ladder(alpha, n)[i].is_finite(),
        ladder(alpha, n)[i].negative() ==> ladder(alpha, n)[i].units() == 0,
        ladder(alpha, n)[i].units() <= unit(),
{
    let (t, e, a) = (unit(), exact_complement(alpha), alpha.units());
    let b = complement(alpha);
    let k = (n - 1 - i) as nat;
    let den = raised(t, n);
    chain::lemma_complement(alpha);
    laws::lemma_one_units();
    lemma_pow2_pos(1074);
    assert(units64(0) == 0);
    let w = ladder(alpha, n)[i];
    let rest = raised(t, i as nat);
    assert(0 * den == 0) by (nonlinear_arith);
    if a == 0 {
        exact::lemma_order(0, alpha.magnitude() as nat);
        roundoff::lemma_power_value(1074);
        exact::lemma_order(b.magnitude() as nat, one().magnitude() as nat);
        assert(b == one());
        laws::lemma_powers_of_one(k);
        if i == 0 {
            let r = raised(t, k);
            assert(t * (r * t) == (r * t) * t) by (nonlinear_arith);
        } else {
            laws::lemma_zero_times(alpha, one());
            let r = raised(e, k);
            assert(0 * r * rest == 0) by (nonlinear_arith);
            assert(0 * t == 0) by (nonlinear_arith);
        }
    } else {
        // The smoothing factor is one.
        assert(e == 0);
        exact::lemma_order(alpha.magnitude() as nat, one().magnitude() as nat);
        assert(alpha == one());
        exact::lemma_order(0, b.magnitude() as nat);
        assert(b == zero());
        laws::lemma_powers_of_zero(k);
        if k == 0 {
            laws::lemma_one_times(one());
            assert(raised(e, 0) == 1);
            if i == 0 {
                assert(t * (1 * t) == (1 * t) * t) by (nonlinear_arith);
            } else {
                assert(raised(t, n) == rest * t);
                assert(t * (rest * t) == (t * 1 * rest) * t) by (nonlinear_arith);
            }
        } else {
            let r = raised(e, (k - 1) as nat);
            assert(r * 0 == 0) by (nonlinear_arith);
            assert(raised(e, k) == 0);
            if i == 0 {
                assert((0 * t) * t == 0) by (nonlinear_arith);
            } else {
                laws::lemma_zero_times(power(b, k), one());
                assert((a * 0 * rest) * t == 0) by (nonlinear_arith);
            }
        }
    }
}

/// A weight of a moving average is a number between zero and one.
pub proof fn moving_average_weights_are_fractions(alpha: Binary64, n: nat, i: int)
    requires
        alpha_in_range(alpha),
        0 <= i < n <= MANY,
    ensures
        ladder(alpha, n)[i].is_finite(),
        ladder(alpha, n)[i].negative() ==> ladder(alpha, n)[i].units() == 0,
        ladder(alpha, n)[i].units() <= unit(),
{
    if alpha.units() == 0 || complement(alpha).units() == 0 {
        lemma_ends(alpha, n, i);
    } else {
        formation::weight_errors_are_covered(alpha, n, i);
    }
}

/// What the weights of the first `m` windows are off by in dimension `j`: the size of each
/// gap times the component.
pub open spec fn reach(alpha: Binary64, embeddings: Seq<Seq<Binary64>>, j: int, m: nat) -> nat
    decreases m,
{
    if m == 0 {
        0
    } else {
        reach(alpha, embeddings, j, (m - 1) as nat) + size(gap(alpha, embeddings.len(), m - 1))
            * embeddings[m - 1][j].units()
    }
}

/// The sum over the weights is within their reach of the one over their ideals.
pub(crate) proof fn lemma_gap_reach(alpha: Binary64, embeddings: Seq<Seq<Binary64>>, j: int, m: nat)
    requires
        m <= embeddings.len(),
    ensures
        ({
            let n = embeddings.len();
            size(
                ideal_sum(weight_units(alpha, n), embeddings, j, m) * raised(unit(), n)
                    - ideal_sum(ideal_ladder(alpha, n), embeddings, j, m) * unit(),
            ) <= reach(alpha, embeddings, j, m)
        }),
    decreases m,
{
    let n = embeddings.len();
    let (den, t) = (raised(unit(), n), unit());
    if m == 0 {
        assert(0 * den == 0 && 0 * t == 0) by (nonlinear_arith);
    } else {
        let k = (m - 1) as nat;
        lemma_gap_reach(alpha, embeddings, j, k);
        let i = m - 1;
        let x = embeddings[i][j].value();
        let (w, q) = (weight_units(alpha, n)[i], ideal_ladder(alpha, n)[i]);
        let (s, r) = (
            ideal_sum(weight_units(alpha, n), embeddings, j, k),
            ideal_sum(ideal_ladder(alpha, n), embeddings, j, k),
        );
        let g = w * den - q * t;
        assert(gap(alpha, n, i) == g);
        assert((s + w * x) * den - (r + q * x) * t == (s * den - r * t) + g * x)
            by (nonlinear_arith)
            requires
                g == w * den - q * t,
        ;
        let u = embeddings[i][j].units();
        lemma_size_times(g, u);
        assert(g * (-(u as int)) == -(g * u)) by (nonlinear_arith);
        assert(x == u || x == -(u as int));
    }
}

/// The moving average is accurate: in every dimension it is within four units of roundoff of
/// the mass of its terms, one least positive number for each window, and the reach of the
/// gaps of its weights, of the exact one, which has the ideal weights. What a gap is at most
/// is the charge for its weight.
pub proof fn the_moving_average_is_accurate(
    alpha: Binary64,
    embeddings: Seq<Seq<Binary64>>,
    coverages: Seq<Binary64>,
    dim: usize,
    j: int,
)
    requires
        alpha_in_range(alpha),
        input_error(embeddings, coverages, dim) is None,
        embeddings.len() <= FEW,
        0 <= j < dim,
    ensures
        ({
            let n = embeddings.len();
            let (t, den) = (unit(), raised(unit(), n));
            let weights = ladder(alpha, n);
            let r = weighted_sum(weights, embeddings, dim as nat)[j];
            let mass = exact_mass(weights, embeddings, j, n);
            &&& r.is_finite()
            &&& size(r.value() * den - ideal_sum(ideal_ladder(alpha, n), embeddings, j, n)) * t
                * PRECISION <= den * t * (8 * mass + n * PRECISION) + reach(
                alpha,
                embeddings,
                j,
                n,
            ) * PRECISION
        }),
{
    let n = embeddings.len();
    let (t, den, p) = (unit(), raised(unit(), n), PRECISION as nat);
    let weights = ladder(alpha, n);
    let wu = weight_units(alpha, n);
    lemma_pow2_pos(1074);
    lemma_pow2_strictly_increases(1074, 1600);
    assert forall|i: int| 0 <= i < weights.len() implies {
        &&& (#[trigger] weights[i]).is_finite()
        &&& weights[i].units() <= pow2(1600)
        &&& weights[i].negative() ==> weights[i].units() == 0
    } by {
        moving_average_weights_are_fractions(alpha, n, i);
    }
    refusal::lemma_domain_is_tame(weights, embeddings, coverages, dim);
    assert(tame(weights, embeddings, j));
    assert forall|i: int| 0 <= i < weights.len() implies #[trigger] rounds_ideal(
        weights[i],
        wu[i],
        t,
    ) by {
        refusal::lemma_own_ideal(weights[i]);
    }
    accuracy::the_fold_is_accurate(weights, wu, t, embeddings, dim as nat, j);
    lemma_gap_reach(alpha, embeddings, j, n);
    let r = weighted_sum(weights, embeddings, dim as nat)[j].value();
    let (x, ideal) = (
        ideal_sum(wu, embeddings, j, n),
        ideal_sum(ideal_ladder(alpha, n), embeddings, j, n),
    );
    let f = 8 * exact_mass(weights, embeddings, j, n) + n * p;
    lemma_both_parts(r, x, ideal, t, den, p, f, reach(alpha, embeddings, j, n));
}

/// The error of the fold and that of the weights together.
proof fn lemma_both_parts(
    r: int,
    x: int,
    ideal: int,
    t: nat,
    den: nat,
    p: nat,
    f: nat,
    reach: nat,
)
    requires
        size(r * t - x) * p <= t * f,
        size(x * den - ideal * t) <= reach,
    ensures
        size(r * den - ideal) * t * p <= den * t * f + reach * p,
{
    let (a, b) = (r * t - x, x * den - ideal * t);
    assert((r * den - ideal) * t == a * den + b) by (nonlinear_arith)
        requires
            a == r * t - x,
            b == x * den - ideal * t,
    ;
    lemma_size_times(r * den - ideal, t);
    lemma_size_times(a, den);
    let (d, s) = (size(r * den - ideal) * t, size(a));
    assert(d <= s * den + reach);
    assert(d * p <= (s * den + reach) * p) by (nonlinear_arith)
        requires
            d <= s * den + reach,
    ;
    assert((s * den + reach) * p == den * (s * p) + reach * p) by (nonlinear_arith);
    assert(den * (s * p) <= den * (t * f)) by (nonlinear_arith)
        requires
            s * p <= t * f,
    ;
    assert(den * (t * f) == den * t * f) by (nonlinear_arith);
}

/// Windows that cancel at an end of the range of the smoothing factor are refused.
proof fn lemma_refused_at_the_ends(
    alpha: Binary64,
    embeddings: Seq<Seq<Binary64>>,
    coverages: Seq<Binary64>,
    dim: usize,
)
    requires
        input_error(embeddings, coverages, dim) is None,
        embeddings.len() <= MANY,
        dim <= WIDE,
        alpha_in_range(alpha),
        alpha.units() == 0 || complement(alpha).units() == 0,
        forall|j: int|
            0 <= j < dim ==> #[trigger] ideal_sum(
                ideal_ladder(alpha, embeddings.len()),
                embeddings,
                j,
                embeddings.len(),
            ) == 0,
    ensures
        folded(ladder(alpha, embeddings.len()), embeddings, dim as nat, zero()) == Err::<
            Seq<Binary64>,
            WinditError,
        >(WinditError::NonFinite),
{
    let n = embeddings.len();
    let weights = ladder(alpha, n);
    let wu = weight_units(alpha, n);
    let den = raised(unit(), n);
    lemma_pow2_pos(1074);
    lemma_pow2_strictly_increases(1074, 1600);
    formation::lemma_raised_positive(unit(), n);
    assert forall|i: int| 0 <= i < weights.len() implies (#[trigger] weights[i]).is_finite()
        && weights[i].units() <= pow2(1600) by {
        lemma_ends(alpha, n, i);
    }
    assert forall|i: int| 0 <= i < weights.len() implies #[trigger] rounds_ideal(
        weights[i],
        wu[i],
        unit(),
    ) by {
        lemma_ends(alpha, n, i);
        refusal::lemma_own_ideal(weights[i]);
    }
    refusal::lemma_domain_is_tame(weights, embeddings, coverages, dim);
    laws::in_domain_components_are_finite(embeddings, coverages, dim);
    assert forall|j: int| 0 <= j < dim implies #[trigger] ideal_sum(wu, embeddings, j, n) == 0 by {
        assert(ideal_sum(ideal_ladder(alpha, n), embeddings, j, n) == 0);
        lemma_gap_sum(alpha, embeddings, j, n);
        lemma_no_gaps(alpha, embeddings, j, n);
        let s = ideal_sum(wu, embeddings, j, n);
        assert(0 * unit() == 0) by (nonlinear_arith);
        assert(s * den == 0);
        assert(s == 0) by (nonlinear_arith)
            requires
                s * den == 0,
                den > 0,
        ;
    }
    assert(units64(0) == 0);
    cancellation::exact_cancellation_is_refused(
        weights,
        wu,
        unit(),
        embeddings,
        dim as nat,
        zero(),
    );
}

/// At both ends of the range there is nothing to add up.
proof fn lemma_no_gaps(alpha: Binary64, embeddings: Seq<Seq<Binary64>>, j: int, m: nat)
    requires
        alpha_in_range(alpha),
        alpha.units() == 0 || complement(alpha).units() == 0,
        m <= embeddings.len(),
    ensures
        row_sum(gaps(alpha, embeddings.len()), scaled_rows(embeddings), j, m) == 0,
    decreases m,
{
    if m > 0 {
        lemma_no_gaps(alpha, embeddings, j, (m - 1) as nat);
        lemma_ends(alpha, embeddings.len(), m - 1);
        let x = scaled_rows(embeddings)[m - 1][j];
        assert(0 * x == 0) by (nonlinear_arith);
    }
}

/// What is charged for the weights: nothing at an end of the range of the smoothing factor.
#[verifier::spinoff_prover]
#[verifier::rlimit(40)]
pub(crate) proof fn lemma_formation_slack(alpha: Binary64, embeddings: Seq<Seq<Binary64>>)
    requires
        alpha_in_range(alpha),
    ensures
        ({
            let n = embeddings.len();
            let (weights, b) = (ladder(alpha, n), complement(alpha));
            formation_slack(weights, embeddings, alpha, b) == if alpha.units() == 0 || b.units()
                == 0 {
                zero()
            } else {
                slack_of(weights, embeddings, alpha, b, n)
            }
        }),
{
    chain::lemma_complement(alpha);
    assert(units64(0) == 0);
    exact::lemma_order(0, alpha.magnitude() as nat);
    exact::lemma_order(0, complement(alpha).magnitude() as nat);
}

/// The fold of windows that cancel refuses them.
proof fn lemma_no_fold(
    alpha: Binary64,
    embeddings: Seq<Seq<Binary64>>,
    coverages: Seq<Binary64>,
    dim: usize,
    slack: Binary64,
)
    requires
        alpha_in_range(alpha),
        input_error(embeddings, coverages, dim) is None,
        embeddings.len() <= MANY,
        dim <= WIDE,
        forall|j: int|
            0 <= j < dim ==> #[trigger] ideal_sum(
                ideal_ladder(alpha, embeddings.len()),
                embeddings,
                j,
                embeddings.len(),
            ) == 0,
        slack == formation_slack(
            ladder(alpha, embeddings.len()),
            embeddings,
            alpha,
            complement(alpha),
        ),
    ensures
        folded(ladder(alpha, embeddings.len()), embeddings, dim as nat, slack) == Err::<
            Seq<Binary64>,
            WinditError,
        >(WinditError::NonFinite),
{
    lemma_formation_slack(alpha, embeddings);
    if alpha.units() == 0 || complement(alpha).units() == 0 {
        lemma_refused_at_the_ends(alpha, embeddings, coverages, dim);
    } else {
        lemma_refused(alpha, embeddings, coverages, dim);
    }
}

/// Windows that cancel exactly when they are weighted by the ideal weights of a moving
/// average have none: neither the roundings of the fold, nor those in the formation of the
/// weights, make up a direction.
pub proof fn cancelling_windows_have_no_moving_average(
    ema: EmaRenormalized<Binary64>,
    embeddings: Seq<Seq<Binary64>>,
    coverages: Seq<Binary64>,
    dim: usize,
    r: Result<Vec<Binary64>, WinditError>,
)
    requires
        alpha_in_range(ema.alpha()),
        input_error(embeddings, coverages, dim) is None,
        embeddings.len() <= MANY,
        dim <= WIDE,
        forall|j: int|
            0 <= j < dim ==> #[trigger] ideal_sum(
                ideal_ladder(ema.alpha(), embeddings.len()),
                embeddings,
                j,
                embeddings.len(),
            ) == 0,
        ema.aggregates(embeddings, coverages, dim, r),
    ensures
        no_direction(r),
{
    let alpha = ema.alpha();
    let slack = formation_slack(
        ladder(alpha, embeddings.len()),
        embeddings,
        alpha,
        complement(alpha),
    );
    lemma_no_fold(alpha, embeddings, coverages, dim, slack);
}

} // verus!
