//! Where an aggregate points: along the exact weighted sum of its windows.
//!
//! Everything here is stated in least positive numbers, as exact integers.
use vstd::arithmetic::mul::{lemma_mul_inequality, lemma_mul_strictly_positive};
use vstd::arithmetic::power2::{
    lemma_pow2_pos, lemma_pow2_strictly_increases, lemma_pow2_unfold, pow2,
};
use vstd::prelude::*;

use crate::aggregate::accuracy::{
    self, exact_mass, ideal_sum, round_ideals, rounds_ideal, tame, term, FEW,
};
use crate::aggregate::bounds::{self, energy, VAST, WIDE};
use crate::aggregate::domain::{input_error, magnitude_in_range};
use crate::aggregate::fold::{folded, weighted_sum};
use crate::aggregate::laws::{self, one};
use crate::aggregate::length;
use crate::aggregate::norm::{direction, largest, norm, squares};
use crate::aggregate::policy::{
    coverage_weights, lift, saliency_weights, uniform_weights, AggregatePolicy,
    CoverageWeightedMean, MeanRenormalized, SaliencyWeighted,
};
use crate::aggregate::ratios;
use crate::aggregate::refusal::{self, lifted_shares, ones, saliencies, shares};
use crate::arith::nearest;
use crate::binary::Binary64;
use crate::close::{lemma_size_times, near};
use crate::exact::{self, size};
use crate::rounding::units64;
use crate::roundoff::{self, PRECISION};

verus! {

/// One quotient with its sign: within two half units of roundoff, and one least positive number,
/// of the exact one.
proof fn lemma_signed_quotient(y: Binary64, x: Binary64)
    requires
        x.is_finite(),
        !x.negative(),
        x.units() >= 1,
        y.is_finite(),
        y.units() <= 2 * x.units(),
    ensures
        y.over(x).is_finite(),
        size(y.over(x).value() * x.units() - y.value() * pow2(1074)) * PRECISION <= 2 * (y.units()
            * pow2(1074)) + PRECISION * x.units(),
{
    let (u, g, t) = (y.units(), x.units(), pow2(1074));
    length::lemma_quotient(y, x);
    lemma_pow2_pos(1074);
    assert(units64(0) == 0);
    exact::lemma_order(0, x.magnitude() as nat);
    let a = u * t;
    let mag = nearest(a, g);
    exact::every_ratio_has_a_nearest_value(a, g);
    exact::lemma_signed_value(y.negative() != x.negative(), mag);
    bounds::lemma_ratio_error(a, g);
    let q = y.over(x).units();
    assert(q == units64(mag));
    if y.negative() {
        assert((-(q as int)) * g == -(q * g)) by (nonlinear_arith);
        assert((-(u as int)) * t == -(u * t)) by (nonlinear_arith);
    }
}

/// The arithmetic of a component divided twice: by the scale `g`, and by the scaled norm `u`.
#[verifier::spinoff_prover]
#[verifier::rlimit(40)]
proof fn lemma_twice_divided(o: int, r: int, s: int, u: nat, g: nat, t: nat)
    requires
        t <= u,
        size(r * g - s * t) * PRECISION <= 2 * (size(s) * t) + PRECISION * g,
        size(o * u - r * t) * PRECISION <= 2 * (size(r) * t) + PRECISION * u,
    ensures
        size(o * (u * g) - s * (t * t)) * PRECISION <= 5 * (size(s) * (t * t)) + 3 * (PRECISION * (u
            * g)),
{
    let p = PRECISION as nat;
    let (a, b) = (o * u - r * t, r * g - s * t);
    assert(o * (u * g) - s * (t * t) == a * g + b * t) by (nonlinear_arith)
        requires
            a == o * u - r * t,
            b == r * g - s * t,
    ;
    lemma_size_times(a, g);
    lemma_size_times(b, t);
    let (sa, sb) = (size(a), size(b));
    let e = size(o * (u * g) - s * (t * t));
    assert(e <= sa * g + sb * t);
    let (rt, st) = (size(r) * t, size(s) * t);
    let (ug, tg, stt, rtg) = (u * g, t * g, st * t, rt * g);
    assert((sa * g) * p <= 2 * rtg + p * ug) by (nonlinear_arith)
        requires
            sa * p <= 2 * rt + p * u,
            rtg == rt * g,
            ug == u * g,
    ;
    assert((sb * t) * p <= 2 * stt + p * tg) by (nonlinear_arith)
        requires
            sb * p <= 2 * st + p * g,
            stt == st * t,
            tg == t * g,
    ;
    assert(e * p <= (sa * g) * p + (sb * t) * p) by (nonlinear_arith)
        requires
            e <= sa * g + sb * t,
    ;
    // The quotient by the scale against the component.
    lemma_size_times(r, g);
    lemma_size_times(s, t);
    assert(size(r) * g <= st + sb);
    assert(rtg <= stt + sb * t) by (nonlinear_arith)
        requires
            size(r) * g <= st + sb,
            rtg == size(r) * t * g,
            stt == st * t,
    ;
    assert(tg <= ug) by (nonlinear_arith)
        requires
            t <= u,
            tg == t * g,
            ug == u * g,
    ;
    let sbt = sb * t;
    assert(sbt * p <= 2 * stt + p * tg);
    assert(2 * sbt <= stt + 2 * tg);
    assert(p * tg <= p * ug) by (nonlinear_arith)
        requires
            tg <= ug,
    ;
    assert(4 * tg <= p * ug) by (nonlinear_arith)
        requires
            tg <= ug,
            p >= 4,
    ;
    assert(size(s) * (t * t) == stt) by (nonlinear_arith)
        requires
            stt == size(s) * t * t,
    ;
    assert(e * p <= 5 * stt + 3 * (p * ug));
}

/// A normalized vector points along the vector it was made of: every component, times one common
/// number, is within five half units of roundoff, and three least positive numbers, of it.
#[verifier::spinoff_prover]
#[verifier::rlimit(40)]
pub proof fn directions_are_proportional(v: Seq<Binary64>) -> (m: nat)
    requires
        v.len() <= VAST,
        forall|i: int| 0 <= i < v.len() ==> (#[trigger] v[i]).is_finite(),
        0 < largest(v).units(),
    ensures
        m > 0,
        near(m * m, energy(v) * (pow2(1074) * pow2(1074)), 26 + 2 * v.len()),
        direction(v) is Ok,
        direction(v)->Ok_0.len() == v.len(),
        forall|j: int|
            0 <= j < v.len() ==> size(
                (#[trigger] direction(v)->Ok_0[j]).value() * m - v[j].value() * (pow2(1074) * pow2(
                    1074,
                )),
            ) * PRECISION <= 5 * (v[j].units() * (pow2(1074) * pow2(1074))) + 3 * (PRECISION * m),
{
    let t = pow2(1074);
    lemma_pow2_pos(1074);
    length::lemma_scaled_norm(v);
    length::normalized_vectors_have_unit_length(v);
    bounds::lemma_largest_is_attained(v);
    let e = largest(v).exponent();
    let s = one().scaled(e);
    let g = pow2((e + 1074) as nat);
    lemma_pow2_pos((e + 1074) as nat);
    lemma_pow2_unfold(1075);
    bounds::lemma_unit_of_scale(e);
    let x = squares(v, s).root();
    let u = x.units();
    let m = u * g;
    lemma_mul_strictly_positive(u as int, g as int);
    assert(m * m == (u * u) * (g * g)) by (nonlinear_arith)
        requires
            m == u * g,
    ;
    let out = direction(v)->Ok_0;
    assert forall|j: int| 0 <= j < v.len() implies size(
        (#[trigger] out[j]).value() * m - v[j].value() * (t * t),
    ) * PRECISION <= 5 * (v[j].units() * (t * t)) + 3 * (PRECISION * m) by {
        assert(v[j].units() <= largest(v).units());
        let r = v[j].over(s);
        assert(out[j] == r.over(x));
        lemma_signed_quotient(v[j], s);
        length::lemma_quotient(v[j], s);
        lemma_signed_quotient(r, x);
        lemma_twice_divided(out[j].value(), r.value(), v[j].value(), u, g, t);
    }
    m
}

/// The exact sum, over the first `n` windows, of the sizes of the components times given
/// weights.
pub open spec fn ideal_mass(
    ideal: Seq<nat>,
    embeddings: Seq<Seq<Binary64>>,
    j: int,
    n: nat,
) -> nat
    decreases n,
{
    if n == 0 {
        0
    } else {
        ideal_mass(ideal, embeddings, j, (n - 1) as nat) + ideal[n - 1] * embeddings[n
            - 1][j].units()
    }
}

/// A sum is at most its mass.
pub proof fn sums_are_within_their_mass(
    ideal: Seq<nat>,
    embeddings: Seq<Seq<Binary64>>,
    j: int,
    n: nat,
)
    ensures
        size(ideal_sum(ideal, embeddings, j, n)) <= ideal_mass(ideal, embeddings, j, n),
    decreases n,
{
    if n > 0 {
        sums_are_within_their_mass(ideal, embeddings, j, (n - 1) as nat);
        let (a, x) = (ideal[n - 1], embeddings[n - 1][j]);
        let u = x.units() as int;
        assert(a * (-u) == -(a * u)) by (nonlinear_arith);
        assert(a * u >= 0) by (nonlinear_arith)
            requires
                u >= 0,
        ;
    }
}

/// The mass of the rounded terms against that of the exact ones.
pub(crate) proof fn lemma_mass_of_terms(
    weights: Seq<Binary64>,
    ideal: Seq<nat>,
    denominator: nat,
    embeddings: Seq<Seq<Binary64>>,
    j: int,
    n: nat,
)
    requires
        n <= embeddings.len() == weights.len(),
        round_ideals(weights, ideal, denominator),
        tame(weights, embeddings, j),
    ensures
        16 * (size(
            exact_mass(weights, embeddings, j, n) * denominator - ideal_mass(
                ideal,
                embeddings,
                j,
                n,
            ),
        ) * PRECISION) <= denominator * (33 * exact_mass(weights, embeddings, j, n) + 16 * (n
            * PRECISION)),
    decreases n,
{
    if n == 0 {
        assert(0 * denominator == 0 && denominator * 0 == 0) by (nonlinear_arith);
    } else {
        let k = (n - 1) as nat;
        lemma_mass_of_terms(weights, ideal, denominator, embeddings, j, k);
        let (w, x) = (weights[n - 1], embeddings[n - 1][j]);
        assert(rounds_ideal(weights[n - 1], ideal[n - 1], denominator));
        assert(embeddings[n - 1][j].is_finite());
        lemma_pow2_pos(1074);
        lemma_pow2_strictly_increases(2000, 2097);
        lemma_mul_inequality(pow2(2000) as int, pow2(2097) as int, pow2(1074) as int);
        roundoff::lemma_product_error(w, x);
        let y = term(weights, embeddings, n - 1, j).units();
        let i = ideal[n - 1];
        accuracy::lemma_term_arithmetic(y, w.units(), x.units(), i, denominator, pow2(1074));
        let (m, f) = (
            exact_mass(weights, embeddings, j, k),
            ideal_mass(ideal, embeddings, j, k),
        );
        let p = PRECISION as nat;
        let (a, b) = (m * denominator - f, y * denominator - i * x.units());
        assert((m + y) * denominator == m * denominator + y * denominator) by (nonlinear_arith);
        assert(size(a + b) <= size(a) + size(b));
        assert(denominator * (33 * (m + y) + 16 * (n * p)) == denominator * (33 * m + 16 * (k * p))
            + denominator * (33 * y + 16 * p)) by (nonlinear_arith)
            requires
                n == k + 1,
        ;
    }
}

/// The arithmetic of one component of an aggregate, against the exact sum `x` of the mass `f`
/// over the denominator `den`: `s` is the computed sum, `e` the mass of its terms, and `o` the
/// component of the direction.
#[verifier::spinoff_prover]
#[verifier::rlimit(60)]
proof fn lemma_heading_arithmetic(
    o: int,
    s: int,
    x: int,
    e: nat,
    f: nat,
    den: nat,
    m: nat,
    t2: nat,
    n: nat,
)
    requires
        size(x) <= f,
        size(o * m - s * t2) * PRECISION <= 5 * (size(s) * t2) + 3 * (PRECISION * m),
        size(s * den - x) * PRECISION <= den * (8 * e + n * PRECISION),
        16 * (size(e * den - f) * PRECISION) <= den * (33 * e + 16 * (n * PRECISION)),
    ensures
        size(o * (m * den) - x * t2) * PRECISION <= t2 * (16 * f + 2 * (PRECISION * (n * den))) + 3
            * (PRECISION * (m * den)),
{
    let p = PRECISION as nat;
    let (ed, nd, md) = (e * den, n * den, m * den);
    let np = n * p;
    assert(den * (8 * e + np) == 8 * ed + p * nd) by (nonlinear_arith)
        requires
            ed == e * den,
            nd == n * den,
            np == n * p,
    ;
    assert(den * (33 * e + 16 * np) == 33 * ed + 16 * (p * nd)) by (nonlinear_arith)
        requires
            ed == e * den,
            nd == n * den,
            np == n * p,
    ;
    let (d1, d2) = (o * m - s * t2, s * den - x);
    let (s1, s2) = (size(d1), size(d2));
    // The mass.
    assert(16 * ((ed - f) * p) <= 33 * ed + 16 * (p * nd)) by {
        assert((ed - f) * p <= size(ed - f) * p) by (nonlinear_arith)
            requires
                ed - f <= size(ed - f),
        ;
    }
    assert(8 * ed <= 9 * (f + nd)) by (nonlinear_arith)
        requires
            16 * ((ed - f) * p) <= 33 * ed + 16 * (p * nd),
            p == 0x20_0000_0000_0000,
    ;
    // The computed sum.
    lemma_size_times(s, den);
    let sd = size(s) * den;
    assert(sd <= f + s2);
    assert(5 * s2 <= ed + 5 * nd) by (nonlinear_arith)
        requires
            s2 * p <= 8 * ed + p * nd,
            p == 0x20_0000_0000_0000,
    ;
    // Both errors on one scale.
    assert(o * md - x * t2 == d1 * den + d2 * t2) by (nonlinear_arith)
        requires
            md == m * den,
            d1 == o * m - s * t2,
            d2 == s * den - x,
    ;
    lemma_size_times(d1, den);
    lemma_size_times(d2, t2);
    let err = size(o * md - x * t2);
    assert(err <= s1 * den + s2 * t2);
    assert(err * p <= (s1 * p) * den + (s2 * p) * t2) by (nonlinear_arith)
        requires
            err <= s1 * den + s2 * t2,
    ;
    let ss = size(s);
    assert((s1 * p) * den <= (5 * (ss * t2) + 3 * (p * m)) * den) by (nonlinear_arith)
        requires
            s1 * p <= 5 * (ss * t2) + 3 * (p * m),
    ;
    assert((5 * (ss * t2) + 3 * (p * m)) * den == 5 * (sd * t2) + 3 * (p * md)) by (nonlinear_arith)
        requires
            sd == ss * den,
            md == m * den,
    ;
    assert((s2 * p) * t2 <= (8 * ed + p * nd) * t2) by (nonlinear_arith)
        requires
            s2 * p <= 8 * ed + p * nd,
    ;
    let c = 5 * sd + 8 * ed + p * nd;
    assert(5 * (sd * t2) + (8 * ed + p * nd) * t2 == c * t2) by (nonlinear_arith)
        requires
            c == 5 * sd + 8 * ed + p * nd,
    ;
    let goal = 16 * f + 2 * (p * nd);
    assert(c <= goal) by (nonlinear_arith)
        requires
            c == 5 * sd + 8 * ed + p * nd,
            goal == 16 * f + 2 * (p * nd),
            sd <= f + s2,
            5 * s2 <= ed + 5 * nd,
            8 * ed <= 9 * (f + nd),
            p == 0x20_0000_0000_0000,
            nd >= 0,
            f >= 0,
    ;
    assert(c * t2 <= t2 * goal) by (nonlinear_arith)
        requires
            c <= goal,
    ;
}

/// Whether a vector is, up to the one ratio `d / m`, the sum of the windows times the given
/// weights: in every dimension within sixteen half units of roundoff of the mass of the sum,
/// within `spare` of those, and within three least positive numbers.
pub open spec fn proportional(
    v: Seq<Binary64>,
    ideal: Seq<nat>,
    embeddings: Seq<Seq<Binary64>>,
    spare: nat,
    m: nat,
    d: nat,
) -> bool {
    &&& m > 0
    &&& d > 0
    &&& forall|j: int|
        0 <= j < v.len() ==> size(
            (#[trigger] v[j]).value() * m - ideal_sum(ideal, embeddings, j, embeddings.len()) * d,
        ) * PRECISION <= d * (16 * ideal_mass(ideal, embeddings, j, embeddings.len()) + spare) + 3
            * (PRECISION * m)
}

/// Whether a vector has unit length and points along the sum of the windows times the given
/// weights.
pub open spec fn points_along(
    v: Seq<Binary64>,
    ideal: Seq<nat>,
    embeddings: Seq<Seq<Binary64>>,
    dim: nat,
    spare: nat,
) -> bool {
    &&& v.len() == dim
    &&& near(energy(v), pow2(1074) * pow2(1074), 3 * dim + 42)
    &&& exists|m: nat, d: nat| #[trigger] proportional(v, ideal, embeddings, spare, m, d)
}

/// Where a sum is clearly not zero in a dimension, a vector that points along it has its sign
/// there.
pub proof fn the_sign_is_that_of_the_sum(
    v: Seq<Binary64>,
    ideal: Seq<nat>,
    embeddings: Seq<Seq<Binary64>>,
    spare: nat,
    m: nat,
    d: nat,
    j: int,
)
    requires
        proportional(v, ideal, embeddings, spare, m, d),
        0 <= j < v.len(),
        ({
            let x = ideal_sum(ideal, embeddings, j, embeddings.len());
            (size(x) * d) * PRECISION > d * (16 * ideal_mass(
                ideal,
                embeddings,
                j,
                embeddings.len(),
            ) + spare) + 3 * (PRECISION * m)
        }),
    ensures
        v[j].value() > 0 <==> ideal_sum(ideal, embeddings, j, embeddings.len()) > 0,
        v[j].value() < 0 <==> ideal_sum(ideal, embeddings, j, embeddings.len()) < 0,
{
    let (o, x) = (v[j].value(), ideal_sum(ideal, embeddings, j, embeddings.len()));
    let bound = d * (16 * ideal_mass(ideal, embeddings, j, embeddings.len()) + spare) + 3
        * (PRECISION * m);
    let (a, b) = (o * m, x * d);
    assert(size(a - b) * PRECISION <= bound);
    lemma_size_times(x, d);
    assert(size(b) * PRECISION > size(a - b) * PRECISION);
    assert(size(b) > size(a - b));
    assert(o > 0 ==> a > 0) by (nonlinear_arith)
        requires
            a == o * m,
            m > 0,
    ;
    assert(o < 0 ==> a < 0) by (nonlinear_arith)
        requires
            a == o * m,
            m > 0,
    ;
    assert(o == 0 ==> a == 0) by (nonlinear_arith)
        requires
            a == o * m,
    ;
    assert(x > 0 ==> b > 0) by (nonlinear_arith)
        requires
            b == x * d,
            d > 0,
    ;
    assert(x < 0 ==> b < 0) by (nonlinear_arith)
        requires
            b == x * d,
            d > 0,
    ;
    assert(x == 0 ==> b == 0) by (nonlinear_arith)
        requires
            b == x * d,
    ;
}

/// What a fold gives points along the exact sum of the windows times the ideal weights, where
/// each weight is its ideal rounded once.
///
/// Stated for up to `2^28` windows and `2^44` dimensions, with products far from overflow.
#[verifier::spinoff_prover]
#[verifier::rlimit(40)]
pub proof fn folds_point_along_the_exact_sum(
    weights: Seq<Binary64>,
    ideal: Seq<nat>,
    denominator: nat,
    embeddings: Seq<Seq<Binary64>>,
    dim: nat,
    slack: Binary64,
)
    requires
        embeddings.len() == weights.len() <= FEW,
        dim <= VAST,
        round_ideals(weights, ideal, denominator),
        forall|j: int| 0 <= j < dim ==> #[trigger] tame(weights, embeddings, j),
    ensures
        folded(weights, embeddings, dim, slack) matches Ok(v) ==> points_along(
            v,
            ideal,
            embeddings,
            dim,
            2 * (PRECISION as nat * (embeddings.len() * denominator)),
        ),
{
    if let Ok(v) = folded(weights, embeddings, dim, slack) {
        let n = embeddings.len();
        let sum = weighted_sum(weights, embeddings, dim);
        let t2 = pow2(1074) * pow2(1074);
        length::aggregated_vectors_have_unit_length(weights, embeddings, dim, slack);
        length::directions_are_those_of_finite_vectors(sum);
        bounds::lemma_largest_is_attained(sum);
        let i = choose|i: int| 0 <= i < sum.len() && (#[trigger] sum[i]).units() > 0;
        assert(sum[i].units() <= largest(sum).units());
        let m = directions_are_proportional(sum);
        let spare = 2 * (PRECISION as nat * (n * denominator));
        lemma_pow2_pos(1074);
        lemma_mul_strictly_positive(pow2(1074) as int, pow2(1074) as int);
        lemma_mul_strictly_positive(m as int, denominator as int);
        assert forall|j: int| 0 <= j < v.len() implies size(
            (#[trigger] v[j]).value() * (m * denominator) - ideal_sum(ideal, embeddings, j, n) * t2,
        ) * PRECISION <= t2 * (16 * ideal_mass(ideal, embeddings, j, n) + spare) + 3 * (PRECISION
            * (m * denominator)) by {
            assert(tame(weights, embeddings, j));
            accuracy::the_fold_is_accurate(weights, ideal, denominator, embeddings, dim, j);
            lemma_mass_of_terms(weights, ideal, denominator, embeddings, j, n);
            sums_are_within_their_mass(ideal, embeddings, j, n);
            assert(v[j] == direction(sum)->Ok_0[j]);
            assert(size(sum[j].value()) == sum[j].units());
            lemma_heading_arithmetic(
                v[j].value(),
                sum[j].value(),
                ideal_sum(ideal, embeddings, j, n),
                exact_mass(weights, embeddings, j, n),
                ideal_mass(ideal, embeddings, j, n),
                denominator,
                m,
                t2,
                n,
            );
        }
        assert(proportional(v, ideal, embeddings, spare, m * denominator, t2));
    }
}

/// A mean points along the exact sum of its windows.
pub proof fn means_point_along_the_sum(
    embeddings: Seq<Seq<Binary64>>,
    coverages: Seq<Binary64>,
    dim: usize,
    v: Vec<Binary64>,
)
    requires
        input_error(embeddings, coverages, dim) is None,
        embeddings.len() <= FEW,
        dim <= VAST,
        MeanRenormalized.aggregates(embeddings, coverages, dim, Ok(v)),
    ensures
        points_along(
            v@,
            ones(embeddings.len()),
            embeddings,
            dim as nat,
            2 * (PRECISION as nat * (embeddings.len() * 1)),
        ),
{
    let n = embeddings.len();
    let weights = uniform_weights::<Binary64>(n);
    laws::lemma_one_units();
    lemma_pow2_strictly_increases(1074, 1600);
    refusal::lemma_domain_is_tame(weights, embeddings, coverages, dim);
    refusal::uniform_weights_are_ideal(n);
    folds_point_along_the_exact_sum(weights, ones(n), 1, embeddings, dim as nat, laws::zero());
}

/// A common factor of the weights is one of the mass.
pub(crate) proof fn lemma_scaled_mass(
    ideal: Seq<nat>,
    scaled: Seq<nat>,
    k: nat,
    embeddings: Seq<Seq<Binary64>>,
    j: int,
    n: nat,
)
    requires
        n <= ideal.len() == scaled.len(),
        forall|i: int| 0 <= i < ideal.len() ==> #[trigger] scaled[i] == ideal[i] * k,
    ensures
        ideal_mass(scaled, embeddings, j, n) == k * ideal_mass(ideal, embeddings, j, n),
    decreases n,
{
    if n == 0 {
        assert(k * 0 == 0) by (nonlinear_arith);
    } else {
        lemma_scaled_mass(ideal, scaled, k, embeddings, j, (n - 1) as nat);
        let (a, x, s) = (
            ideal[n - 1],
            embeddings[n - 1][j].units(),
            ideal_mass(ideal, embeddings, j, (n - 1) as nat),
        );
        assert(scaled[n - 1] == a * k);
        assert((a * k) * x + k * s == k * (s + a * x)) by (nonlinear_arith);
    }
}

/// A coverage-weighted mean points along the exact sum of its windows, each times its coverage.
/// Here `top` is any bound on the coverages.
pub proof fn coverage_means_point_along_the_sum(
    embeddings: Seq<Seq<Binary64>>,
    coverages: Seq<Binary64>,
    dim: usize,
    top: nat,
    v: Vec<Binary64>,
)
    requires
        input_error(embeddings, coverages, dim) is None,
        embeddings.len() <= FEW,
        dim <= VAST,
        forall|i: int| 0 <= i < coverages.len() ==> (#[trigger] coverages[i]).units() <= top,
        CoverageWeightedMean.aggregates(embeddings, coverages, dim, Ok(v)),
    ensures
        points_along(
            v@,
            shares(coverages),
            embeddings,
            dim as nat,
            2 * (PRECISION as nat * (embeddings.len() * top)),
        ),
{
    let n = embeddings.len();
    let weights = coverage_weights::<Binary64>(coverages);
    laws::in_domain_coverages_are_in_range(embeddings, coverages, dim);
    assert forall|k: int| 0 <= k < coverages.len() implies (
    #[trigger] coverages[k]).is_finite() by {
        ratios::lemma_in_range(coverages[k]);
    }
    bounds::lemma_largest_is_attained(coverages);
    assert(units64(0) == 0);
    let most = largest(coverages).units();
    if most == 0 {
        assert forall|i: int| 0 <= i < coverages.len() implies (
        #[trigger] coverages[i]).magnitude() == 0 by {
            assert(coverages[i].units() == 0);
            exact::lemma_order(0, coverages[i].magnitude() as nat);
        }
        ratios::zero_coverages_determine_no_direction(embeddings, coverages, dim);
    } else {
        let at = choose|i: int|
            0 <= i < coverages.len() && (#[trigger] coverages[i]).units() == most;
        assert(coverages[at].units() <= top);
        refusal::coverage_weights_round_their_ideals(coverages);
        let lifted = lifted_shares(coverages);
        let p = pow2(lift(coverages, largest(coverages)) as nat);
        lemma_pow2_pos(lift(coverages, largest(coverages)) as nat);
        assert forall|i: int| 0 <= i < weights.len() implies (#[trigger] weights[i]).is_finite()
            && weights[i].units() <= pow2(1600) by {
            assert(rounds_ideal(weights[i], lifted[i], most));
        }
        refusal::lemma_domain_is_tame(weights, embeddings, coverages, dim);
        folds_point_along_the_exact_sum(
            weights,
            lifted,
            most,
            embeddings,
            dim as nat,
            laws::zero(),
        );
        let (less, spare) = (
            2 * (PRECISION as nat * (n * most)),
            2 * (PRECISION as nat * (n * top)),
        );
        assert(less <= spare) by (nonlinear_arith)
            requires
                less == 2 * (PRECISION as nat * (n * most)),
                spare == 2 * (PRECISION as nat * (n * top)),
                most <= top,
        ;
        let (m, d) = choose|m: nat, d: nat| #[trigger]
            proportional(v@, lifted, embeddings, less, m, d);
        lemma_mul_strictly_positive(d as int, p as int);
        assert forall|j: int| 0 <= j < v@.len() implies size(
            (#[trigger] v@[j]).value() * m - ideal_sum(shares(coverages), embeddings, j, n) * (d
                * p),
        ) * PRECISION <= (d * p) * (16 * ideal_mass(shares(coverages), embeddings, j, n) + spare)
            + 3 * (PRECISION * m) by {
            refusal::lemma_scaled_ideals(shares(coverages), lifted, p, embeddings, j, n);
            lemma_scaled_mass(shares(coverages), lifted, p, embeddings, j, n);
            let (x, f) = (
                ideal_sum(shares(coverages), embeddings, j, n),
                ideal_mass(shares(coverages), embeddings, j, n),
            );
            assert((p * x) * d == x * (d * p)) by (nonlinear_arith);
            assert(d * (16 * (p * f) + less) <= (d * p) * (16 * f + spare)) by (nonlinear_arith)
                requires
                    less <= spare,
                    p >= 1,
            ;
        }
        assert(proportional(v@, shares(coverages), embeddings, spare, m, d * p));
    }
}

/// A saliency-weighted mean points along the exact sum of its windows, each times its norm.
pub proof fn saliency_means_point_along_the_sum(
    embeddings: Seq<Seq<Binary64>>,
    coverages: Seq<Binary64>,
    dim: usize,
    v: Vec<Binary64>,
)
    requires
        input_error(embeddings, coverages, dim) is None,
        embeddings.len() <= FEW,
        dim <= WIDE,
        SaliencyWeighted.aggregates(embeddings, coverages, dim, Ok(v)),
    ensures
        points_along(
            v@,
            saliencies(embeddings),
            embeddings,
            dim as nat,
            2 * (PRECISION as nat * (embeddings.len() * pow2(1074))),
        ),
{
    let weights = saliency_weights(embeddings);
    refusal::saliency_weights_are_ideal(embeddings, coverages, dim);
    refusal::lemma_domain_is_tame(weights, embeddings, coverages, dim);
    folds_point_along_the_exact_sum(
        weights,
        saliencies(embeddings),
        pow2(1074),
        embeddings,
        dim as nat,
        laws::zero(),
    );
}

/// The components of a window inside the domain.
proof fn lemma_window_components(
    embeddings: Seq<Seq<Binary64>>,
    coverages: Seq<Binary64>,
    dim: usize,
    i: int,
)
    requires
        input_error(embeddings, coverages, dim) is None,
        0 <= i < embeddings.len(),
    ensures
        embeddings[i].len() == dim,
        forall|k: int|
            0 <= k < dim ==> (#[trigger] embeddings[i][k]).is_finite() && embeddings[i][k].units()
                <= pow2(1474) && (embeddings[i][k].units() == 0 || embeddings[i][k].units() >= pow2(
                674,
            )),
{
    laws::in_domain_components_are_finite(embeddings, coverages, dim);
    assert forall|k: int| 0 <= k < dim implies (#[trigger] embeddings[i][k]).is_finite()
        && embeddings[i][k].units() <= pow2(1474) && (embeddings[i][k].units() == 0
        || embeddings[i][k].units() >= pow2(674)) by {
        let x = embeddings[i][k];
        assert(x.is_finite() && magnitude_in_range(x));
        crate::aggregate::inputs::lemma_sound_component(x);
        assert(crate::aggregate::inputs::sound_component(x));
        lemma_pow2_pos(1474);
    }
}

/// Nothing is near nothing.
proof fn lemma_nothing_is_near(a: nat, b: nat, k: nat)
    requires
        a == 0,
        b == 0,
    ensures
        near(a * a, b, k),
{
    assert(a * a == 0) by (nonlinear_arith)
        requires
            a == 0,
    ;
    assert(k * 0 == 0) by (nonlinear_arith);
    assert(0 * PRECISION == 0) by (nonlinear_arith);
}

/// The norm of a vector of moderate components.
#[verifier::spinoff_prover]
#[verifier::rlimit(60)]
proof fn lemma_length_of_window(v: Seq<Binary64>)
    requires
        v.len() <= WIDE,
        forall|k: int|
            0 <= k < v.len() ==> (#[trigger] v[k]).is_finite() && v[k].units() <= pow2(1474) && (
            v[k].units() == 0 || v[k].units() >= pow2(674)),
    ensures
        near(norm(v).units() * norm(v).units(), energy(v), 2 * v.len() + 32),
{
    refusal::lemma_window_norm(v);
    bounds::lemma_largest_is_attained(v);
    if largest(v).units() == 0 {
        bounds::lemma_norm_of_nothing(v);
        assert(units64(0) == 0);
        lemma_no_energy(v);
        lemma_nothing_is_near(norm(v).units(), energy(v), 2 * v.len() + 32);
    } else {
        let k = choose|k: int| 0 <= k < v.len() && (#[trigger] v[k]).units() == largest(v).units();
        assert(v[k].units() >= pow2(674));
        vstd::arithmetic::power2::lemma2_to64_rest();
        lemma_pow2_strictly_increases(52, 674);
        length::norms_are_near_the_exact_ones(v);
    }
}

/// What a saliency is: a number whose square is within two half units of roundoff for each
/// dimension, and thirty-two more, of the exact sum of the squares of the window; nothing, then,
/// for a window of zeros.
pub proof fn saliencies_are_lengths(
    embeddings: Seq<Seq<Binary64>>,
    coverages: Seq<Binary64>,
    dim: usize,
    i: int,
)
    requires
        input_error(embeddings, coverages, dim) is None,
        dim <= WIDE,
        0 <= i < embeddings.len(),
    ensures
        near(
            saliencies(embeddings)[i] * saliencies(embeddings)[i],
            energy(embeddings[i]),
            2 * dim as nat + 32,
        ),
{
    lemma_window_components(embeddings, coverages, dim, i);
    lemma_length_of_window(embeddings[i]);
}

/// A vector of zeros has no energy.
proof fn lemma_no_energy(v: Seq<Binary64>)
    requires
        forall|k: int| 0 <= k < v.len() ==> (#[trigger] v[k]).units() == 0,
    ensures
        energy(v) == 0,
    decreases v.len(),
{
    if v.len() > 0 {
        let rest = v.drop_last();
        assert forall|k: int| 0 <= k < rest.len() implies (#[trigger] rest[k]).units() == 0 by {
            assert(rest[k] == v[k]);
        }
        lemma_no_energy(rest);
        assert(v.last() == v[v.len() - 1]);
        assert(0 * 0 == 0) by (nonlinear_arith);
    }
}

} // verus!
