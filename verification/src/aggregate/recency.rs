//! How far the weights of a moving average are from the ideal ones, and where the average points.
use vstd::arithmetic::mul::{
    lemma_mul_inequality, lemma_mul_inequality_converse, lemma_mul_strictly_positive,
    lemma_mul_upper_bound,
};
use vstd::arithmetic::power2::{
    lemma_pow2_pos, lemma_pow2_strictly_increases, lemma_pow2_unfold, pow2,
};
use vstd::prelude::*;

use crate::aggregate::accuracy::{ideal_sum, rounds_ideal, FEW, MANY};
use crate::aggregate::bounds::{energy, VAST, WIDE};
use crate::aggregate::chain::{self, complement, drift, exact_complement, parts, raised, unit};
use crate::aggregate::charges::{self, relative_charge};
use crate::aggregate::clear::{self, ideal_masses};
use crate::aggregate::domain::input_error;
use crate::aggregate::ema::{
    absolute_error, alpha_in_range, exact_chain, formation_slack, ladder, power, slack_of,
    weight_error, EmaRenormalized,
};
use crate::aggregate::fold::folded;
use crate::aggregate::formation::{self, charge, gap, ideal_ladder, proper};
use crate::aggregate::heading::{self, ideal_mass, proportional};
use crate::aggregate::laws;
use crate::aggregate::moving::{self, charged_sum, reach, weight_units};
use crate::aggregate::norm::norm;
use crate::aggregate::policy::AggregatePolicy;
use crate::aggregate::refusal::{self, ones};
use crate::binary::{Binary64, HIDDEN64};
use crate::close::{lemma_size_times, near};
use crate::error::WinditError;
use crate::exact::size;
use crate::rounding::units64;
use crate::roundoff::PRECISION;
use crate::triangle::square_sum;

verus! {

/// The arithmetic of the error of a power, against the smoothing factor: `v` is what the rounded
/// complement leaves of one, `a` the smoothing factor.
#[verifier::spinoff_prover]
#[verifier::rlimit(30)]
proof fn lemma_power_arithmetic(err: nat, q: nat, k: nat, t: nat, th: nat, v: nat, a: nat)
    requires
        k <= MANY,
        2 * a <= 3 * v,
        2 * (err * parts()) * v <= 2 * (drift(k) * q) * v + parts() * (t * th),
    ensures
        (err * PRECISION) * a <= (3 * (k * q)) * a + PRECISION * (t * th),
{
    let p = PRECISION as nat;
    let kq = k * q;
    assert(drift(k) * q == 0x20_0001 * kq) by (nonlinear_arith)
        requires
            kq == k * q,
            drift(k) == 0x20_0001 * k,
    ;
    let ep = err * p;
    assert(err * parts() == 0x10_0000 * ep) by (nonlinear_arith)
        requires
            ep == err * p,
            parts() == 0x10_0000 * p,
    ;
    let tt: nat = t * th;
    let ptt: nat = p * tt;
    let (epv, kqv) = (ep * v, kq * v);
    assert(2 * (0x10_0000 * ep) * v == 0x20_0000 * epv) by (nonlinear_arith)
        requires
            epv == ep * v,
    ;
    assert(2 * (0x20_0001 * kq) * v == 0x40_0002 * kqv) by (nonlinear_arith)
        requires
            kqv == kq * v,
    ;
    assert(parts() * tt == 0x10_0000 * (p * tt)) by (nonlinear_arith)
        requires
            parts() == 0x10_0000 * p,
    ;
    // What the relative part leaves.
    let rest = ep - 3 * kq;
    assert(rest * v == epv - 3 * kqv) by (nonlinear_arith)
        requires
            rest == ep - 3 * kq,
            epv == ep * v,
            kqv == kq * v,
    ;
    assert(2 * (rest * v) <= p * tt);
    if rest > 0 {
        lemma_mul_inequality((2 * a) as int, (3 * v) as int, rest);
        assert((2 * a) * rest == 2 * (rest * a) && (3 * v) * rest == 3 * (rest * v))
            by (nonlinear_arith);
        assert(4 * (rest * a) <= 3 * (p * tt));
    } else {
        lemma_mul_inequality(rest, 0, a as int);
    }
    assert(rest * a == ep * a - (3 * kq) * a) by (nonlinear_arith)
        requires
            rest == ep - 3 * kq,
    ;
}

/// A power of the complement against the ideal one: within three half units of roundoff for each
/// step, and, times the smoothing factor, one least positive number.
#[verifier::spinoff_prover]
#[verifier::rlimit(30)]
proof fn lemma_power_error(alpha: Binary64, k: nat)
    requires
        alpha_in_range(alpha),
        k <= MANY,
    ensures
        ({
            let p = power(complement(alpha), k);
            let (t, th, q) = (unit(), raised(unit(), k), unit() * raised(exact_complement(alpha), k));
            let err = size(p.units() * th - q);
            &&& p.is_finite()
            &&& !p.negative()
            &&& p.units() <= t
            &&& p.units() >= HIDDEN64 ==> err * PRECISION <= 3 * (k * q)
            &&& (err * PRECISION) * alpha.units() <= (3 * (k * q)) * alpha.units() + PRECISION * (t
                * th)
        }),
{
    let (b, e, a, t) = (complement(alpha), exact_complement(alpha), alpha.units(), unit());
    chain::lemma_complement(alpha);
    chain::lemma_chain(b, e, k);
    let (th, q) = (raised(t, k), t * raised(e, k));
    let p = power(b, k).units();
    let err = size(p * th - q);
    let v = (t - b.units()) as nat;
    let kq = k * q;
    assert(drift(k) * q == 0x20_0001 * kq) by (nonlinear_arith)
        requires
            kq == k * q,
            drift(k) == 0x20_0001 * k,
    ;
    assert(err * parts() == 0x10_0000 * (err * PRECISION)) by (nonlinear_arith)
        requires
            parts() == 0x10_0000 * PRECISION,
    ;
    if p >= HIDDEN64 {
        assert(err * PRECISION <= 3 * kq);
        lemma_mul_upper_bound((err * PRECISION) as int, (3 * kq) as int, a as int, a as int);
        let room: nat = PRECISION as nat * (t * th);
    } else {
        if v == 0 {
            formation::lemma_complement_of_one(alpha, k);
            laws::lemma_one_units();
            vstd::arithmetic::power2::lemma2_to64_rest();
            lemma_pow2_strictly_increases(52, 1074);
        }
        assert(v >= pow2(1021));
        lemma_pow2_unfold(1021);
        assert(a == t - e);
        assert(2 * a <= 3 * v);
        lemma_power_arithmetic(err, q, k, t, th, v, a);
    }
}

/// The arithmetic of the error of a weight that is not the oldest: `d` is that of the product,
/// `err` that of the power.
#[verifier::spinoff_prover]
#[verifier::rlimit(30)]
proof fn lemma_weight_arithmetic(
    f: nat,
    d: nat,
    err: nat,
    w: nat,
    a: nat,
    q: nat,
    k: nat,
    t: nat,
    th: nat,
)
    requires
        k <= MANY,
        f <= d * th + a * err,
        a * q <= w * (t * th) + f,
        w * (t * th) <= a * q + f,
        w >= HIDDEN64 ==> d * PRECISION <= w * t,
        w < HIDDEN64 ==> 2 * d <= t,
        w >= HIDDEN64 ==> err * PRECISION <= 3 * (k * q),
        (err * PRECISION) * a <= (3 * (k * q)) * a + PRECISION * (t * th),
    ensures
        f * PRECISION <= (3 * k + 2) * (a * q) + 2 * (PRECISION * (t * th)),
{
    let p = PRECISION as nat;
    let (tt, aq) = (t * th, a * q);
    assert((3 * (k * q)) * a == (3 * k) * aq) by (nonlinear_arith)
        requires
            aq == a * q,
    ;
    let kaq = k * aq;
    assert((3 * k) * aq == 3 * kaq && (3 * k + 2) * aq == 3 * kaq + 2 * aq) by (nonlinear_arith)
        requires
            kaq == k * aq,
    ;
    let ae = a * err;
    assert((err * p) * a == ae * p) by (nonlinear_arith)
        requires
            ae == a * err,
    ;
    let dh = d * th;
    lemma_mul_inequality(f as int, (dh + ae) as int, p as int);
    assert((dh + ae) * p == dh * p + ae * p) by (nonlinear_arith);
    let ptt: nat = p * tt;
    if w >= HIDDEN64 {
        let wt = w * tt;
        lemma_mul_inequality((d * p) as int, (w * t) as int, th as int);
        assert((d * p) * th == dh * p && (w * t) * th == wt) by (nonlinear_arith)
            requires
                dh == d * th,
                wt == w * (t * th),
        ;
        lemma_mul_inequality((err * p) as int, (3 * (k * q)) as int, a as int);
        assert(f * p <= aq + f + 3 * kaq);
        lemma_mul_inequality(k as int, MANY as int, aq as int);
        assert(f <= aq);
    } else {
        let hp: nat = th * p;
        lemma_mul_inequality((2 * d) as int, t as int, hp as int);
        assert((2 * d) * hp == 2 * (dh * p) && t * hp == ptt) by (nonlinear_arith)
            requires
                dh == d * th,
                hp == th * p,
                ptt == p * (t * th),
        ;
    }
}

/// The arithmetic of the gap of a weight that is not the oldest, on the scale of all of them.
proof fn lemma_gap_scale(f: nat, a: nat, r: nat, t: nat, s: nat, rest: nat, k: nat)
    requires
        f * PRECISION <= (3 * k + 2) * (a * (t * r)) + 2 * (PRECISION * s),
    ensures
        (f * rest) * PRECISION <= (3 * k + 2) * ((a * r * rest) * t) + 2 * (PRECISION * (s * rest)),
{
    let p = PRECISION as nat;
    let (x, y) = (a * (t * r), p * s);
    let c: nat = 3 * k + 2;
    let cx: nat = c * x;
    lemma_mul_inequality((f * p) as int, (cx + 2 * y) as int, rest as int);
    assert((f * p) * rest == (f * rest) * p) by (nonlinear_arith);
    assert((cx + 2 * y) * rest == c * (x * rest) + 2 * (y * rest)) by (nonlinear_arith)
        requires
            cx == c * x,
    ;
    assert(x * rest == (a * r * rest) * t) by (nonlinear_arith)
        requires
            x == a * (t * r),
    ;
    assert(y * rest == p * (s * rest)) by (nonlinear_arith)
        requires
            y == p * s,
    ;
}

/// The weights of a moving average are near the ideal ones: within three half units of roundoff
/// for each window that follows, and two more, and within a few least positive numbers. Here
/// `lag` is any number of at least one over the smoothing factor.
#[verifier::spinoff_prover]
#[verifier::rlimit(40)]
pub proof fn recency_weights_are_near_the_ideal_ones(alpha: Binary64, n: nat, i: int, lag: nat)
    requires
        alpha_in_range(alpha),
        0 <= i < n <= MANY,
        alpha.units() == 0 || lag * alpha.units() >= unit(),
    ensures
        size(
            ladder(alpha, n)[i].units() * raised(unit(), n) - ideal_ladder(alpha, n)[i] * unit(),
        ) * PRECISION <= (3 * (n - 1 - i) + 2) * (ideal_ladder(alpha, n)[i] * unit()) + PRECISION * ((
        2 + lag) * raised(unit(), n)),
{
    let (t, e, a, p) = (unit(), exact_complement(alpha), alpha.units(), PRECISION as nat);
    let den = raised(t, n);
    let k = (n - 1 - i) as nat;
    let (th, r) = (raised(t, k), raised(e, k));
    let q = t * r;
    let w = ladder(alpha, n)[i].units();
    lemma_pow2_pos(1074);
    formation::lemma_raised_positive(t, n);
    assert((2 + lag) * den == 2 * den + lag * den) by (nonlinear_arith);
    let ld: nat = lag * den;
    let room: nat = p * ((2 + lag) * den);
    let ideal: nat = ideal_ladder(alpha, n)[i] * t;
    let most: nat = (3 * k + 2) * ideal;
    if a == 0 || complement(alpha).units() == 0 {
        moving::lemma_ends(alpha, n, i);
        assert(gap(alpha, n, i) == 0);
        assert(0 * p == 0) by (nonlinear_arith);
    } else if i == 0 {
        lemma_power_error(alpha, k);
        let err = size(w * th - q);
        assert(den == th * t);
        assert(ideal_ladder(alpha, n)[0] == r * t);
        assert(w * (th * t) - (r * t) * t == (w * th - q) * t) by (nonlinear_arith)
            requires
                q == t * r,
        ;
        lemma_size_times(w * th - q, t);
        lemma_oldest_gap(err, q, k, t, th, a, lag);
        assert(ideal == q * t) by (nonlinear_arith)
            requires
                ideal == (r * t) * t,
                q == t * r,
        ;
    } else {
        chain::lemma_complement(alpha);
        assert(!alpha.negative());
        lemma_power_error(alpha, k);
        formation::lemma_other_weight(alpha, k);
        let pw = power(complement(alpha), k);
        let d = size(w * t - a * pw.units());
        let s = t * th;
        let f = size(w * s - a * q);
        let err = size(pw.units() * th - q);
        lemma_weight_arithmetic(f, d, err, w, a, q, k, t, th);
        let rest = raised(t, i as nat);
        formation::lemma_raised_adds(t, k + 1, i as nat);
        assert(raised(t, k + 1) == th * t);
        assert(th * t == s) by (nonlinear_arith)
            requires
                s == t * th,
        ;
        assert(den == s * rest);
        assert(ideal_ladder(alpha, n)[i] == a * r * rest);
        let x = w * s - a * (t * r);
        assert(w * (s * rest) - (a * r * rest) * t == x * rest) by (nonlinear_arith)
            requires
                x == w * s - a * (t * r),
        ;
        lemma_size_times(x, rest);
        lemma_gap_scale(f, a, r, t, s, rest, k);
        let pld: nat = p * ld;
        assert(p * (2 * den + ld) == 2 * (p * den) + pld) by (nonlinear_arith)
            requires
                pld == p * ld,
        ;
    }
}

/// The arithmetic of the gap of the oldest weight.
proof fn lemma_oldest_gap(err: nat, q: nat, k: nat, t: nat, th: nat, a: nat, lag: nat)
    requires
        a > 0,
        lag * a >= t,
        (err * PRECISION) * a <= (3 * (k * q)) * a + PRECISION * (t * th),
    ensures
        (err * t) * PRECISION <= (3 * k + 2) * (q * t) + PRECISION * ((2 + lag) * (th * t)),
{
    let p = PRECISION as nat;
    let (ep, kq) = (err * p, 3 * (k * q));
    let room: nat = p * (lag * th);
    let hp: nat = th * p;
    lemma_mul_inequality(t as int, (lag * a) as int, hp as int);
    assert(t * hp == p * (t * th) && (lag * a) * hp == room * a) by (nonlinear_arith)
        requires
            room == p * (lag * th),
            hp == th * p,
    ;
    assert(kq * a + room * a == (kq + room) * a) by (nonlinear_arith);
    lemma_mul_inequality_converse(ep as int, (kq + room) as int, a as int);
    assert((err * t) * p == ep * t) by (nonlinear_arith)
        requires
            ep == err * p,
    ;
    lemma_mul_inequality(ep as int, (kq + room) as int, t as int);
    assert((kq + room) * t == 3 * (k * (q * t)) + p * (lag * (th * t))) by (nonlinear_arith)
        requires
            kq == 3 * (k * q),
            room == p * (lag * th),
    ;
    assert((3 * k + 2) * (q * t) == 3 * (k * (q * t)) + 2 * (q * t)) by (nonlinear_arith);
    assert(p * ((2 + lag) * (th * t)) == p * (lag * (th * t)) + 2 * (p * (th * t)))
        by (nonlinear_arith);
    let (qt, pht): (nat, nat) = (q * t, p * (th * t));
}

/// The reach of the gaps of the weights of the first `m` windows.
proof fn lemma_reach_bound(
    alpha: Binary64,
    embeddings: Seq<Seq<Binary64>>,
    j: int,
    m: nat,
    lag: nat,
)
    requires
        alpha_in_range(alpha),
        m <= embeddings.len() <= MANY,
        alpha.units() == 0 || lag * alpha.units() >= unit(),
    ensures
        ({
            let n = embeddings.len();
            reach(alpha, embeddings, j, m) * PRECISION <= (3 * n + 2) * (unit() * ideal_mass(
                ideal_ladder(alpha, n),
                embeddings,
                j,
                m,
            )) + PRECISION * ((2 + lag) * raised(unit(), n) * ideal_mass(ones(n), embeddings, j, m))
        }),
    decreases m,
{
    let n = embeddings.len();
    let (t, den, p) = (unit(), raised(unit(), n), PRECISION as nat);
    let c = (2 + lag) * den;
    if m == 0 {
        assert(t * 0 == 0 && c * 0 == 0 && (3 * n + 2) * 0 == 0 && p * 0 == 0) by (nonlinear_arith);
    } else {
        let k = (m - 1) as nat;
        lemma_reach_bound(alpha, embeddings, j, k, lag);
        recency_weights_are_near_the_ideal_ones(alpha, n, k as int, lag);
        let g = size(gap(alpha, n, k as int));
        let (q, u) = (ideal_ladder(alpha, n)[k as int], embeddings[k as int][j].units());
        let f = (3 * (n - 1 - k) + 2) as nat;
        let h = 3 * n + 2;
        let qt: nat = q * t;
        lemma_mul_inequality(f as int, h as int, qt as int);
        let hqt: nat = h * qt;
        let pc: nat = p * c;
        assert(g * p <= hqt + pc);
        lemma_mul_inequality((g * p) as int, (hqt + pc) as int, u as int);
        assert((g * p) * u == (g * u) * p) by (nonlinear_arith);
        assert((hqt + pc) * u == h * (t * (q * u)) + p * (c * u)) by (nonlinear_arith)
            requires
                hqt == h * (q * t),
                pc == p * c,
        ;
        let (r, x, y) = (
            reach(alpha, embeddings, j, k),
            ideal_mass(ideal_ladder(alpha, n), embeddings, j, k),
            ideal_mass(ones(n), embeddings, j, k),
        );
        assert((r + g * u) * p == r * p + (g * u) * p) by (nonlinear_arith);
        assert(h * (t * (x + q * u)) == h * (t * x) + h * (t * (q * u))) by (nonlinear_arith);
        assert(p * (c * (y + 1 * u)) == p * (c * y) + p * (c * u)) by (nonlinear_arith);
    }
}

/// The mass with the weights is within their reach of that with their ideals.
proof fn lemma_mass_reach(alpha: Binary64, embeddings: Seq<Seq<Binary64>>, j: int, m: nat)
    requires
        m <= embeddings.len(),
    ensures
        ({
            let n = embeddings.len();
            ideal_mass(weight_units(alpha, n), embeddings, j, m) * raised(unit(), n) <= unit()
                * ideal_mass(ideal_ladder(alpha, n), embeddings, j, m) + reach(
                alpha,
                embeddings,
                j,
                m,
            )
        }),
    decreases m,
{
    let n = embeddings.len();
    let (t, den) = (unit(), raised(unit(), n));
    if m == 0 {
        assert(0 * den == 0 && t * 0 == 0) by (nonlinear_arith);
    } else {
        let k = (m - 1) as nat;
        lemma_mass_reach(alpha, embeddings, j, k);
        let g = size(gap(alpha, n, k as int));
        let (w, q, u) = (
            weight_units(alpha, n)[k as int],
            ideal_ladder(alpha, n)[k as int],
            embeddings[k as int][j].units(),
        );
        assert(w * den <= q * t + g);
        lemma_mul_inequality((w * den) as int, (q * t + g) as int, u as int);
        assert((q * t + g) * u == t * (q * u) + g * u) by (nonlinear_arith);
        let (x, y) = (
            ideal_mass(weight_units(alpha, n), embeddings, j, k),
            ideal_mass(ideal_ladder(alpha, n), embeddings, j, k),
        );
        assert((x + w * u) * den == x * den + (w * den) * u) by (nonlinear_arith);
        assert(t * (y + q * u) == t * y + t * (q * u)) by (nonlinear_arith);
    }
}

/// Whether a vector is, up to the one ratio `d * unit() / m`, the moving average of the windows
/// with the ideal weights: in every dimension within six half units of roundoff for each window,
/// and twenty more, of the mass of the average, and within what least positive numbers make.
pub open spec fn follows(
    v: Seq<Binary64>,
    alpha: Binary64,
    embeddings: Seq<Seq<Binary64>>,
    lag: nat,
    m: nat,
    d: nat,
) -> bool {
    let n = embeddings.len();
    &&& m > 0
    &&& d > 0
    &&& forall|j: int|
        0 <= j < v.len() ==> size(
            (#[trigger] v[j]).value() * m - ideal_sum(ideal_ladder(alpha, n), embeddings, j, n) * (d
                * unit()),
        ) * PRECISION <= d * ((6 * n + 20) * (unit() * ideal_mass(
            ideal_ladder(alpha, n),
            embeddings,
            j,
            n,
        )) + 2 * (PRECISION * (raised(unit(), n) * ((2 + lag) * ideal_mass(
            ones(n),
            embeddings,
            j,
            n,
        ) + n * unit())))) + 3 * (PRECISION * m)
}

/// The arithmetic of one component of a moving average: from the weights to their ideals.
#[verifier::spinoff_prover]
#[verifier::rlimit(60)]
proof fn lemma_follows_arithmetic(
    o: int,
    x: int,
    y: int,
    f: nat,
    g: nat,
    s: nat,
    reach: nat,
    n: nat,
    lag: nat,
    m: nat,
    d: nat,
    den: nat,
    t: nat,
)
    requires
        size(o * m - x * d) * PRECISION <= d * (16 * f + 2 * (PRECISION * (n * t))) + 3 * (PRECISION
            * m),
        size(x * den - y * t) <= reach,
        f * den <= t * g + reach,
        reach * PRECISION <= (3 * n + 2) * (t * g) + PRECISION * ((2 + lag) * den * s),
    ensures
        size(o * (m * den) - y * (d * t)) * PRECISION <= d * ((6 * n + 20) * (t * g) + 2 * (PRECISION
            * (den * ((2 + lag) * s + n * t)))) + 3 * (PRECISION * (m * den)),
{
    let p = PRECISION as nat;
    let (a, b) = (o * m - x * d, x * den - y * t);
    assert(o * (m * den) - y * (d * t) == a * den + b * d) by (nonlinear_arith)
        requires
            a == o * m - x * d,
            b == x * den - y * t,
    ;
    lemma_size_times(a, den);
    lemma_size_times(b, d);
    let (sa, sb) = (size(a), size(b));
    let err = size(o * (m * den) - y * (d * t));
    assert(err <= sa * den + sb * d);
    lemma_mul_inequality(sb as int, reach as int, d as int);
    lemma_mul_inequality(err as int, (sa * den + reach * d) as int, p as int);
    assert((sa * den + reach * d) * p == (sa * p) * den + (reach * p) * d) by (nonlinear_arith);
    let nt: nat = n * t;
    let w: nat = 16 * f + 2 * (p * nt);
    let dw: nat = d * w;
    lemma_mul_inequality((sa * p) as int, (dw + 3 * (p * m)) as int, den as int);
    let (fd, md, ntd): (nat, nat, nat) = (f * den, m * den, nt * den);
    let wd: nat = 16 * fd + 2 * (p * ntd);
    assert(w * den == wd) by (nonlinear_arith)
        requires
            w == 16 * f + 2 * (p * nt),
            wd == 16 * fd + 2 * (p * ntd),
            fd == f * den,
            ntd == nt * den,
    ;
    assert((dw + 3 * (p * m)) * den == d * (w * den) + 3 * (p * md)) by (nonlinear_arith)
        requires
            dw == d * w,
            md == m * den,
    ;
    let (rp, tg): (nat, nat) = (reach * p, t * g);
    let c: nat = wd + rp;
    assert(d * wd + rp * d == d * c) by (nonlinear_arith)
        requires
            c == wd + rp,
    ;
    // All of it on the scale of the reach.
    assert(16 * reach <= rp);
    let ntg: nat = n * tg;
    assert((3 * n + 2) * tg == 3 * ntg + 2 * tg && (6 * n + 20) * tg == 6 * ntg + 20 * tg)
        by (nonlinear_arith)
        requires
            ntg == n * tg,
    ;
    let ls: nat = (2 + lag) * den * s;
    assert(den * ((2 + lag) * s + nt) == ls + ntd) by (nonlinear_arith)
        requires
            ls == (2 + lag) * den * s,
            ntd == nt * den,
    ;
    assert(p * (ls + ntd) == p * ls + p * ntd) by (nonlinear_arith);
    let goal: nat = (6 * n + 20) * tg + 2 * (p * (ls + ntd));
    assert(c <= goal);
    lemma_mul_inequality(c as int, goal as int, d as int);
    assert(c * d == d * c && goal * d == d * goal) by (nonlinear_arith);
}

/// A moving average points along the exact one, which has the ideal weights. Here `lag` is any
/// number of at least one over the smoothing factor.
#[verifier::spinoff_prover]
#[verifier::rlimit(40)]
pub proof fn moving_averages_follow_the_exact_one(
    ema: EmaRenormalized<Binary64>,
    embeddings: Seq<Seq<Binary64>>,
    coverages: Seq<Binary64>,
    dim: usize,
    lag: nat,
    v: Vec<Binary64>,
)
    requires
        input_error(embeddings, coverages, dim) is None,
        embeddings.len() <= FEW,
        dim <= VAST,
        ema.alpha().units() == 0 || lag * ema.alpha().units() >= unit(),
        ema.aggregates(embeddings, coverages, dim, Ok(v)),
    ensures
        v@.len() == dim,
        near(energy(v@), pow2(1074) * pow2(1074), 3 * dim as nat + 42),
        exists|m: nat, d: nat| #[trigger] follows(v@, ema.alpha(), embeddings, lag, m, d),
{
    let n = embeddings.len();
    let alpha = ema.alpha();
    assert(alpha_in_range(alpha));
    let (t, den) = (unit(), raised(unit(), n));
    let weights = ladder(alpha, n);
    let wu = weight_units(alpha, n);
    lemma_pow2_pos(1074);
    lemma_pow2_strictly_increases(1074, 1600);
    formation::lemma_raised_positive(t, n);
    assert forall|i: int| 0 <= i < weights.len() implies {
        &&& (#[trigger] weights[i]).is_finite()
        &&& weights[i].units() <= pow2(1600)
        &&& weights[i].negative() ==> weights[i].units() == 0
    } by {
        moving::moving_average_weights_are_fractions(alpha, n, i);
    }
    refusal::lemma_domain_is_tame(weights, embeddings, coverages, dim);
    assert forall|i: int| 0 <= i < weights.len() implies #[trigger] rounds_ideal(
        weights[i],
        wu[i],
        t,
    ) by {
        refusal::lemma_own_ideal(weights[i]);
    }
    heading::folds_point_along_the_exact_sum(
        weights,
        wu,
        t,
        embeddings,
        dim as nat,
        formation_slack(weights, embeddings, alpha, complement(alpha)),
    );
    let spare = 2 * (PRECISION as nat * (n * t));
    let (m, d) = choose|m: nat, d: nat| #[trigger] proportional(v@, wu, embeddings, spare, m, d);
    lemma_mul_strictly_positive(m as int, den as int);
    assert forall|j: int| 0 <= j < v@.len() implies size(
        (#[trigger] v@[j]).value() * (m * den) - ideal_sum(
            ideal_ladder(alpha, n),
            embeddings,
            j,
            n,
        ) * (d * unit()),
    ) * PRECISION <= d * ((6 * n + 20) * (unit() * ideal_mass(
        ideal_ladder(alpha, n),
        embeddings,
        j,
        n,
    )) + 2 * (PRECISION * (raised(unit(), n) * ((2 + lag) * ideal_mass(ones(n), embeddings, j, n)
        + n * unit())))) + 3 * (PRECISION * (m * den)) by {
        moving::lemma_gap_reach(alpha, embeddings, j, n);
        lemma_mass_reach(alpha, embeddings, j, n);
        lemma_reach_bound(alpha, embeddings, j, n, lag);
        lemma_follows_arithmetic(
            v@[j].value(),
            ideal_sum(wu, embeddings, j, n),
            ideal_sum(ideal_ladder(alpha, n), embeddings, j, n),
            ideal_mass(wu, embeddings, j, n),
            ideal_mass(ideal_ladder(alpha, n), embeddings, j, n),
            ideal_mass(ones(n), embeddings, j, n),
            reach(alpha, embeddings, j, n),
            n,
            lag,
            m,
            d,
            den,
            t,
        );
    }
    assert(follows(v@, alpha, embeddings, lag, m * den, d));
}

/// The arithmetic of the relative part of a charge, from above.
proof fn lemma_relative_ceiling(c: nat, w: nat, k: nat)
    requires
        k <= MANY,
        c >= HIDDEN64 ==> size(c * HIDDEN64 - (2 * k + 2) * w) * PRECISION <= c * HIDDEN64,
        c < HIDDEN64 ==> 2 * size(c * HIDDEN64 - (2 * k + 2) * w) <= HIDDEN64,
    ensures
        c * PRECISION <= (4 * k + 5) * w + PRECISION,
        c <= w + 1,
{
    let kw: nat = k * w;
    assert((2 * k + 2) * w == 2 * kw + 2 * w && (4 * k + 5) * w == 4 * kw + 5 * w)
        by (nonlinear_arith)
        requires
            kw == k * w,
    ;
    lemma_mul_inequality(k as int, MANY as int, w as int);
    let y: nat = 2 * kw + 2 * w;
    if c >= HIDDEN64 {
        let d = size(c * HIDDEN64 - y);
        assert(c * HIDDEN64 <= y + d);
        assert(d * PRECISION <= c * HIDDEN64);
        assert(c <= w);
    }
}

/// What is charged for a weight is at most four half units of roundoff of it for each window that
/// follows, and six more, and a number that is next to nothing.
#[verifier::spinoff_prover]
#[verifier::rlimit(40)]
pub proof fn charges_are_small(alpha: Binary64, n: nat, i: int)
    requires
        alpha_in_range(alpha),
        alpha.units() > 0,
        complement(alpha).units() > 0,
        0 <= i < n <= MANY,
    ensures
        charge(alpha, n, i) * PRECISION <= (4 * (n - 1 - i) + 6) * ladder(alpha, n)[i].units()
            + PRECISION * pow2(61),
{
    formation::weight_errors_are_covered(alpha, n, i);
    assert(proper(alpha, n, i));
    let (w, b, k) = (ladder(alpha, n)[i], complement(alpha), (n - 1 - i) as nat);
    chain::lemma_complement(alpha);
    charges::lemma_below_one(b);
    charges::lemma_relative_charge(w, k);
    assert(units64(0) == 0);
    let rel = if exact_chain(alpha, b) {
        laws::zero()
    } else {
        relative_charge(w, k)
    };
    let c1 = rel.units();
    lemma_relative_ceiling(relative_charge(w, k).units(), w.units(), k);
    let u = w.units();
    assert(c1 <= u + 1 && c1 * PRECISION <= (4 * k + 5) * u + PRECISION) by {
        if exact_chain(alpha, b) {
            assert(0 * PRECISION == 0) by (nonlinear_arith);
            let z: nat = (4 * k + 5) * u;
        }
    }
    assert((4 * k + 6) * u == (4 * k + 5) * u + u) by (nonlinear_arith);
    vstd::arithmetic::power2::lemma2_to64();
    vstd::arithmetic::power2::lemma2_to64_rest();
    let e = weight_error(alpha, b, w, i as nat, n);
    if w.below(charges::min_normal()) {
        let abs = absolute_error(alpha, b, i == 0);
        if b.units() < unit() {
            if i == 0 {
                charges::lemma_oldest_charge(alpha);
            } else {
                charges::lemma_general_charge(alpha);
            }
        } else {
            assert(abs == laws::zero());
        }
        let c2 = abs.units();
        assert(abs.is_finite() && !abs.negative() && c2 <= pow2(60));
        assert(e == rel.plus(abs));
        lemma_pow2_strictly_increases(60, 1074);
        lemma_pow2_strictly_increases(1074, 2096);
        lemma_pow2_unfold(2097);
        clear::lemma_sum_ceiling(rel, abs);
        assert((c1 + c2) * (PRECISION + 1) == c1 * PRECISION + c1 + c2 * PRECISION + c2)
            by (nonlinear_arith);
    } else {
        assert(e == rel);
    }
}

/// What a moving average over its windows owes at most: for each, its charge in half units of
/// roundoff, times the norm of the window.
pub open spec fn dues(alpha: Binary64, embeddings: Seq<Seq<Binary64>>, m: nat) -> nat
    decreases m,
{
    if m == 0 {
        0
    } else {
        let n = embeddings.len();
        dues(alpha, embeddings, (m - 1) as nat) + ((4 * n + 6) * weight_units(alpha, n)[m - 1]
            + PRECISION as nat * pow2(61)) * norm(embeddings[m - 1]).units()
    }
}

/// The sum of the charges is within the dues.
proof fn lemma_dues(alpha: Binary64, embeddings: Seq<Seq<Binary64>>, m: nat)
    requires
        alpha_in_range(alpha),
        alpha.units() > 0,
        complement(alpha).units() > 0,
        m <= embeddings.len() <= MANY,
    ensures
        charged_sum(alpha, embeddings, m) * PRECISION <= dues(alpha, embeddings, m),
    decreases m,
{
    let n = embeddings.len();
    if m == 0 {
        assert(0 * PRECISION == 0) by (nonlinear_arith);
    } else {
        let k = (m - 1) as nat;
        lemma_dues(alpha, embeddings, k);
        charges_are_small(alpha, n, k as int);
        let (c, u, w) = (
            charge(alpha, n, k as int),
            norm(embeddings[k as int]).units(),
            weight_units(alpha, n)[k as int],
        );
        let f: nat = (4 * (n - 1 - k) + 6) as nat;
        lemma_mul_inequality(f as int, (4 * n + 6) as int, w as int);
        let d: nat = (4 * n + 6) * w + PRECISION as nat * pow2(61);
        lemma_mul_inequality((c * PRECISION) as int, d as int, u as int);
        let s = charged_sum(alpha, embeddings, k);
        assert((s + c * u) * PRECISION == s * PRECISION + (c * PRECISION) * u) by (nonlinear_arith);
    }
}

/// The arithmetic of what a moving average owes: from its slack to its dues.
proof fn lemma_owed(slack: nat, charged: nat, due: nat, n: nat, t: nat, x: nat, bound: nat)
    requires
        n <= FEW,
        slack * t <= 3 * charged + 2 * n * t,
        charged * PRECISION <= due,
        x >= 104 * bound + PRECISION * (t * pow2(79)) + 9 * due,
    ensures
        x >= 104 * bound + PRECISION * (t * (pow2(78) + 3 * slack)),
{
    let p = PRECISION as nat;
    let (st, nt, f): (nat, nat, nat) = (slack * t, n * t, pow2(78));
    assert(2 * n * t == 2 * nt) by (nonlinear_arith)
        requires
            nt == n * t,
    ;
    assert(t * (f + 3 * slack) == t * f + 3 * st) by (nonlinear_arith)
        requires
            st == slack * t,
    ;
    lemma_mul_inequality(n as int, FEW as int, t as int);
    vstd::arithmetic::power2::lemma2_to64();
    vstd::arithmetic::power2::lemma2_to64_rest();
    vstd::arithmetic::power2::lemma_pow2_adds(14, 64);
    vstd::arithmetic::power2::lemma_pow2_adds(15, 64);
    let g: nat = pow2(79);
    assert(f == 0x4000_0000_0000_0000_0000 && g == 0x8000_0000_0000_0000_0000);
    assert(t * g == 0x8000_0000_0000_0000_0000 * t && t * f == 0x4000_0000_0000_0000_0000 * t)
        by (nonlinear_arith)
        requires
            f == 0x4000_0000_0000_0000_0000,
            g == 0x8000_0000_0000_0000_0000,
    ;
    assert(p * (t * f + 3 * st) == p * (t * f) + 3 * (p * st)) by (nonlinear_arith);
    assert(p * st <= 3 * due + 2 * (p * nt)) by {
        lemma_mul_inequality(st as int, (3 * charged + 2 * nt) as int, p as int);
        assert((3 * charged + 2 * nt) * p == 3 * (charged * p) + 2 * (p * nt)) by (nonlinear_arith);
        assert(st * p == p * st) by (nonlinear_arith);
    }
}

/// The fold of windows whose exact moving average is clearly not zero.
#[verifier::spinoff_prover]
#[verifier::rlimit(40)]
proof fn lemma_clear_moving_fold(
    alpha: Binary64,
    embeddings: Seq<Seq<Binary64>>,
    coverages: Seq<Binary64>,
    dim: usize,
    bound: nat,
    j: int,
    slack: Binary64,
)
    requires
        alpha_in_range(alpha),
        alpha.units() > 0,
        complement(alpha).units() > 0,
        input_error(embeddings, coverages, dim) is None,
        embeddings.len() <= FEW,
        dim <= WIDE,
        slack == slack_of(
            ladder(alpha, embeddings.len()),
            embeddings,
            alpha,
            complement(alpha),
            embeddings.len(),
        ),
        square_sum(
            ideal_masses(weight_units(alpha, embeddings.len()), embeddings, dim as nat),
        ) <= bound * bound,
        0 <= j < dim,
        size(
            ideal_sum(weight_units(alpha, embeddings.len()), embeddings, j, embeddings.len()),
        ) * PRECISION >= 104 * bound + PRECISION * (unit() * pow2(79)) + 9 * dues(
            alpha,
            embeddings,
            embeddings.len(),
        ),
    ensures
        folded(ladder(alpha, embeddings.len()), embeddings, dim as nat, slack) is Ok,
{
    let n = embeddings.len();
    moving::lemma_setting(alpha, embeddings, coverages, dim);
    moving::lemma_slack(alpha, embeddings, n);
    lemma_dues(alpha, embeddings, n);
    let charged = charged_sum(alpha, embeddings, n);
    lemma_owed(
        slack.units(),
        charged,
        dues(alpha, embeddings, n),
        n,
        unit(),
        size(ideal_sum(weight_units(alpha, n), embeddings, j, n)) * PRECISION as nat,
        bound,
    );
    lemma_slack_bound(slack.units(), charged, n);
    clear::clear_sums_have_a_direction(
        ladder(alpha, n),
        weight_units(alpha, n),
        unit(),
        embeddings,
        dim as nat,
        slack,
        bound,
        j,
    );
}

/// The slack of a moving average is far from overflow.
proof fn lemma_slack_bound(slack: nat, charged: nat, n: nat)
    requires
        n <= FEW,
        slack * unit() <= 3 * charged + 2 * n * unit(),
        charged <= n * (unit() * pow2(1491)),
    ensures
        slack <= pow2(2090),
{
    let (t, big) = (unit(), pow2(1491));
    lemma_pow2_pos(1074);
    lemma_pow2_pos(1491);
    let tb: nat = t * big;
    lemma_mul_inequality(n as int, FEW as int, tb as int);
    lemma_mul_inequality(n as int, FEW as int, t as int);
    assert(2 * n * t == 2 * (n * t)) by (nonlinear_arith);
    assert(tb == big * t) by (nonlinear_arith)
        requires
            tb == t * big,
    ;
    lemma_mul_inequality(1, big as int, t as int);
    vstd::arithmetic::power2::lemma2_to64();
    let c: nat = 0x1_0000_0000 * big;
    assert(c * t == 0x1_0000_0000 * tb) by (nonlinear_arith)
        requires
            tb == big * t,
            c == 0x1_0000_0000 * big,
    ;
    lemma_mul_inequality_converse(slack as int, c as int, t as int);
    vstd::arithmetic::power2::lemma_pow2_adds(32, 1491);
    lemma_pow2_strictly_increases(1523, 2090);
}

/// Windows whose moving average, with the weights as formed, is clearly not zero have one: in
/// some dimension it is at least a hundred and four half units of roundoff of the length of the
/// exact masses, and nine times the dues, and a number that is next to nothing.
pub proof fn clear_windows_have_a_moving_average(
    ema: EmaRenormalized<Binary64>,
    embeddings: Seq<Seq<Binary64>>,
    coverages: Seq<Binary64>,
    dim: usize,
    bound: nat,
    j: int,
    r: Result<Vec<Binary64>, WinditError>,
)
    requires
        ema.alpha().is_finite(),
        0 < ema.alpha().value() < pow2(1074),
        complement(ema.alpha()).units() > 0,
        input_error(embeddings, coverages, dim) is None,
        embeddings.len() <= FEW,
        dim <= WIDE,
        square_sum(
            ideal_masses(weight_units(ema.alpha(), embeddings.len()), embeddings, dim as nat),
        ) <= bound * bound,
        0 <= j < dim,
        size(
            ideal_sum(weight_units(ema.alpha(), embeddings.len()), embeddings, j, embeddings.len()),
        ) * PRECISION >= 104 * bound + PRECISION * (unit() * pow2(79)) + 9 * dues(
            ema.alpha(),
            embeddings,
            embeddings.len(),
        ),
        ema.aggregates(embeddings, coverages, dim, r),
    ensures
        r is Ok || (r matches Err(e) && e is AllocFailed),
{
    let alpha = ema.alpha();
    let n = embeddings.len();
    crate::aggregate::inputs::smoothing_factors_are_fractions(ema, embeddings, coverages, dim, r);
    crate::aggregate::inputs::lemma_fraction(alpha);
    assert(alpha_in_range(alpha));
    moving::lemma_formation_slack(alpha, embeddings);
    let slack = slack_of(ladder(alpha, n), embeddings, alpha, complement(alpha), n);
    lemma_clear_moving_fold(alpha, embeddings, coverages, dim, bound, j, slack);
}

} // verus!
