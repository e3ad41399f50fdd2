//! The ideal weights of a moving average, and the recurrence that they come from.
use vstd::arithmetic::power2::{
    lemma_pow2_pos, lemma_pow2_strictly_increases, lemma_pow2_unfold,
};
use vstd::prelude::*;

use crate::aggregate::accuracy::{ideal_sum, MANY};
use crate::aggregate::chain::{self, complement, exact_complement, raised, unit};
use crate::aggregate::ema::{alpha_in_range, exact_chain, ladder, power};
use crate::aggregate::formation::{self, charge, gap, ideal_ladder};
use crate::binary::{Binary64, HIDDEN64};
use crate::rounding::units64;

verus! {

/// The ideal weights over one more window: those before, each times the exact complement.
proof fn lemma_longer_ladder(alpha: Binary64, n: nat, i: int)
    requires
        0 <= i < n,
    ensures
        ideal_ladder(alpha, n + 1)[i] == exact_complement(alpha) * ideal_ladder(alpha, n)[i],
{
    let (e, t, a) = (exact_complement(alpha), unit(), alpha.units());
    let k = (n - 1 - i) as nat;
    let (r, rest) = (raised(e, k), raised(t, i as nat));
    assert(raised(e, k + 1) == r * e);
    assert((r * e) * t == e * (r * t)) by (nonlinear_arith);
    assert(a * (r * e) * rest == e * (a * r * rest)) by (nonlinear_arith);
}

/// A sum over one more window's ideal weights.
proof fn lemma_longer_sum(
    alpha: Binary64,
    embeddings: Seq<Seq<Binary64>>,
    j: int,
    n: nat,
    m: nat,
)
    requires
        m <= n,
    ensures
        ideal_sum(ideal_ladder(alpha, n + 1), embeddings, j, m) == exact_complement(alpha)
            * ideal_sum(ideal_ladder(alpha, n), embeddings, j, m),
    decreases m,
{
    let e = exact_complement(alpha);
    if m == 0 {
        assert(e * 0 == 0) by (nonlinear_arith);
    } else {
        lemma_longer_sum(alpha, embeddings, j, n, (m - 1) as nat);
        lemma_longer_ladder(alpha, n, m - 1);
        let (q, x, s) = (
            ideal_ladder(alpha, n)[m - 1],
            embeddings[m - 1][j].value(),
            ideal_sum(ideal_ladder(alpha, n), embeddings, j, (m - 1) as nat),
        );
        assert(e * s + (e * q) * x == e * (s + q * x)) by (nonlinear_arith);
    }
}

/// The ideal weights are those of the recurrence that starts with the oldest window, and
/// adds to the complement of what there is the smoothing factor times the next window.
pub proof fn the_ideal_weights_unroll_the_recurrence(
    alpha: Binary64,
    embeddings: Seq<Seq<Binary64>>,
    j: int,
    n: nat,
)
    ensures
        ideal_sum(ideal_ladder(alpha, 1), embeddings, j, 1) == unit() * embeddings[0][j].value(),
        n >= 1 ==> ideal_sum(ideal_ladder(alpha, n + 1), embeddings, j, n + 1)
            == exact_complement(alpha) * ideal_sum(ideal_ladder(alpha, n), embeddings, j, n)
            + alpha.units() * raised(unit(), n) * embeddings[n as int][j].value(),
{
    let (e, t, a) = (exact_complement(alpha), unit(), alpha.units());
    assert(raised(e, 0) == 1);
    assert(1 * t == t) by (nonlinear_arith);
    assert(ideal_sum(ideal_ladder(alpha, 1), embeddings, j, 0) == 0);
    if n >= 1 {
        lemma_longer_sum(alpha, embeddings, j, n, n);
        let rest = raised(t, n);
        assert(ideal_ladder(alpha, n + 1)[n as int] == a * 1 * rest);
        assert(a * 1 * rest == a * rest) by (nonlinear_arith);
    }
}

/// The sum of the first `m` numbers.
pub open spec fn total(ideal: Seq<nat>, m: nat) -> nat
    decreases m,
{
    if m == 0 {
        0
    } else {
        total(ideal, (m - 1) as nat) + ideal[m - 1]
    }
}

/// The ideal weights sum to exactly one.
pub proof fn the_ideal_weights_sum_to_one(alpha: Binary64, n: nat)
    requires
        alpha.units() <= unit(),
        n >= 1,
    ensures
        total(ideal_ladder(alpha, n), n) == raised(unit(), n),
    decreases n,
{
    let (e, t, a) = (exact_complement(alpha), unit(), alpha.units());
    if n == 1 {
        assert(total(ideal_ladder(alpha, 1), 0) == 0);
        assert(raised(e, 0) == 1 && raised(t, 0) == 1);
        assert(1 * t == t) by (nonlinear_arith);
    } else {
        let h = (n - 1) as nat;
        the_ideal_weights_sum_to_one(alpha, h);
        lemma_longer_total(alpha, h, h);
        let rest = raised(t, h);
        assert(ideal_ladder(alpha, n)[h as int] == a * raised(e, 0) * rest);
        assert(a * 1 * rest == a * rest) by (nonlinear_arith);
        assert(e * rest + a * rest == rest * t) by (nonlinear_arith)
            requires
                e + a == t,
        ;
    }
}

/// The sum of one more window's ideal weights.
proof fn lemma_longer_total(alpha: Binary64, n: nat, m: nat)
    requires
        m <= n,
    ensures
        total(ideal_ladder(alpha, n + 1), m) == exact_complement(alpha) * total(
            ideal_ladder(alpha, n),
            m,
        ),
    decreases m,
{
    let e = exact_complement(alpha);
    if m == 0 {
        assert(e * 0 == 0) by (nonlinear_arith);
    } else {
        lemma_longer_total(alpha, n, (m - 1) as nat);
        lemma_longer_ladder(alpha, n, m - 1);
        let (q, s) = (
            ideal_ladder(alpha, n)[m - 1],
            total(ideal_ladder(alpha, n), (m - 1) as nat),
        );
        assert(e * s + e * q == e * (s + q)) by (nonlinear_arith);
    }
}

/// From one half on, with a complement that is a power of two, every weight in the normal
/// range is its ideal, and nothing is charged for it.
#[verifier::spinoff_prover]
#[verifier::rlimit(40)]
pub proof fn dyadic_weights_are_exact(alpha: Binary64, n: nat, i: int)
    requires
        alpha_in_range(alpha),
        exact_chain(alpha, complement(alpha)),
        complement(alpha).units() > 0,
        0 <= i < n <= MANY,
        ladder(alpha, n)[i].units() >= HIDDEN64,
    ensures
        gap(alpha, n, i) == 0,
        charge(alpha, n, i) == 0,
{
    let b = complement(alpha);
    let k = (n - 1 - i) as nat;
    let (t, e, a) = (unit(), exact_complement(alpha), alpha.units());
    let w = ladder(alpha, n)[i];
    chain::lemma_complement(alpha);
    let s = formation::lemma_exact_complement(alpha);
    lemma_pow2_strictly_increases((1074 - s) as nat, 1074);
    lemma_pow2_pos((1074 - s) as nat);
    formation::lemma_exact_powers(b, s, k);
    assert(units64(0) == 0);
    let x = power(b, k);
    let (th, r) = (raised(t, k), raised(e, k));
    if i == 0 {
        assert(w == x);
        let u = w.units();
        assert(raised(t, n) == th * t);
        assert(u * (th * t) - (r * t) * t == (u * th - t * r) * t) by (nonlinear_arith);
        assert(0 * t == 0) by (nonlinear_arith);
    } else {
        formation::lemma_other_weight(alpha, k);
        assert(w == alpha.times(x));
        lemma_pow2_unfold(1074);
        if s > 1 {
            lemma_pow2_strictly_increases((1074 - s) as nat, 1073);
        }
        let (u, p) = (w.units(), x.units());
        if s * k > 1074 {
            assert(a * 0 == 0) by (nonlinear_arith);
        }
        formation::lemma_exact_weight(alpha, x, s, k);
        let rest = raised(t, i as nat);
        formation::lemma_raised_adds(t, k + 1, i as nat);
        assert(raised(t, k + 1) == th * t);
        assert(raised(t, n) == (th * t) * rest);
        assert(ideal_ladder(alpha, n)[i] == a * r * rest);
        assert(u * ((th * t) * rest) == (u * t) * (th * rest)) by (nonlinear_arith);
        assert((a * p) * (th * rest) == (a * (p * th)) * rest) by (nonlinear_arith);
        assert((a * (t * r)) * rest == (a * r * rest) * t) by (nonlinear_arith);
    }
    formation::lemma_normal(w);
    formation::lemma_exact_error(alpha, b, w, i as nat, n);
}

} // verus!
