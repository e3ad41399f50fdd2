//! The errors of the weights of a moving average stay within their bounds.
use vstd::arithmetic::mul::{
    lemma_mul_inequality, lemma_mul_inequality_converse, lemma_mul_strictly_positive,
};
use vstd::prelude::*;

use crate::aggregate::accuracy::MANY;
use crate::aggregate::chain::{drift, parts};
use crate::binary::HIDDEN64;
use crate::exact::size;
use crate::roundoff::PRECISION;

verus! {

/// Half of the error of the powers is charged: the drift of a weight against its charge.
proof fn lemma_drift(w: nat, k: nat)
    ensures
        2 * (drift(k) * w) <= 0x20_0001 * ((2 * k + 2) * w),
        2 * (drift(k) * w) * (k + 1) == 0x20_0001 * (k * ((2 * k + 2) * w)),
{
    let g = drift(k);
    assert(2 * (g * w) <= 0x20_0001 * ((2 * k + 2) * w)) by (nonlinear_arith)
        requires
            g == 0x20_0001 * k,
    ;
    assert(2 * (g * w) * (k + 1) == 0x20_0001 * (k * ((2 * k + 2) * w))) by (nonlinear_arith)
        requires
            g == 0x20_0001 * k,
    ;
}

/// The error of the oldest weight, with the damping in place of what is left of one.
proof fn lemma_undamped(err: nat, q: nat, g: nat, t: nat, th: nat, v: nat, d: nat)
    requires
        v > 0,
        2 * (err * parts()) * v <= 2 * (g * q) * v + parts() * (t * th),
        size(d * v - t * t) * PRECISION <= 4 * (t * t),
    ensures
        2 * (err * parts()) * (t * 0x100_0000_0000) <= 2 * (g * q) * (t * 0x100_0000_0000)
            + parts() * (d * 0x100_0000_0001) * th,
{
    let (a, b, m) = (2 * (err * parts()), 2 * (g * q), parts());
    let k = t * 0x100_0000_0000;
    let l = d * 0x100_0000_0001;
    assert(a * k <= b * k + m * l * th) by {
        if a <= b {
            lemma_mul_inequality(a as int, b as int, k as int);
            assert(0 <= m * l * th) by (nonlinear_arith);
        } else {
            let c = (a - b) as nat;
            assert(c * v <= m * (t * th)) by (nonlinear_arith)
                requires
                    a * v <= b * v + m * (t * th),
                    c == a - b,
            ;
            assert((c * v) * k <= (m * (t * th)) * k) by (nonlinear_arith)
                requires
                    c * v <= m * (t * th),
            ;
            let tt = t * t;
            let dv = d * v;
            assert(dv * 0x100_0000_0001 >= tt * 0x100_0000_0000);
            assert((m * (t * th)) * k == (m * th) * (tt * 0x100_0000_0000)) by (nonlinear_arith)
                requires
                    k == t * 0x100_0000_0000,
                    tt == t * t,
            ;
            assert((m * th) * (tt * 0x100_0000_0000) <= (m * th) * (dv * 0x100_0000_0001))
                by (nonlinear_arith)
                requires
                    dv * 0x100_0000_0001 >= tt * 0x100_0000_0000,
            ;
            assert((m * th) * (dv * 0x100_0000_0001) == (m * l * th) * v) by (nonlinear_arith)
                requires
                    dv == d * v,
                    l == d * 0x100_0000_0001,
            ;
            assert((c * v) * k == (c * k) * v) by (nonlinear_arith);
            lemma_mul_inequality_converse((c * k) as int, (m * l * th) as int, v as int);
            assert(c * k == a * k - b * k) by (nonlinear_arith)
                requires
                    c == a - b,
            ;
        }
    }
}

/// The charge of the oldest weight against its error, per unit of the scale: `gt` is the
/// drift of the weight, `c1` and `c2` the two parts of the charge and `et` their sum, all
/// times `t`.
proof fn lemma_oldest_ledger(gt: nat, yt: nat, c1: nat, c2: nat, et: nat, d: nat, t: nat)
    requires
        t > 0,
        2 * gt <= 0x20_0001 * yt,
        yt <= c1 * HIDDEN64 + 0x8_0000_0000_0000 * t,
        c1 == 0 || c1 >= t,
        c2 >= t,
        2 * d <= 3 * c2,
        c2 == t || c2 >= 2 * t,
        c2 == t ==> 2 * d <= 3 * t,
        2 * d <= 2 * c2 + t || (1000 * d <= 1001 * c2 && c2 >= 1000 * t),
        1000 * et >= 999 * (c1 + c2),
        c1 == 0 ==> et >= c2,
        c1 == 0 && c2 == t ==> 2 * gt * 1075 <= 0x20_0001 * (1074 * yt),
    ensures
        8192 * (2 * gt * 0x100_0000_0000 + 0x2000000000000000000nat * (d * 0x100_0000_0001)) <= 8191
            * (2 * (et * 0x1fffff8000000000000nat) * 0x100_0000_0000),
{
    if c1 >= t {
        assert(2 * yt <= 3 * (c1 * HIDDEN64));
    } else {
        assert(yt <= 0x8_0000_0000_0000 * t);
    }
}

/// The error of the oldest weight below the normal range is within its charge.
#[verifier::spinoff_prover]
pub proof fn lemma_oldest_subnormal(
    err: nat,
    q: nat,
    w: nat,
    k: nat,
    t: nat,
    th: nat,
    v: nat,
    d: nat,
    c1: nat,
    c2: nat,
    e: nat,
)
    requires
        t > 0,
        v > 0,
        k <= MANY,
        2 * (err * parts()) * v <= 2 * (drift(k) * q) * v + parts() * (t * th),
        q <= w * th + err,
        size(d * v - t * t) * PRECISION <= 4 * (t * t),
        2 * size(c1 * HIDDEN64 - (2 * k + 2) * w) <= HIDDEN64,
        1 <= c2,
        3 * t <= 2 * d ==> c2 >= 2,
        2 * d <= 3 * (c2 * t),
        c2 < HIDDEN64 ==> 2 * size(c2 * t - d) <= t,
        c2 >= HIDDEN64 ==> size(c2 * t - d) * PRECISION <= c2 * t,
        1000 * e >= 999 * (c1 + c2),
        c1 == 0 ==> e >= c2,
        c2 == 1 ==> w == 0 || k <= 1074,
    ensures
        err * 8192 <= 8191 * e * th,
{
    let g = drift(k);
    let m = parts();
    let f = 0x100_0000_0000nat;
    lemma_undamped(err, q, g, t, th, v, d);
    lemma_drift(w, k);
    let y = (2 * k + 2) * w;
    let gw = g * w;
    let (gt, yt, c1t, c2t, et) = (gw * t, y * t, c1 * t, c2 * t, e * t);
    // The charges, times the unit.
    assert(2 * gt <= 0x20_0001 * yt) by (nonlinear_arith)
        requires
            2 * gw <= 0x20_0001 * y,
            gt == gw * t,
            yt == y * t,
    ;
    assert(y <= c1 * HIDDEN64 + 0x8_0000_0000_0000);
    assert(yt <= c1t * HIDDEN64 + 0x8_0000_0000_0000 * t) by (nonlinear_arith)
        requires
            y <= c1 * HIDDEN64 + 0x8_0000_0000_0000,
            yt == y * t,
            c1t == c1 * t,
    ;
    assert(c1 >= 1 ==> c1t >= t) by (nonlinear_arith)
        requires
            c1t == c1 * t,
    ;
    assert(c1 == 0 ==> c1t == 0) by (nonlinear_arith)
        requires
            c1t == c1 * t,
    ;
    assert(c2t >= t && (c2 >= 2 ==> c2t >= 2 * t) && (c2 == 1 ==> c2t == t)) by (nonlinear_arith)
        requires
            c2t == c2 * t,
            c2 >= 1,
    ;
    assert(c2 >= HIDDEN64 ==> c2t >= 1000 * t) by (nonlinear_arith)
        requires
            c2t == c2 * t,
    ;
    assert(1000 * et >= 999 * (c1t + c2t)) by (nonlinear_arith)
        requires
            1000 * e >= 999 * (c1 + c2),
            et == e * t,
            c1t == c1 * t,
            c2t == c2 * t,
    ;
    assert(c1 == 0 ==> et >= c2t) by (nonlinear_arith)
        requires
            c1 == 0 ==> e >= c2,
            et == e * t,
            c2t == c2 * t,
    ;
    if c2 == 1 {
        lemma_few_steps(gw, y, w, k);
        assert(2 * gt * 1075 <= 0x20_0001 * (1074 * yt)) by (nonlinear_arith)
            requires
                2 * gw * 1075 <= 0x20_0001 * (1074 * y),
                gt == gw * t,
                yt == y * t,
        ;
    }
    lemma_oldest_ledger(gt, yt, c1t, c2t, et, d, t);
    assert(et * (m - 0x8_0000_0000_0000) == et * 0x1fffff8000000000000nat) by (nonlinear_arith)
        requires
            m == 0x2000000000000000000nat,
    ;
    assert(m * (d * 0x100_0000_0001) == 0x2000000000000000000nat * (d * 0x100_0000_0001))
        by (nonlinear_arith)
        requires
            m == 0x2000000000000000000nat,
    ;
    // The error against the weight itself.
    let l = 2 * (t * f);
    assert(err * (m - g) * l <= th * (2 * gt * f + m * (d * 0x100_0000_0001))) by {
        assert(2 * (err * m) * (t * f) == (err * m) * l) by (nonlinear_arith)
            requires
                l == 2 * (t * f),
        ;
        assert(2 * (g * q) * (t * f) <= (g * (w * th + err)) * l) by (nonlinear_arith)
            requires
                q <= w * th + err,
                l == 2 * (t * f),
        ;
        let x = g * w;
        assert((g * (w * th + err)) * l == ((g * w) * th) * l + (err * g) * l)
            by (nonlinear_arith);
        assert((x * th) * (2 * (t * f)) == th * (2 * (x * t) * f)) by (nonlinear_arith);
        assert(m * (d * 0x100_0000_0001) * th == th * (m * (d * 0x100_0000_0001)))
            by (nonlinear_arith);
        assert(err * (m - g) * l == (err * m) * l - (err * g) * l) by (nonlinear_arith);
        assert(th * (2 * gt * f + m * (d * 0x100_0000_0001)) == th * (2 * gt * f) + th * (m * (d
            * 0x100_0000_0001))) by (nonlinear_arith);
    }
    let (lhs, rhs) = (
        2 * gt * f + m * (d * 0x100_0000_0001),
        2 * (et * (m - 0x8_0000_0000_0000)) * f,
    );
    assert(th * (8192 * lhs) <= th * (8191 * rhs)) by (nonlinear_arith)
        requires
            8192 * lhs <= 8191 * rhs,
    ;
    assert(g <= 0x8_0000_0000_0000);
    assert(rhs <= (e * (m - g)) * l) by (nonlinear_arith)
        requires
            rhs == 2 * (et * (m - 0x8_0000_0000_0000)) * f,
            et == e * t,
            l == 2 * (t * f),
            g <= 0x8_0000_0000_0000,
    ;
    let pos = (m - g) * l;
    assert(th * (8191 * rhs) <= (8191 * e * th) * pos) by (nonlinear_arith)
        requires
            rhs <= (e * (m - g)) * l,
            pos == (m - g) * l,
    ;
    assert((err * 8192) * pos == 8192 * (err * (m - g) * l)) by (nonlinear_arith)
        requires
            pos == (m - g) * l,
    ;
    assert(th * (8192 * lhs) == 8192 * (th * lhs)) by (nonlinear_arith);
    assert(l > 0) by (nonlinear_arith)
        requires
            t > 0,
            l == 2 * (t * f),
            f == 0x100_0000_0000,
    ;
    lemma_mul_strictly_positive(m - g, l as int);
    lemma_mul_inequality_converse((err * 8192) as int, (8191 * e * th) as int, pos);
}

/// Over few steps the drift is short of its charge.
proof fn lemma_few_steps(gw: nat, y: nat, w: nat, k: nat)
    requires
        gw == drift(k) * w,
        y == (2 * k + 2) * w,
        w == 0 || k <= 1074,
        2 * gw * (k + 1) == 0x20_0001 * (k * y),
    ensures
        2 * gw * 1075 <= 0x20_0001 * (1074 * y),
{
    if w == 0 {
        assert(gw == 0) by (nonlinear_arith)
            requires
                gw == drift(k) * w,
                w == 0,
        ;
    } else {
        assert((2 * gw * 1075) * (k + 1) == 1075 * (0x20_0001 * (k * y))) by (nonlinear_arith)
            requires
                2 * gw * (k + 1) == 0x20_0001 * (k * y),
        ;
        assert(1075 * (0x20_0001 * (k * y)) <= (0x20_0001 * (1074 * y)) * (k + 1))
            by (nonlinear_arith)
            requires
                k <= 1074,
        ;
        lemma_mul_inequality_converse(
            (2 * gw * 1075) as int,
            (0x20_0001 * (1074 * y)) as int,
            (k + 1) as int,
        );
    }
}

/// The error of a weight that is not the oldest, below the normal range, is within its
/// charge.
#[verifier::spinoff_prover]
pub proof fn lemma_general_subnormal(
    err: nat,
    q: nat,
    w: nat,
    k: nat,
    t: nat,
    th: nat,
    v: nat,
    a: nat,
    dw: nat,
    f: nat,
    c1: nat,
    c2: nat,
    e: nat,
)
    requires
        v > 0,
        k <= MANY,
        2 * (err * parts()) * v <= 2 * (drift(k) * q) * v + parts() * (t * th),
        2 * a <= 3 * v,
        2 * dw <= t,
        f <= dw * th + a * err,
        a * q <= w * (t * th) + f,
        2 * size(c1 * HIDDEN64 - (2 * k + 2) * w) <= HIDDEN64,
        2 <= c2,
        1000 * e >= 999 * (c1 + c2),
    ensures
        f * 8192 <= 8191 * e * (t * th),
{
    let (g, m) = (drift(k), parts());
    let s = t * th;
    lemma_drift(w, k);
    let y = (2 * k + 2) * w;
    let gw = g * w;
    let (ae, aq) = (a * err, a * q);
    // The carried error, with what is left of one bounded by the smoothing factor.
    assert(4 * (ae * m) <= 4 * (g * aq) + 3 * (m * s)) by {
        let (x, z) = (2 * (err * m), 2 * (g * q));
        if x <= z {
            assert(2 * a * x <= 2 * a * z) by (nonlinear_arith)
                requires
                    x <= z,
            ;
            assert(2 * a * x == 4 * (ae * m) && 2 * a * z == 4 * (g * aq)) by (nonlinear_arith)
                requires
                    x == 2 * (err * m),
                    z == 2 * (g * q),
                    ae == a * err,
                    aq == a * q,
            ;
            assert(0 <= m * s) by (nonlinear_arith);
        } else {
            let c = (x - z) as nat;
            assert(c * v <= m * s) by (nonlinear_arith)
                requires
                    x * v <= z * v + m * s,
                    c == x - z,
            ;
            assert((2 * a * c) * v <= (3 * (m * s)) * v) by (nonlinear_arith)
                requires
                    c * v <= m * s,
                    2 * a <= 3 * v,
            ;
            lemma_mul_inequality_converse((2 * a * c) as int, (3 * (m * s)) as int, v as int);
            assert(2 * a * c == 4 * (ae * m) - 4 * (g * aq)) by (nonlinear_arith)
                requires
                    c == 2 * (err * m) - 2 * (g * q),
                    ae == a * err,
                    aq == a * q,
            ;
        }
    }
    let dt = dw * th;
    assert(2 * dt <= s) by (nonlinear_arith)
        requires
            2 * dw <= t,
            dt == dw * th,
            s == t * th,
    ;
    assert(4 * (m * f) <= 2 * (m * s) + 4 * (ae * m)) by (nonlinear_arith)
        requires
            f <= dt + ae,
            2 * dt <= s,
    ;
    assert(g * aq <= gw * s + g * f) by (nonlinear_arith)
        requires
            aq <= w * s + f,
            gw == g * w,
    ;
    assert(4 * (m * f) - 4 * (g * f) <= 5 * (m * s) + 4 * (gw * s));
    // The ledger.
    assert(y <= c1 * HIDDEN64 + 0x8_0000_0000_0000);
    assert(c1 == 0 || 2 * y <= 3 * (c1 * HIDDEN64));
    let (lhs, rhs) = (5 * m + 4 * gw, 4 * (e * (m - 0x8_0000_0000_0000)));
    assert(e * (m - 0x8_0000_0000_0000) == e * 0x1fffff8000000000000nat) by (nonlinear_arith)
        requires
            m == 0x2000000000000000000nat,
    ;
    assert(8192 * lhs <= 8191 * rhs);
    assert(s * (8192 * lhs) <= s * (8191 * rhs)) by (nonlinear_arith)
        requires
            8192 * lhs <= 8191 * rhs,
    ;
    assert(g <= 0x8_0000_0000_0000);
    let pos = 4 * (m - g);
    assert((f * 8192) * pos <= s * (8192 * lhs)) by (nonlinear_arith)
        requires
            4 * (m * f) - 4 * (g * f) <= 5 * (m * s) + 4 * (gw * s),
            lhs == 5 * m + 4 * gw,
            pos == 4 * (m - g),
    ;
    assert(s * (8191 * rhs) <= (8191 * e * s) * pos) by (nonlinear_arith)
        requires
            rhs == 4 * (e * (m - 0x8_0000_0000_0000)),
            pos == 4 * (m - g),
            g <= 0x8_0000_0000_0000,
    ;
    lemma_mul_inequality_converse((f * 8192) as int, (8191 * e * s) as int, pos);
}

/// The error of a weight in the normal range is within its charge: `f` is the error and `s`
/// the scale, and the error is off by the drift and at most one rounding more.
pub proof fn lemma_normal_weight(f: nat, w: nat, k: nat, s: nat, c1: nat)
    requires
        k <= MANY,
        w >= HIDDEN64,
        (parts() - drift(k)) * f <= (0x10_0000 + drift(k)) * (w * s),
        c1 >= HIDDEN64 ==> size(c1 * HIDDEN64 - (2 * k + 2) * w) * PRECISION <= c1 * HIDDEN64,
        c1 < HIDDEN64 ==> 2 * size(c1 * HIDDEN64 - (2 * k + 2) * w) <= HIDDEN64,
    ensures
        f * 8192 <= 8191 * c1 * s,
{
    let (g, m) = (drift(k), parts());
    lemma_drift(w, k);
    let y = (2 * k + 2) * w;
    assert(y == 2 * (k * w) + 2 * w) by (nonlinear_arith)
        requires
            y == (2 * k + 2) * w,
    ;
    assert(0 <= k * w) by (nonlinear_arith);
    assert(4 * y <= 5 * (c1 * HIDDEN64));
    let gw = g * w;
    assert((0x10_0000 + g) * w == 0x10_0000 * w + gw) by (nonlinear_arith)
        requires
            gw == g * w,
    ;
    let x = (0x10_0000 + g) * w;
    assert(2 * x <= 0x20_0001 * y) by {
        assert(2 * gw == 2 * (0x20_0001 * (k * w))) by (nonlinear_arith)
            requires
                gw == g * w,
                g == 0x20_0001 * k,
        ;
    }
    assert((0x10_0000 + g) * (w * s) == x * s) by (nonlinear_arith)
        requires
            x == (0x10_0000 + g) * w,
    ;
    let rhs = c1 * (m - 0x8_0000_0000_0000);
    assert(8192 * x <= 8191 * rhs);
    assert(g <= 0x8_0000_0000_0000);
    let pos = m - g;
    assert((f * 8192) * pos <= (8192 * x) * s) by (nonlinear_arith)
        requires
            pos * f <= x * s,
    ;
    assert((8192 * x) * s <= (8191 * rhs) * s) by (nonlinear_arith)
        requires
            8192 * x <= 8191 * rhs,
    ;
    assert((8191 * rhs) * s <= (8191 * c1 * s) * pos) by (nonlinear_arith)
        requires
            rhs == c1 * (m - 0x8_0000_0000_0000),
            pos == m - g,
            g <= 0x8_0000_0000_0000,
    ;
    lemma_mul_inequality_converse((f * 8192) as int, (8191 * c1 * s) as int, pos);
}

} // verus!
