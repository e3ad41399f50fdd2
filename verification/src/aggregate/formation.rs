//! The weights of a moving average against the ideal ones.
use vstd::arithmetic::mul::{
    lemma_mul_inequality, lemma_mul_inequality_converse, lemma_mul_upper_bound,
};
use vstd::arithmetic::power2::{
    lemma_pow2_adds, lemma_pow2_pos, lemma_pow2_strictly_increases, lemma_pow2_unfold, pow2,
};
use vstd::prelude::*;

use crate::aggregate::accuracy::MANY;
use crate::aggregate::bounds;
use crate::aggregate::cancellation;
use crate::aggregate::chain::{self, complement, drift, exact_complement, parts, raised, unit};
use crate::aggregate::charges::{self, min_normal, relative_charge};
use crate::aggregate::decay;
use crate::aggregate::ema::{
    absolute_error, alpha_in_range, exact_chain, ladder, power, weight_error,
};
use crate::aggregate::laws::{self, one, zero};
use crate::arith::{self, nearest};
use crate::binary::{Binary64, HIDDEN64, ONE64};
use crate::close::lemma_size_times;
use crate::exact::{self, size};
use crate::rounding::{self, units64};
use crate::roundoff::{self, PRECISION};

verus! {

/// Powers add up.
pub proof fn lemma_raised_adds(x: nat, i: nat, j: nat)
    ensures
        raised(x, i + j) == raised(x, i) * raised(x, j),
    decreases j,
{
    let r = raised(x, i);
    if j == 0 {
        assert(r * 1 == r) by (nonlinear_arith);
    } else {
        lemma_raised_adds(x, i, (j - 1) as nat);
        let s = raised(x, (j - 1) as nat);
        assert((r * s) * x == r * (s * x)) by (nonlinear_arith);
    }
}

/// A power of a positive number is positive.
pub proof fn lemma_raised_positive(x: nat, k: nat)
    requires
        x > 0,
    ensures
        raised(x, k) > 0,
    decreases k,
{
    if k > 0 {
        lemma_raised_positive(x, (k - 1) as nat);
        vstd::arithmetic::mul::lemma_mul_strictly_positive(
            raised(x, (k - 1) as nat) as int,
            x as int,
        );
    }
}

/// The ideal weights of a moving average over `n` windows, over the common denominator
/// `raised(unit(), n)`: the oldest has the bare power of the exact complement, every other
/// one that power times the smoothing factor.
pub open spec fn ideal_ladder(alpha: Binary64, n: nat) -> Seq<nat> {
    Seq::new(
        n,
        |i: int|
            if i == 0 {
                raised(exact_complement(alpha), (n - 1) as nat) * unit()
            } else {
                alpha.units() * raised(exact_complement(alpha), (n - 1 - i) as nat) * raised(
                    unit(),
                    i as nat,
                )
            },
    )
}

/// How far a weight is from its ideal, times the denominator and the unit.
pub open spec fn gap(alpha: Binary64, n: nat, i: int) -> int {
    ladder(alpha, n)[i].units() * raised(unit(), n) - ideal_ladder(alpha, n)[i] * unit()
}

/// The bound on the error of a weight, in least positive numbers.
pub open spec fn charge(alpha: Binary64, n: nat, i: int) -> nat {
    weight_error(alpha, complement(alpha), ladder(alpha, n)[i], i as nat, n).units()
}

/// Whether the error of a weight is within its charge, up to one part in `2^13` and a number
/// that is next to nothing.
pub open spec fn covered(alpha: Binary64, n: nat, i: int) -> bool {
    size(gap(alpha, n, i)) * (8192 * pow2(600)) <= (8191 * charge(alpha, n, i) * pow2(600) + 1)
        * raised(unit(), n)
}

/// A weight and a bound on its error are nonnegative numbers of at most one.
pub open spec fn proper(alpha: Binary64, n: nat, i: int) -> bool {
    let w = ladder(alpha, n)[i];
    let e = weight_error(alpha, complement(alpha), w, i as nat, n);
    &&& w.is_finite()
    &&& !w.negative()
    &&& w.units() <= unit()
    &&& e.is_finite()
    &&& !e.negative()
    &&& e.units() <= unit()
}

/// The weight is below the normal range where it is as a value.
pub proof fn lemma_normal(w: Binary64)
    requires
        w.is_finite(),
        !w.negative(),
    ensures
        w.below(min_normal()) == (w.units() < HIDDEN64),
{
    charges::lemma_constants();
    exact::lemma_order(w.magnitude() as nat, min_normal().magnitude() as nat);
    exact::lemma_order(min_normal().magnitude() as nat, w.magnitude() as nat);
}

/// The two parts of a charge, added up.
proof fn lemma_charge_sum(x: Binary64, y: Binary64)
    requires
        x.is_finite(),
        y.is_finite(),
        !x.negative(),
        !y.negative(),
        x.units() <= pow2(1053),
        y.units() <= pow2(60),
    ensures
        x.plus(y).is_finite(),
        !x.plus(y).negative(),
        x.plus(y).units() <= unit(),
        1000 * x.plus(y).units() >= 999 * (x.units() + y.units()),
        x.plus(y).units() >= y.units(),
{
    let n = x.units() + y.units();
    lemma_pow2_strictly_increases(60, 1053);
    lemma_pow2_unfold(1054);
    lemma_pow2_strictly_increases(1054, 1074);
    lemma_pow2_strictly_increases(1054, 2097);
    roundoff::lemma_sum_error(x, y);
    cancellation::lemma_sum_grows(x, y);
    let r = x.plus(y);
    exact::lemma_order(r.magnitude() as nat, y.magnitude() as nat);
    roundoff::lemma_power_value(1054);
    exact::lemma_sum_value(x, y);
    exact::rounding_is_monotone(n, pow2(1054), 1);
    exact::lemma_order(nearest(n, 1), nearest(pow2(1054), 1));
    exact::lemma_order(nearest(pow2(1054), 1), nearest(n, 1));
}

/// A small number of roundings of a weight below the normal range is below it too.
proof fn lemma_small_relative(c: nat, w: nat, k: nat)
    requires
        k <= MANY,
        w < HIDDEN64,
        c >= HIDDEN64 ==> size(c * HIDDEN64 - (2 * k + 2) * w) * PRECISION <= c * HIDDEN64,
    ensures
        c < HIDDEN64,
{
    let y = (2 * k + 2) * w;
    assert(y <= 2_000_000_002 * HIDDEN64) by (nonlinear_arith)
        requires
            y == (2 * k + 2) * w,
            k <= MANY,
            w <= HIDDEN64,
    ;
}

/// With a complement of one every power is one.
pub(crate) proof fn lemma_complement_of_one(alpha: Binary64, k: nat)
    requires
        alpha_in_range(alpha),
        complement(alpha).units() == unit(),
    ensures
        power(complement(alpha), k) == one(),
{
    chain::lemma_complement(alpha);
    laws::lemma_one_units();
    exact::lemma_order(complement(alpha).magnitude() as nat, one().magnitude() as nat);
    assert(complement(alpha) == one());
    laws::lemma_powers_of_one(k);
}

/// Powers of a complement of at most `0.34` halve at each step.
proof fn lemma_halving(b: Binary64, k: nat)
    requires
        b.is_finite(),
        !b.negative(),
        100 * b.units() <= 34 * unit(),
    ensures
        power(b, k).is_finite(),
        !power(b, k).negative(),
        power(b, k).units() <= unit(),
        power(b, k).units() * pow2(k) <= unit(),
    decreases k,
{
    let t = unit();
    if k == 0 {
        laws::lemma_one_units();
        vstd::arithmetic::power2::lemma2_to64();
        assert(t * 1 == t) by (nonlinear_arith);
    } else {
        let h = (k - 1) as nat;
        lemma_halving(b, h);
        chain::lemma_power_step(b, h);
        let (p, r, u) = (power(b, h).units(), power(b, k).units(), b.units());
        let d = size(r * t - p * u);
        let (rt, pu, pt) = (r * t, p * u, p * t);
        assert(100 * pu <= 34 * pt) by (nonlinear_arith)
            requires
                100 * u <= 34 * t,
                pu == p * u,
                pt == p * t,
        ;
        if r >= HIDDEN64 {
            assert(2 * rt <= pt);
        } else {
            assert(200 * rt <= 68 * pt + 100 * t);
            assert((200 * r) * t <= (68 * p + 100) * t) by (nonlinear_arith)
                requires
                    200 * rt <= 68 * pt + 100 * t,
                    rt == r * t,
                    pt == p * t,
            ;
            lemma_pow2_pos(1074);
            lemma_mul_inequality_converse((200 * r) as int, (68 * p + 100) as int, t as int);
            assert(2 * r <= p);
            assert((2 * r) * t <= p * t) by (nonlinear_arith)
                requires
                    2 * r <= p,
            ;
            assert((2 * r) * t == 2 * rt) by (nonlinear_arith)
                requires
                    rt == r * t,
            ;
        }
        lemma_pow2_pos(1074);
        assert((2 * r) * t == 2 * rt) by (nonlinear_arith)
            requires
                rt == r * t,
        ;
        lemma_mul_inequality_converse((2 * r) as int, p as int, t as int);
        lemma_pow2_unfold(k);
        let w = pow2(h);
        assert(r * (2 * w) == (2 * r) * w) by (nonlinear_arith);
        assert((2 * r) * w <= p * w) by (nonlinear_arith)
            requires
                2 * r <= p,
        ;
    }
}

/// Where the damping is below three halves, the oldest weight is zero or has few windows
/// after it.
proof fn lemma_short_ladder(b: Binary64, k: nat, d: nat)
    requires
        b.is_finite(),
        !b.negative(),
        b.units() < unit(),
        2 * d < 3 * unit(),
        size(d * (unit() - b.units()) - unit() * unit()) * PRECISION <= 4 * (unit() * unit()),
    ensures
        power(b, k).units() == 0 || k <= 1074,
{
    let t = unit();
    let v = (t - b.units()) as nat;
    lemma_pow2_pos(1074);
    let (dv, tv, tt) = (d * v, t * v, t * t);
    assert(2 * dv <= 3 * tv) by (nonlinear_arith)
        requires
            2 * d <= 3 * t,
            dv == d * v,
            tv == t * v,
    ;
    assert(100 * tv >= 66 * tt);
    assert((100 * v) * t >= (66 * t) * t) by (nonlinear_arith)
        requires
            100 * tv >= 66 * tt,
            tv == t * v,
            tt == t * t,
    ;
    lemma_mul_inequality_converse((66 * t) as int, (100 * v) as int, t as int);
    lemma_halving(b, k);
    let w = power(b, k).units();
    if w > 0 && k > 1074 {
        lemma_pow2_strictly_increases(1074, k);
        lemma_mul_inequality(1, w as int, pow2(k) as int);
    }
}

/// The oldest weight is covered, where the ladder is not exact.
proof fn lemma_oldest_is_covered(alpha: Binary64, n: nat)
    requires
        alpha_in_range(alpha),
        1 <= n <= MANY,
        !exact_chain(alpha, complement(alpha)),
    ensures
        proper(alpha, n, 0),
        covered(alpha, n, 0),
{
    let b = complement(alpha);
    let k = (n - 1) as nat;
    let (t, e) = (unit(), exact_complement(alpha));
    chain::lemma_complement(alpha);
    chain::lemma_chain(b, e, k);
    let x = power(b, k);
    assert(ladder(alpha, n)[0] == x);
    let w = x.units();
    let (th, q) = (raised(t, k), t * raised(e, k));
    let err = size(w * th - q);
    let c = relative_charge(x, k);
    charges::lemma_relative_charge(x, k);
    lemma_normal(x);
    lemma_pow2_pos(1074);
    let charged = charge(alpha, n, 0);
    if w >= HIDDEN64 {
        lemma_pow2_strictly_increases(1053, 1074);
        assert(weight_error(alpha, b, x, 0, n) == c);
        let (g, m) = (drift(k), parts());
        let wt = w * th;
        assert(g * q <= g * wt + g * err) by (nonlinear_arith)
            requires
                q <= wt + err,
        ;
        assert((m - g) * err <= (0x10_0000 + g) * wt) by (nonlinear_arith)
            requires
                err * m <= g * wt + g * err,
        ;
        decay::lemma_normal_weight(err, w, k, th, c.units());
    } else {
        if b.units() == t {
            lemma_complement_of_one(alpha, k);
            laws::lemma_one_units();
            vstd::arithmetic::power2::lemma2_to64_rest();
            lemma_pow2_strictly_increases(52, 1074);
        }
        let v = (t - b.units()) as nat;
        lemma_pow2_pos(1021);
        charges::lemma_damping(b);
        charges::lemma_oldest_charge(alpha);
        let y = absolute_error(alpha, b, true);
        let d = charges::damping(b).units();
        lemma_charge_sum(c, y);
        assert(weight_error(alpha, b, x, 0, n) == c.plus(y));
        lemma_small_relative(c.units(), w, k);
        if y.units() == 1 {
            lemma_short_ladder(b, k, d);
        }
        decay::lemma_oldest_subnormal(err, q, w, k, t, th, v, d, c.units(), y.units(), charged);
    }
    lemma_first_gap(alpha, n, err);
}

/// The gap of the oldest weight, from the error of the power.
proof fn lemma_first_gap(alpha: Binary64, n: nat, err: nat)
    requires
        n >= 1,
        ({
            let k = (n - 1) as nat;
            let w = ladder(alpha, n)[0].units();
            err == size(
                w * raised(unit(), k) - unit() * raised(exact_complement(alpha), k),
            )
        }),
        err * 8192 <= 8191 * charge(alpha, n, 0) * raised(unit(), (n - 1) as nat),
    ensures
        covered(alpha, n, 0),
{
    let k = (n - 1) as nat;
    let (t, e) = (unit(), exact_complement(alpha));
    let (th, r, w) = (raised(t, k), raised(e, k), ladder(alpha, n)[0].units());
    assert(raised(t, n) == th * t);
    assert(w * (th * t) - (r * t) * t == (w * th - t * r) * t) by (nonlinear_arith);
    lemma_size_times(w * th - t * r, t);
    let z = pow2(600);
    let c = charge(alpha, n, 0);
    let s = th * t;
    assert((err * t) * (8192 * z) <= (8191 * c * z + 1) * s) by (nonlinear_arith)
        requires
            err * 8192 <= 8191 * c * th,
            s == th * t,
    ;
}

/// A weight that is not the oldest: the product, and its error against the ideal one.
pub proof fn lemma_other_weight(alpha: Binary64, k: nat)
    requires
        alpha_in_range(alpha),
        !alpha.negative(),
        k <= MANY,
    ensures
        ({
            let p = power(complement(alpha), k);
            let w = alpha.times(p);
            let (t, a) = (unit(), alpha.units());
            let (th, q) = (raised(t, k), t * raised(exact_complement(alpha), k));
            let d = size(w.units() * t - a * p.units());
            let f = size(w.units() * (t * th) - a * q);
            &&& w.is_finite()
            &&& !w.negative()
            &&& w.units() <= p.units() <= t
            &&& w.units() == units64(nearest(a * p.units(), t))
            &&& w.units() >= HIDDEN64 ==> d * PRECISION <= w.units() * t
            &&& w.units() < HIDDEN64 ==> 2 * d <= t
            &&& f <= d * th + a * size(p.units() * th - q)
            &&& a * q <= w.units() * (t * th) + f
        }),
{
    let b = complement(alpha);
    let (t, e, a) = (unit(), exact_complement(alpha), alpha.units());
    chain::lemma_complement(alpha);
    chain::lemma_chain(b, e, k);
    let x = power(b, k);
    let p = x.units();
    lemma_pow2_pos(1074);
    lemma_pow2_strictly_increases(1074, 2097);
    lemma_mul_upper_bound(a as int, pow2(2097) as int, p as int, t as int);
    roundoff::lemma_product_error(alpha, x);
    let w = alpha.times(x);
    exact::every_ratio_has_a_nearest_value(a * p, t);
    exact::lemma_signed_value(false, nearest(a * p, t));
    // At most the power.
    lemma_mul_inequality(a as int, t as int, p as int);
    assert(t * p == p * t) by (nonlinear_arith);
    exact::rounding_is_monotone(a * p, p * t, t);
    assert((p * t) * 1 == p * t) by (nonlinear_arith);
    exact::nearest_depends_on_the_ratio(p * t, t, p, 1);
    laws::lemma_own_magnitude(x);
    exact::lemma_order(x.magnitude() as nat, nearest(a * p, t));
    exact::lemma_order(nearest(a * p, t), x.magnitude() as nat);
    let u = w.units();
    let (th, q) = (raised(t, k), t * raised(e, k));
    let (dd, ee) = (u * t - a * p, p * th - q);
    assert(u * (t * th) - a * q == dd * th + ee * a) by (nonlinear_arith)
        requires
            dd == u * t - a * p,
            ee == p * th - q,
    ;
    lemma_size_times(dd, th);
    lemma_size_times(ee, a);
    assert(size(ee) * a == a * size(ee)) by (nonlinear_arith);
}

/// The gap of a weight that is not the oldest, from the error of its product.
proof fn lemma_other_gap(alpha: Binary64, n: nat, i: nat, f: nat)
    requires
        1 <= i < n,
        ({
            let k = (n - 1 - i) as nat;
            let w = ladder(alpha, n)[i as int].units();
            let (t, a) = (unit(), alpha.units());
            let s = t * raised(t, k);
            &&& f == size(w * s - a * (t * raised(exact_complement(alpha), k)))
            &&& f * (8192 * pow2(600)) <= (8191 * charge(alpha, n, i as int) * pow2(600) + 1) * s
        }),
    ensures
        covered(alpha, n, i as int),
{
    let k = (n - 1 - i) as nat;
    let (t, e, a) = (unit(), exact_complement(alpha), alpha.units());
    let (th, r, w) = (raised(t, k), raised(e, k), ladder(alpha, n)[i as int].units());
    let s = t * th;
    let rest = raised(t, i);
    lemma_raised_adds(t, k + 1, i);
    assert(raised(t, k + 1) == th * t);
    assert(th * t == s) by (nonlinear_arith)
        requires
            s == t * th,
    ;
    assert(raised(t, n) == s * rest);
    assert(ideal_ladder(alpha, n)[i as int] == a * r * rest);
    let x = w * s - a * (t * r);
    assert(w * (s * rest) - (a * r * rest) * t == x * rest) by (nonlinear_arith)
        requires
            x == w * s - a * (t * r),
    ;
    lemma_size_times(x, rest);
    let z = 8192 * pow2(600);
    let c = 8191 * charge(alpha, n, i as int) * pow2(600) + 1;
    assert((f * rest) * z <= c * (s * rest)) by (nonlinear_arith)
        requires
            f * z <= c * s,
    ;
}

/// A bound without the number that is next to nothing.
proof fn lemma_without_rest(f: nat, c: nat, s: nat)
    requires
        f * 8192 <= 8191 * c * s,
    ensures
        f * (8192 * pow2(600)) <= (8191 * c * pow2(600) + 1) * s,
{
    let z = pow2(600);
    assert(f * (8192 * z) <= (8191 * c * z + 1) * s) by (nonlinear_arith)
        requires
            f * 8192 <= 8191 * c * s,
    ;
}

/// The powers of a complement next to one are next to one.
proof fn lemma_slow_decay(t: nat, a: nat, k: nat)
    requires
        a <= t,
    ensures
        raised((t - a) as nat, k) <= raised(t, k),
        (raised(t, k) - raised((t - a) as nat, k)) * t <= k * a * raised(t, k),
    decreases k,
{
    let e = (t - a) as nat;
    if k == 0 {
        assert(0 * t == 0 && 0 * a * 1 == 0) by (nonlinear_arith);
    } else {
        let h = (k - 1) as nat;
        lemma_slow_decay(t, a, h);
        let (x, y) = (raised(t, h), raised(e, h));
        lemma_mul_upper_bound(y as int, x as int, e as int, t as int);
        let d = x - y;
        assert(x * t - y * e == d * t + y * a) by (nonlinear_arith)
            requires
                d == x - y,
                e == t - a,
        ;
        assert((d * t + y * a) * t <= (h * a * x) * t + (x * a) * t) by (nonlinear_arith)
            requires
                d * t <= h * a * x,
                y <= x,
        ;
        assert((h * a * x) * t + (x * a) * t == k * a * (x * t)) by (nonlinear_arith)
            requires
                k == h + 1,
        ;
    }
}

/// The weights of a smoothing factor below the normal range are next to their ideals.
proof fn lemma_tiny_factor(f: nat, a: nat, k: nat, t: nat, th: nat, r: nat, c: nat)
    requires
        k <= MANY,
        a < HIDDEN64,
        t == pow2(1074),
        r <= th,
        (th - r) * t <= k * a * th,
        f == size(a * (t * th) - a * (t * r)),
    ensures
        f * (8192 * pow2(600)) <= (8191 * c * pow2(600) + 1) * (t * th),
{
    let z = pow2(600);
    let d = (th - r) as nat;
    assert(a * (t * th) - a * (t * r) == a * (d * t)) by (nonlinear_arith)
        requires
            d == th - r,
    ;
    assert(0 <= a * (d * t)) by (nonlinear_arith);
    assert(f == a * (d * t));
    let ka = k * a;
    assert(a * (d * t) <= a * (ka * th)) by (nonlinear_arith)
        requires
            d * t <= ka * th,
    ;
    let kaa = a * ka;
    assert(a * (ka * th) == kaa * th) by (nonlinear_arith)
        requires
            kaa == a * ka,
    ;
    vstd::arithmetic::power2::lemma2_to64();
    vstd::arithmetic::power2::lemma2_to64_rest();
    lemma_mul_upper_bound(k as int, pow2(30) as int, a as int, pow2(52) as int);
    lemma_pow2_adds(30, 52);
    lemma_mul_upper_bound(a as int, pow2(52) as int, ka as int, pow2(82) as int);
    lemma_pow2_adds(52, 82);
    lemma_pow2_adds(13, 600);
    lemma_mul_inequality(kaa as int, pow2(134) as int, pow2(613) as int);
    lemma_pow2_adds(134, 613);
    lemma_pow2_strictly_increases(747, 1074);
    let big = 8192 * z;
    assert(kaa * big <= t);
    assert(f * big <= (kaa * th) * big) by (nonlinear_arith)
        requires
            f <= kaa * th,
    ;
    assert((kaa * th) * big == (kaa * big) * th) by (nonlinear_arith);
    assert((kaa * big) * th <= t * th) by (nonlinear_arith)
        requires
            kaa * big <= t,
    ;
    let s = t * th;
    assert(1 * s <= (8191 * c * z + 1) * s) by (nonlinear_arith);
}

/// A weight that is not the oldest is covered, where the ladder is not exact.
#[verifier::spinoff_prover]
#[verifier::rlimit(30)]
proof fn lemma_other_is_covered(alpha: Binary64, n: nat, i: nat)
    requires
        alpha_in_range(alpha),
        !alpha.negative(),
        1 <= i < n <= MANY,
        !exact_chain(alpha, complement(alpha)),
    ensures
        proper(alpha, n, i as int),
        covered(alpha, n, i as int),
{
    let b = complement(alpha);
    let k = (n - 1 - i) as nat;
    let (t, e, a) = (unit(), exact_complement(alpha), alpha.units());
    chain::lemma_complement(alpha);
    chain::lemma_chain(b, e, k);
    lemma_other_weight(alpha, k);
    let x = power(b, k);
    let y = alpha.times(x);
    assert(ladder(alpha, n)[i as int] == y);
    let (p, w) = (x.units(), y.units());
    let (th, q) = (raised(t, k), t * raised(e, k));
    let err = size(p * th - q);
    let s = t * th;
    let f = size(w * s - a * q);
    let d = size(w * t - a * p);
    let c = relative_charge(y, k);
    charges::lemma_relative_charge(y, k);
    lemma_normal(y);
    lemma_pow2_pos(1074);
    lemma_pow2_strictly_increases(1053, 1074);
    let charged = charge(alpha, n, i as int);
    if w >= HIDDEN64 {
        assert(weight_error(alpha, b, y, i, n) == c);
        lemma_normal_error(f, d, err, w, a, q, k, t, th);
        decay::lemma_normal_weight(f, w, k, s, c.units());
        lemma_without_rest(f, charged, s);
    } else if b.units() == t {
        // The weight is the smoothing factor itself.
        lemma_complement_of_one(alpha, k);
        laws::lemma_one_units();
        assert((a * t) * 1 == a * t) by (nonlinear_arith);
        exact::nearest_depends_on_the_ratio(a * t, t, a, 1);
        laws::lemma_own_magnitude(alpha);
        assert(w == a);
        lemma_slow_decay(t, a, k);
        lemma_tiny_factor(f, a, k, t, th, raised(e, k), charged);
        charges::lemma_below_one(b);
        lemma_charge_of_one(alpha, y, i, n);
    } else {
        let v = (t - b.units()) as nat;
        lemma_pow2_pos(1021);
        lemma_pow2_unfold(1021);
        charges::lemma_general_charge(alpha);
        let z = absolute_error(alpha, b, false);
        lemma_charge_sum(c, z);
        assert(weight_error(alpha, b, y, i, n) == c.plus(z));
        lemma_small_relative(c.units(), w, k);
        decay::lemma_general_subnormal(
            err,
            q,
            w,
            k,
            t,
            th,
            v,
            a,
            d,
            f,
            c.units(),
            z.units(),
            charged,
        );
        lemma_without_rest(f, charged, s);
    }
    lemma_other_gap(alpha, n, i, f);
}

/// Where the complement is one there is no absolute part of the charge.
#[verifier::spinoff_prover]
#[verifier::rlimit(40)]
proof fn lemma_charge_of_one(alpha: Binary64, y: Binary64, i: nat, n: nat)
    requires
        1 <= i < n <= MANY,
        y.is_finite(),
        !y.negative(),
        y.units() <= unit(),
        !complement(alpha).below(one()),
        !exact_chain(alpha, complement(alpha)),
    ensures
        ({
            let r = weight_error(alpha, complement(alpha), y, i, n);
            &&& r.is_finite()
            &&& !r.negative()
            &&& r.units() <= unit()
        }),
{
    let k = (n - 1 - i) as nat;
    let c = relative_charge(y, k);
    charges::lemma_relative_charge(y, k);
    lemma_pow2_strictly_increases(1053, 1074);
    lemma_pow2_pos(60);
    assert(units64(0) == 0);
    lemma_charge_sum(c, zero());
}

/// The error of a weight in the normal range, from the errors of its product and of the
/// power.
proof fn lemma_normal_error(
    f: nat,
    d: nat,
    err: nat,
    w: nat,
    a: nat,
    q: nat,
    k: nat,
    t: nat,
    th: nat,
)
    requires
        f <= d * th + a * err,
        a * q <= w * (t * th) + f,
        d * PRECISION <= w * t,
        err * parts() <= drift(k) * q,
    ensures
        (parts() - drift(k)) * f <= (0x10_0000 + drift(k)) * (w * (t * th)),
{
    let (g, m) = (drift(k), parts());
    let ws = w * (t * th);
    let (dt, ae, aq) = (d * th, a * err, a * q);
    assert(dt * m <= 0x10_0000 * ws) by (nonlinear_arith)
        requires
            d * PRECISION <= w * t,
            dt == d * th,
            ws == w * (t * th),
            m == 0x10_0000 * PRECISION,
    ;
    assert(ae * m <= g * aq) by (nonlinear_arith)
        requires
            err * m <= g * q,
            ae == a * err,
            aq == a * q,
    ;
    assert(g * aq <= g * ws + g * f) by (nonlinear_arith)
        requires
            aq <= ws + f,
    ;
    assert(m * f <= dt * m + ae * m) by (nonlinear_arith)
        requires
            f <= dt + ae,
    ;
    assert((m - g) * f == m * f - g * f) by (nonlinear_arith);
    assert((0x10_0000 + g) * ws == 0x10_0000 * ws + g * ws) by (nonlinear_arith);
}

/// What an exact ladder is: the complement is exact, and a power of two of at least `2^-53`.
pub proof fn lemma_exact_complement(alpha: Binary64) -> (s: nat)
    requires
        alpha_in_range(alpha),
        exact_chain(alpha, complement(alpha)),
        complement(alpha).units() > 0,
    ensures
        1 <= s <= 53,
        complement(alpha).units() == pow2((1074 - s) as nat),
        exact_complement(alpha) == pow2((1074 - s) as nat),
        !alpha.negative(),
{
    let b = complement(alpha);
    let (t, a) = (unit(), alpha.units());
    chain::lemma_complement(alpha);
    laws::lemma_one_units();
    assert(units64(0) == 0);
    // At least one half.
    let half = crate::aggregate::ema::half().widened();
    vstd::arithmetic::power2::lemma2_to64();
    vstd::arithmetic::power2::lemma2_to64_rest();
    lemma_pow2_adds(23, 125);
    lemma_pow2_adds(148, 925);
    assert(crate::binary::units(0x3f00_0000, crate::binary::HIDDEN32 as nat) == pow2(148));
    roundoff::lemma_power_value(1073);
    exact::lemma_signed_value(false, nearest(pow2(1073), 1));
    assert(half.units() == pow2(1073));
    lemma_pow2_pos(1073);
    lemma_pow2_unfold(1074);
    exact::lemma_order(0, half.magnitude() as nat);
    exact::lemma_order(alpha.magnitude() as nat, half.magnitude() as nat);
    assert(a >= pow2(1073));
    // So the complement is exact.
    exact::lemma_order(ONE64 as nat, alpha.magnitude() as nat);
    exact::lemma_close_difference(ONE64 as nat, alpha.magnitude() as nat);
    exact::representable_values_are_not_rounded(exact_complement(alpha));
    assert(b.units() == t - a);
    // And a power of two.
    exact::lemma_order(0, b.magnitude() as nat);
    exact::every_finite_value_has_an_exponent(b);
    let e = b.exponent();
    bounds::lemma_unit_of_scale(e);
    let r = (e + 1074) as nat;
    assert(b.units() == pow2(r)) by {
        let x = one().scaled(e);
        assert(x.magnitude() == b.magnitude());
    }
    // Of at least one step below one, and at most one half.
    let m = chain::lemma_grid_below_one(alpha.magnitude() as nat);
    lemma_pow2_adds(53, 1021);
    let step = pow2(1021);
    let left = (0x20_0000_0000_0000 - m) as nat;
    assert(0x20_0000_0000_0000nat * step == m * step + left * step) by (nonlinear_arith)
        requires
            0x20_0000_0000_0000nat == m + left,
    ;
    lemma_mul_inequality(1, left as int, step as int);
    if r < 1021 {
        lemma_pow2_strictly_increases(r, 1021);
    }
    if r > 1073 {
        lemma_pow2_strictly_increases(1073, r);
    }
    (1074 - r) as nat
}

/// A product of at most half a least positive number rounds to zero.
proof fn lemma_vanishes(a: nat, b: nat)
    requires
        b > 0,
        2 * a <= b,
    ensures
        nearest(a, b) == 0,
{
    assert(units64(0) == 0);
    assert(0 * b == 0 && 1 * b == b) by (nonlinear_arith);
    rounding::lemma_half_step_is_nearest(0, a, b);
    arith::lemma_nearest(0, a, b);
}

/// The powers of a complement that is a power of two: exact as long as they are at least one
/// least positive number, and zero from there on.
#[verifier::spinoff_prover]
pub proof fn lemma_exact_powers(b: Binary64, s: nat, k: nat)
    requires
        b.is_finite(),
        !b.negative(),
        1 <= s <= 53,
        b.units() == pow2((1074 - s) as nat),
    ensures
        ({
            let p = power(b, k);
            let (t, e) = (unit(), pow2((1074 - s) as nat));
            let (th, q) = (raised(t, k), t * raised(e, k));
            &&& p.is_finite()
            &&& !p.negative()
            &&& p.units() <= t
            &&& s * k <= 1074 ==> p.units() == pow2((1074 - s * k) as nat) && p.units() * th == q
            &&& s * k > 1074 ==> p.units() == 0 && 2 * q <= th
        }),
    decreases k,
{
    let (t, e) = (unit(), pow2((1074 - s) as nat));
    lemma_pow2_pos(1074);
    lemma_pow2_strictly_increases((1074 - s) as nat, 1074);
    assert(units64(0) == 0);
    if k == 0 {
        laws::lemma_one_units();
        assert(s * 0 == 0) by (nonlinear_arith);
        assert(t * 1 == t) by (nonlinear_arith);
    } else {
        let h = (k - 1) as nat;
        lemma_exact_powers(b, s, h);
        chain::lemma_power_step(b, h);
        assert(s * k == s * h + s) by (nonlinear_arith)
            requires
                k == h + 1,
        ;
        let (p, r) = (power(b, h).units(), power(b, k).units());
        let (th, q) = (raised(t, h), t * raised(e, h));
        let rh = raised(e, h);
        assert(t * (rh * e) == q * e) by (nonlinear_arith)
            requires
                q == t * rh,
        ;
        if s * h <= 1074 {
            let m = (1074 - s * h) as nat;
            lemma_pow2_adds(m, (1074 - s) as nat);
            assert(q * e == (p * e) * th) by (nonlinear_arith)
                requires
                    p * th == q,
            ;
            if s * k <= 1074 {
                let l = (1074 - s * k) as nat;
                lemma_pow2_adds(l, 1074);
                let n = pow2(l);
                assert((p * e) * 1 == p * e) by (nonlinear_arith);
                exact::nearest_depends_on_the_ratio(p * e, t, n, 1);
                roundoff::lemma_power_value(l);
                assert(r == n);
                assert(r * (th * t) == (r * t) * th) by (nonlinear_arith);
            } else {
                let l = (m + 1074 - s) as nat;
                lemma_pow2_unfold(l + 1);
                if l + 1 < 1074 {
                    lemma_pow2_strictly_increases(l + 1, 1074);
                }
                assert(2 * (p * e) <= t);
                lemma_vanishes(p * e, t);
                assert(2 * ((p * e) * th) <= th * t) by (nonlinear_arith)
                    requires
                        2 * (p * e) <= t,
                ;
            }
        } else {
            assert(0 * e == 0) by (nonlinear_arith);
            lemma_vanishes(0, t);
            assert(2 * (q * e) <= th * t) by (nonlinear_arith)
                requires
                    2 * q <= th,
                    e <= t,
            ;
        }
    }
}

/// The bound on the error of a weight of an exact ladder has no relative part.
pub proof fn lemma_exact_error(alpha: Binary64, b: Binary64, w: Binary64, i: nat, n: nat)
    requires
        exact_chain(alpha, b),
    ensures
        weight_error(alpha, b, w, i, n) == if w.below(min_normal()) {
            zero().plus(absolute_error(alpha, b, i == 0))
        } else {
            zero()
        },
{
}

/// The absolute part of a charge, added to nothing.
#[verifier::spinoff_prover]
#[verifier::rlimit(30)]
proof fn lemma_absolute_charge(alpha: Binary64, oldest: bool)
    requires
        alpha_in_range(alpha),
        complement(alpha).units() < unit(),
    ensures
        ({
            let e = zero().plus(absolute_error(alpha, complement(alpha), oldest));
            &&& e.is_finite()
            &&& !e.negative()
            &&& e.units() <= unit()
            &&& e.units() >= if oldest {
                1nat
            } else {
                2nat
            }
        }),
{
    lemma_pow2_pos(1053);
    assert(units64(0) == 0);
    if oldest {
        charges::lemma_oldest_charge(alpha);
    } else {
        charges::lemma_general_charge(alpha);
    }
    lemma_charge_sum(zero(), absolute_error(alpha, complement(alpha), oldest));
}

/// The charges of an exact ladder: none in the normal range, and the absolute part below it.
#[verifier::spinoff_prover]
#[verifier::rlimit(50)]
proof fn lemma_exact_charge(alpha: Binary64, n: nat, i: int)
    requires
        alpha_in_range(alpha),
        0 <= i < n <= MANY,
        exact_chain(alpha, complement(alpha)),
        complement(alpha).units() < unit(),
        ladder(alpha, n)[i].is_finite(),
        !ladder(alpha, n)[i].negative(),
        ladder(alpha, n)[i].units() <= unit(),
    ensures
        proper(alpha, n, i),
        ladder(alpha, n)[i].units() < HIDDEN64 ==> charge(alpha, n, i) >= if i == 0 {
            1nat
        } else {
            2nat
        },
{
    let w = ladder(alpha, n)[i];
    lemma_normal(w);
    lemma_exact_error(alpha, complement(alpha), w, i as nat, n);
    lemma_absolute_charge(alpha, i == 0);
    assert(units64(0) == 0);
}

/// The oldest weight of an exact ladder is covered.
proof fn lemma_exact_oldest(alpha: Binary64, n: nat)
    requires
        alpha_in_range(alpha),
        1 <= n <= MANY,
        exact_chain(alpha, complement(alpha)),
        complement(alpha).units() > 0,
    ensures
        proper(alpha, n, 0),
        covered(alpha, n, 0),
{
    let b = complement(alpha);
    let k = (n - 1) as nat;
    let t = unit();
    chain::lemma_complement(alpha);
    let s = lemma_exact_complement(alpha);
    lemma_pow2_strictly_increases((1074 - s) as nat, 1074);
    lemma_exact_powers(b, s, k);
    assert(ladder(alpha, n)[0] == power(b, k));
    lemma_exact_charge(alpha, n, 0);
    let w = power(b, k).units();
    let (th, q) = (raised(t, k), t * raised(exact_complement(alpha), k));
    let err = size(w * th - q);
    let c = charge(alpha, n, 0);
    if s * k <= 1074 {
        assert(0 <= 8191 * c * th) by (nonlinear_arith);
    } else {
        assert(0 * th == 0) by (nonlinear_arith);
        assert(err * 8192 <= 8191 * c * th) by (nonlinear_arith)
            requires
                2 * err <= th,
                c >= 1,
        ;
    }
    lemma_first_gap(alpha, n, err);
}

/// A product with an exact power, in the normal range, is exact.
pub proof fn lemma_exact_weight(alpha: Binary64, x: Binary64, s: nat, k: nat)
    requires
        alpha_in_range(alpha),
        !alpha.negative(),
        1 <= s <= 53,
        exact_complement(alpha) == pow2((1074 - s) as nat),
        pow2(1073) <= alpha.units() < unit(),
        s * k <= 1074,
        x.is_finite(),
        !x.negative(),
        x.units() == pow2((1074 - s * k) as nat),
        alpha.times(x).units() >= HIDDEN64,
        alpha.times(x).units() <= x.units(),
    ensures
        alpha.times(x).units() * unit() == alpha.units() * x.units(),
{
    let (t, a) = (unit(), alpha.units());
    let m = (1074 - s * k) as nat;
    let p = pow2(m);
    vstd::arithmetic::power2::lemma2_to64_rest();
    if m < 52 {
        lemma_pow2_strictly_increases(m, 52);
    }
    lemma_pow2_pos(1074);
    chain::lemma_complement(alpha);
    if m >= 53 {
        let j = chain::lemma_grid_below_one(alpha.magnitude() as nat);
        let l = (m - 53) as nat;
        lemma_pow2_adds(l, 53);
        lemma_pow2_adds(53, 1021);
        let n = j * pow2(l);
        let (u, v, y) = (pow2(1021), pow2(53), pow2(l));
        assert((j * u) * (y * v) == (j * y) * (v * u)) by (nonlinear_arith);
        charges::lemma_multiple(j, l);
        charges::lemma_exact_product(alpha, x, n);
    } else {
        // The power is the hidden bit, so the product is below it.
        assert(m == 52);
        assert(s != 53) by {
            if s == 53 {
                assert(53 * k == 1022);
            }
        }
        lemma_pow2_adds(52, 1022);
        let l = (52 - s) as nat;
        lemma_pow2_adds(l, 1022);
        let h = HIDDEN64 as nat;
        let n = (h - pow2(l)) as nat;
        lemma_pow2_pos(l);
        lemma_pow2_strictly_increases(l, 52);
        lemma_pow2_adds(52, (1074 - s) as nat);
        lemma_pow2_adds(l, 1074);
        let (z, y) = (pow2((1074 - s) as nat), pow2(l));
        assert(a == t - z);
        assert((t - z) * h == t * h - z * h) by (nonlinear_arith);
        assert((h - y) * t == h * t - y * t) by (nonlinear_arith);
        assert(z * h == y * t) by (nonlinear_arith)
            requires
                h * z == pow2((52 + 1074 - s) as nat),
                y * t == pow2((52 + 1074 - s) as nat),
        ;
        assert(t * h == h * t) by (nonlinear_arith);
        vstd::arithmetic::power2::lemma2_to64();
        assert(n * 1 == n) by (nonlinear_arith);
        charges::lemma_multiple(n, 0);
        charges::lemma_exact_product(alpha, x, n);
    }
}

/// A weight of an exact ladder that is not the oldest is covered.
#[verifier::spinoff_prover]
proof fn lemma_exact_other(alpha: Binary64, n: nat, i: nat)
    requires
        alpha_in_range(alpha),
        1 <= i < n <= MANY,
        exact_chain(alpha, complement(alpha)),
        complement(alpha).units() > 0,
    ensures
        proper(alpha, n, i as int),
        covered(alpha, n, i as int),
{
    let b = complement(alpha);
    let k = (n - 1 - i) as nat;
    let (t, e, a) = (unit(), exact_complement(alpha), alpha.units());
    chain::lemma_complement(alpha);
    let s = lemma_exact_complement(alpha);
    lemma_pow2_strictly_increases((1074 - s) as nat, 1074);
    lemma_pow2_pos((1074 - s) as nat);
    lemma_exact_powers(b, s, k);
    lemma_other_weight(alpha, k);
    let x = power(b, k);
    let y = alpha.times(x);
    assert(ladder(alpha, n)[i as int] == y);
    lemma_exact_charge(alpha, n, i as int);
    let (p, w) = (x.units(), y.units());
    let (th, q) = (raised(t, k), t * raised(e, k));
    let sc = t * th;
    let f = size(w * sc - a * q);
    let d = size(w * t - a * p);
    let c = charge(alpha, n, i as int);
    assert(f * 8192 <= 8191 * c * sc) by {
        if s * k <= 1074 {
            assert(w * sc - a * q == (w * t - a * p) * th) by (nonlinear_arith)
                requires
                    sc == t * th,
                    p * th == q,
            ;
            lemma_size_times(w * t - a * p, th);
            if w >= HIDDEN64 {
                lemma_pow2_unfold(1074);
                lemma_pow2_strictly_increases((1074 - s) as nat, 1074);
                if s > 1 {
                    lemma_pow2_strictly_increases((1074 - s) as nat, 1073);
                }
                lemma_exact_weight(alpha, x, s, k);
                assert(0 * th == 0) by (nonlinear_arith);
                assert(0 <= 8191 * c * sc) by (nonlinear_arith);
            } else {
                assert((d * th) * 8192 <= 8191 * c * sc) by (nonlinear_arith)
                    requires
                        2 * d <= t,
                        c >= 2,
                        sc == t * th,
                ;
            }
        } else {
            assert(w == 0);
            assert(0 * sc == 0) by (nonlinear_arith);
            let aq = a * q;
            assert(0 <= aq) by (nonlinear_arith)
                requires
                    aq == a * q,
            ;
            assert(aq * 8192 <= 8191 * c * sc) by (nonlinear_arith)
                requires
                    2 * q <= th,
                    a <= t,
                    aq == a * q,
                    c >= 2,
                    sc == t * th,
            ;
        }
    }
    lemma_without_rest(f, c, sc);
    lemma_other_gap(alpha, n, i, f);
}

/// The error of every weight of a moving average is within the bound that is charged for it.
pub proof fn weight_errors_are_covered(alpha: Binary64, n: nat, i: int)
    requires
        alpha_in_range(alpha),
        alpha.units() > 0,
        complement(alpha).units() > 0,
        0 <= i < n <= MANY,
    ensures
        proper(alpha, n, i),
        covered(alpha, n, i),
{
    chain::lemma_complement(alpha);
    if exact_chain(alpha, complement(alpha)) {
        if i == 0 {
            lemma_exact_oldest(alpha, n);
        } else {
            lemma_exact_other(alpha, n, i as nat);
        }
    } else if i == 0 {
        lemma_oldest_is_covered(alpha, n);
    } else {
        lemma_other_is_covered(alpha, n, i as nat);
    }
}

} // verus!
