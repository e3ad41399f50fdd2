//! Significands that represent the exact results of arithmetic.
//!
//! An exact product, quotient, scaling or root is a ratio of integers, or the root of
//! one. Each lemma here says that an integer significand with an exponent stands for it
//! closely enough to be rounded.
use vstd::arithmetic::mul::{
    lemma_mul_inequality, lemma_mul_inequality_converse, lemma_mul_strict_inequality,
    lemma_mul_strict_inequality_converse, lemma_mul_strictly_positive, lemma_mul_upper_bound,
};
use vstd::arithmetic::power2::{lemma_pow2_adds, lemma_pow2_pos, pow2};
use vstd::prelude::*;

use crate::binary::{HIDDEN64, INFINITY64};
use crate::rounding;

verus! {

/// Whether the nonnegative pattern `mag` is the square root of `a`, both in least
/// positive numbers, rounded to nearest, ties to even: compared by squares against the
/// midpoint to every other pattern.
pub open spec fn nearest_even_root(mag: nat, a: nat) -> bool {
    &&& mag <= INFINITY64
    &&& forall|other: nat|
        other <= INFINITY64 && other != mag ==> {
            let sum = rounding::units64(mag) + #[trigger] rounding::units64(other);
            &&& other > mag ==> 4 * a <= sum * sum
            &&& other < mag ==> sum * sum <= 4 * a
            &&& sum * sum == 4 * a ==> mag % 2 == 0
        }
}

/// A significand on a scale represents itself.
pub proof fn lemma_exact_represents(m: nat, e: nat)
    ensures
        rounding::represents(m, false, e as int, m * pow2(e), 1),
{
    vstd::arithmetic::power2::lemma_pow2_pos(e);
    let p = pow2(e);
    assert(p * 1 == p) by (nonlinear_arith);
    let a = m * p;
    assert(a * 1 == a) by (nonlinear_arith);
}

/// A significand has at most 53 bits.
pub proof fn lemma_at_most_52(m: nat, l: nat)
    requires
        m < 2 * HIDDEN64,
        pow2(l) <= m,
    ensures
        l <= 52,
{
    vstd::arithmetic::power2::lemma2_to64_rest();
    if l > 53 {
        vstd::arithmetic::power2::lemma_pow2_strictly_increases(53, l);
    }
}

/// Lifting `m`, of `l + 1` bits, by `s` bits.
pub proof fn lemma_lift(m: nat, l: nat, s: nat)
    requires
        pow2(l) <= m < pow2(l + 1),
    ensures
        pow2(l + s) <= m * pow2(s) < pow2(l + s + 1),
{
    lemma_pow2_adds(l, s);
    lemma_pow2_adds(l + 1, s);
    lemma_pow2_pos(s);
    lemma_mul_inequality(pow2(l) as int, m as int, pow2(s) as int);
    lemma_mul_strict_inequality(m as int, pow2(l + 1) as int, pow2(s) as int);
}

/// Lifting a significand of `l + 1` bits by `52 - l` gives it 53.
pub proof fn lemma_normalized(m: nat, l: nat)
    requires
        pow2(l) <= m < pow2(l + 1),
        l <= 52,
    ensures
        HIDDEN64 <= m * pow2((52 - l) as nat) < 2 * HIDDEN64,
{
    vstd::arithmetic::power2::lemma2_to64_rest();
    lemma_lift(m, l, (52 - l) as nat);
}

/// The product of two significands represents the product.
pub proof fn lemma_product_represents(m1: nat, e1: nat, m2: nat, e2: nat)
    ensures
        rounding::represents(
            m1 * m2,
            false,
            e1 + e2 - 1074,
            (m1 * pow2(e1)) * (m2 * pow2(e2)),
            pow2(1074),
        ),
{
    let e = e1 + e2 - 1074;
    let (p1, p2, b) = (pow2(e1), pow2(e2), pow2(1074));
    let m = m1 * m2;
    let p = p1 * p2;
    assert((m1 * p1) * (m2 * p2) == (m1 * m2) * (p1 * p2)) by (nonlinear_arith);
    let a = m * p;
    lemma_pow2_adds(e1, e2);
    lemma_pow2_pos(1074);
    if e >= 0 {
        let up = pow2(e as nat);
        lemma_pow2_adds(e as nat, 1074);
        lemma_pow2_pos(e as nat);
        assert(a * 1 == a) by (nonlinear_arith);
        lemma_mul_strictly_positive(up as int, b as int);
    } else {
        let down = pow2((-e) as nat);
        lemma_pow2_adds(e1 + e2, (-e) as nat);
        assert(1 * b == b) by (nonlinear_arith);
        assert((m * p) * down == m * (p * down)) by (nonlinear_arith);
    }
}

/// A significand represents its value scaled by a power of two.
pub proof fn lemma_scaled_represents(m: nat, e: nat, n: int)
    ensures
        rounding::represents(
            m,
            false,
            e + n,
            (m * pow2(e)) * rounding::scale_up(n),
            rounding::scale_down(n),
        ),
        rounding::scale_down(n) > 0,
{
    let p = pow2(e);
    let v = m * p;
    assert(v * 1 == v) by (nonlinear_arith);
    if n >= 0 {
        let q = pow2(n as nat);
        lemma_pow2_adds(e, n as nat);
        lemma_pow2_pos(e + n as nat);
        let up = pow2((e + n) as nat);
        assert(up * 1 == up) by (nonlinear_arith);
        assert((m * p) * q == m * (p * q)) by (nonlinear_arith);
        let a = v * q;
        assert(a * 1 == a) by (nonlinear_arith);
    } else {
        let b = pow2((-n) as nat);
        lemma_pow2_pos((-n) as nat);
        if e + n >= 0 {
            let up = pow2((e + n) as nat);
            lemma_pow2_adds((e + n) as nat, (-n) as nat);
            lemma_pow2_pos((e + n) as nat);
            lemma_mul_strictly_positive(up as int, b as int);
        } else {
            let down = pow2((-(e + n)) as nat);
            lemma_pow2_adds(e, (-(e + n)) as nat);
            assert(1 * b == b) by (nonlinear_arith);
            assert((m * p) * down == m * (p * down)) by (nonlinear_arith);
        }
    }
}

/// The quotient of two normalized significands, the first widened by 64 bits, has from 64
/// to 66 bits.
pub proof fn lemma_quotient_bounds(wide: nat, n2: nat, quotient: nat, remainder: nat)
    requires
        wide == quotient * n2 + remainder,
        remainder < n2,
        HIDDEN64 <= n2 < 2 * HIDDEN64,
        HIDDEN64 * 0x1_0000_0000_0000_0000 <= wide < 2 * HIDDEN64 * 0x1_0000_0000_0000_0000,
    ensures
        0x0040_0000_0000_0000 <= quotient < 0x4_0000_0000_0000_0000,
{
    if quotient < 0x0040_0000_0000_0000 {
        lemma_mul_upper_bound(
            quotient as int,
            0x0040_0000_0000_0000,
            n2 as int,
            2 * HIDDEN64 as int,
        );
    }
    if quotient >= 0x4_0000_0000_0000_0000 {
        lemma_mul_upper_bound(
            0x4_0000_0000_0000_0000,
            quotient as int,
            HIDDEN64 as int,
            n2 as int,
        );
    }
}

/// The powers of two on the two sides of a quotient agree.
proof fn lemma_quotient_scale(e1: nat, s1: nat, e2: nat, s2: nat, e: int)
    requires
        e == e1 - e2 - s1 + s2 + 1010,
    ensures
        ((pow2(e1) * pow2(1074)) * pow2(s2)) * rounding::scale_down(e)
            == 0x1_0000_0000_0000_0000nat * ((pow2(e2) * pow2(s1)) * rounding::scale_up(e)),
{
    vstd::arithmetic::power2::lemma2_to64();
    let two64 = 0x1_0000_0000_0000_0000nat;
    let up = rounding::scale_up(e);
    lemma_pow2_adds(e1, 1074);
    lemma_pow2_adds(e1 + 1074, s2);
    lemma_pow2_adds(e2, s1);
    lemma_pow2_adds(64, e2 + s1);
    let x = pow2(e2) * pow2(s1);
    let y = (pow2(e1) * pow2(1074)) * pow2(s2);
    if e >= 0 {
        lemma_pow2_adds(64 + (e2 + s1), e as nat);
        assert(64 + (e2 + s1) + e as nat == e1 + 1074 + s2);
        assert((two64 * x) * up == two64 * (x * up)) by (nonlinear_arith);
        assert(y * 1 == y) by (nonlinear_arith);
    } else {
        lemma_pow2_adds(e1 + 1074 + s2, (-e) as nat);
        assert(e1 + 1074 + s2 + (-e) as nat == 64 + (e2 + s1));
        assert(x * 1 == x) by (nonlinear_arith);
    }
}

/// From agreeing scalings to an interval: with `exact * k == n * z`, `w * k == d * z` and
/// `n == q * d + r`, the value `exact` lies `r * z / k` past `q * w`.
proof fn lemma_interval(exact: int, w: int, k: int, z: int, n: int, d: int, q: int, r: int)
    requires
        exact * k == n * z,
        w * k == d * z,
        n == q * d + r,
        0 <= r < d,
        k > 0,
        z > 0,
    ensures
        q * w <= exact < q * w + w,
        exact == q * w <==> r == 0,
{
    let diff = exact - q * w;
    assert((exact - q * w) * k == exact * k - q * (w * k)) by (nonlinear_arith);
    assert(n * z - q * (d * z) == (n - q * d) * z) by (nonlinear_arith);
    assert(diff * k == r * z);
    lemma_mul_strict_inequality(r, d, z);
    lemma_mul_strict_inequality_converse(diff, w, k);
    lemma_mul_inequality(0, r, z);
    lemma_mul_inequality_converse(0, diff, k);
    if r > 0 {
        lemma_mul_strictly_positive(r, z);
    }
    if diff > 0 {
        lemma_mul_strictly_positive(diff, k);
    }
}

/// The quotient of two lifted significands, the first widened by 64 bits, represents the
/// quotient of the values.
pub proof fn lemma_quotient_represents(
    m1: nat,
    e1: nat,
    s1: nat,
    m2: nat,
    e2: nat,
    s2: nat,
    quotient: nat,
    remainder: nat,
)
    requires
        m2 > 0,
        (m1 * pow2(s1)) * 0x1_0000_0000_0000_0000nat == quotient * (m2 * pow2(s2)) + remainder,
        remainder < m2 * pow2(s2),
    ensures
        rounding::represents(
            quotient,
            remainder != 0,
            e1 - e2 - s1 + s2 + 1010,
            (m1 * pow2(e1)) * pow2(1074),
            m2 * pow2(e2),
        ),
        m2 * pow2(e2) > 0,
{
    let e = e1 - e2 - s1 + s2 + 1010;
    let (f1, f2, g1, g2, t) = (pow2(e1), pow2(e2), pow2(s1), pow2(s2), pow2(1074));
    let two64 = 0x1_0000_0000_0000_0000nat;
    let up = rounding::scale_up(e);
    let down = rounding::scale_down(e);
    lemma_pow2_pos(s1);
    lemma_pow2_pos(s2);
    lemma_pow2_pos(e2);
    if e >= 0 {
        lemma_pow2_pos(e as nat);
    } else {
        lemma_pow2_pos((-e) as nat);
    }
    let exact = ((m1 * f1) * t) * down;
    let w = up * (m2 * f2);
    let k = g1 * g2;
    let z = (f2 * g1) * up;
    lemma_quotient_scale(e1, s1, e2, s2, e);
    let left = ((f1 * t) * g2) * down;
    assert((((m1 * f1) * t) * down) * (g1 * g2) == (m1 * g1) * (((f1 * t) * g2) * down))
        by (nonlinear_arith);
    assert((m1 * g1) * (two64 * z) == ((m1 * g1) * two64) * z) by (nonlinear_arith);
    assert((up * (m2 * f2)) * (g1 * g2) == (m2 * g2) * ((f2 * g1) * up)) by (nonlinear_arith);
    lemma_mul_strictly_positive(g1 as int, g2 as int);
    lemma_mul_strictly_positive(f2 as int, g1 as int);
    lemma_mul_strictly_positive((f2 * g1) as int, up as int);
    lemma_mul_strictly_positive(m2 as int, f2 as int);
    lemma_interval(
        exact as int,
        w as int,
        k as int,
        z as int,
        ((m1 * g1) * two64) as int,
        (m2 * g2) as int,
        quotient as int,
        remainder as int,
    );
}

/// Lifting a significand for its root.
pub proof fn lemma_lift_for_root(m: nat, l: nat, s: nat)
    requires
        pow2(l) <= m < pow2(l + 1),
        112 <= l + s <= 113,
    ensures
        0x1_0000_0000_0000_0000_0000_0000_0000 <= m * pow2(s)
            < 0x4_0000_0000_0000_0000_0000_0000_0000,
        pow2(s) <= u128::MAX,
{
    lemma_lift(m, l, s);
    vstd::arithmetic::power2::lemma2_to64();
    vstd::arithmetic::power2::lemma2_to64_rest();
    lemma_pow2_adds(64, 48);
    lemma_pow2_adds(64, 49);
    lemma_pow2_adds(64, 50);
    lemma_pow2_pos(l);
    lemma_mul_inequality(1, m as int, pow2(s) as int);
}

/// The integer root of a lifted significand is wide enough to be sticky.
pub proof fn lemma_root_bound(lifted: nat, root: nat)
    requires
        lifted < (root + 1) * (root + 1),
        lifted >= 0x1_0000_0000_0000_0000_0000_0000_0000,
    ensures
        0x0040_0000_0000_0000 <= root,
{
    if root < 0x0040_0000_0000_0000 {
        lemma_mul_upper_bound(
            (root + 1) as int,
            0x0040_0000_0000_0000,
            (root + 1) as int,
            0x0040_0000_0000_0000,
        );
    }
}

/// The lifted significand over an even power of two is the radicand.
pub proof fn lemma_root_scale(m: nat, e: nat, s: nat, h: nat)
    requires
        s + 2 * h == e + 1074,
    ensures
        (m * pow2(e)) * pow2(1074) == (m * pow2(s)) * (pow2(h) * pow2(h)),
{
    let (pe, ps, ph, t) = (pow2(e), pow2(s), pow2(h), pow2(1074));
    lemma_pow2_adds(e, 1074);
    lemma_pow2_adds(h, h);
    lemma_pow2_adds(s, h + h);
    assert((m * pe) * t == m * (pe * t)) by (nonlinear_arith);
    assert((m * ps) * (ph * ph) == m * (ps * (ph * ph))) by (nonlinear_arith);
}

/// Natural numbers compare as their squares do.
pub proof fn lemma_compare_squares(x: nat, y: nat)
    ensures
        x <= y <==> x * x <= y * y,
        x == y <==> x * x == y * y,
{
    if x < y {
        lemma_mul_upper_bound(x as int, x as int, x as int, y as int);
        lemma_mul_strict_inequality(x as int, y as int, y as int);
    } else if y < x {
        lemma_mul_upper_bound(y as int, y as int, y as int, x as int);
        lemma_mul_strict_inequality(y as int, x as int, x as int);
    }
}

/// What the nearest root must satisfy against one other pattern.
spec fn root_compares(mag: nat, other: nat, a: nat) -> bool {
    let sum = rounding::units64(mag) + rounding::units64(other);
    &&& other > mag ==> 4 * a <= sum * sum
    &&& other < mag ==> sum * sum <= 4 * a
    &&& sum * sum == 4 * a ==> mag % 2 == 0
}

/// Rounding an exact root gives the nearest root.
proof fn lemma_exact_root_compares(mag: nat, other: nat, lo: nat, a: nat)
    requires
        mag <= INFINITY64,
        other <= INFINITY64,
        other != mag,
        a == lo * lo,
        rounding::nearest_even(mag, lo, 1),
    ensures
        root_compares(mag, other, a),
{
    let (u, o) = (rounding::units64(mag), rounding::units64(other));
    let sum = u + o;
    assert(rounding::distance(mag, lo, 1) <= rounding::distance(other, lo, 1));
    assert(u * 1 == u && o * 1 == o) by (nonlinear_arith);
    if other > mag {
        rounding::lemma_units64_scaled(mag, other, 1);
        assert(2 * lo <= sum);
    } else {
        rounding::lemma_units64_scaled(other, mag, 1);
        assert(sum <= 2 * lo);
    }
    lemma_compare_squares(sum, 2 * lo);
    lemma_compare_squares(2 * lo, sum);
    assert((2 * lo) * (2 * lo) == 4 * (lo * lo)) by (nonlinear_arith);
}

/// Rounding an inexact root gives the nearest root: two ratios just inside the interval
/// pin the side of every midpoint on which it lies.
proof fn lemma_inexact_root_compares(mag: nat, other: nat, lo: nat, hi: nat, a: nat)
    requires
        mag <= INFINITY64,
        other <= INFINITY64,
        other != mag,
        lo * lo < a < hi * hi,
        hi > 0,
        rounding::nearest_even(mag, (4 * hi - 1) as nat, 4),
        rounding::nearest_even(mag, 4 * lo + 1, 4),
    ensures
        root_compares(mag, other, a),
{
    let (u, o) = (rounding::units64(mag), rounding::units64(other));
    let sum = u + o;
    let (x1, x2) = ((4 * hi - 1) as nat, 4 * lo + 1);
    assert(rounding::distance(mag, x1, 4) <= rounding::distance(other, x1, 4));
    assert(rounding::distance(mag, x2, 4) <= rounding::distance(other, x2, 4));
    if other > mag {
        rounding::lemma_units64_scaled(mag, other, 4);
        assert(2 * hi <= sum);
        lemma_compare_squares(2 * hi, sum);
        assert((2 * hi) * (2 * hi) == 4 * (hi * hi)) by (nonlinear_arith);
    } else {
        rounding::lemma_units64_scaled(other, mag, 4);
        assert(sum <= 2 * lo);
        lemma_compare_squares(sum, 2 * lo);
        assert((2 * lo) * (2 * lo) == 4 * (lo * lo)) by (nonlinear_arith);
    }
}

/// Rounding the integer root of the lifted significand gives the nearest root.
pub proof fn lemma_root_is_nearest(
    mag: nat,
    root: nat,
    sticky: bool,
    h: nat,
    lifted: nat,
    a: nat,
)
    requires
        mag <= INFINITY64,
        sticky == (root * root != lifted),
        root * root <= lifted < (root + 1) * (root + 1),
        a == lifted * (pow2(h) * pow2(h)),
        forall|x: nat, y: nat| #[trigger]
            rounding::represents(root, sticky, h as int, x, y) ==> rounding::nearest_even(
                mag,
                x,
                y,
            ),
    ensures
        nearest_even_root(mag, a),
{
    let p = pow2(h);
    lemma_pow2_pos(h);
    let lo = root * p;
    let hi = (root + 1) * p;
    let pp = p * p;
    lemma_mul_strictly_positive(p as int, p as int);
    assert((root * p) * (root * p) == (root * root) * (p * p)) by (nonlinear_arith);
    assert(((root + 1) * p) * ((root + 1) * p) == ((root + 1) * (root + 1)) * (p * p))
        by (nonlinear_arith);
    assert((root + 1) * p == root * p + p) by (nonlinear_arith);
    lemma_mul_strict_inequality(lifted as int, ((root + 1) * (root + 1)) as int, pp as int);
    if sticky {
        lemma_mul_strict_inequality((root * root) as int, lifted as int, pp as int);
        let (x1, x2) = ((4 * hi - 1) as nat, 4 * lo + 1);
        assert(root * (p * 4) == 4 * (root * p)) by (nonlinear_arith);
        assert(x1 * 1 == x1 && x2 * 1 == x2) by (nonlinear_arith);
        assert(rounding::represents(root, true, h as int, x1, 4));
        assert(rounding::represents(root, true, h as int, x2, 4));
        assert forall|other: nat| other <= INFINITY64 && other != mag implies {
            let sum = rounding::units64(mag) + #[trigger] rounding::units64(other);
            &&& other > mag ==> 4 * a <= sum * sum
            &&& other < mag ==> sum * sum <= 4 * a
            &&& sum * sum == 4 * a ==> mag % 2 == 0
        } by {
            lemma_inexact_root_compares(mag, other, lo, hi, a);
        }
    } else {
        lemma_exact_represents(root, h);
        assert forall|other: nat| other <= INFINITY64 && other != mag implies {
            let sum = rounding::units64(mag) + #[trigger] rounding::units64(other);
            &&& other > mag ==> 4 * a <= sum * sum
            &&& other < mag ==> sum * sum <= 4 * a
            &&& sum * sum == 4 * a ==> mag % 2 == 0
        } by {
            lemma_exact_root_compares(mag, other, lo, a);
        }
    }
}

} // verus!
