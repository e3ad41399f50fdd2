//! Rounding to the nearest binary64 value.
use vstd::arithmetic::power2::pow2;
use vstd::prelude::*;

use crate::binary::{HIDDEN64, INFINITY64};

verus! {

/// The value of the nonnegative pattern `mag`, in units of the least positive number;
/// infinity counts as the power of two past the largest finite value.
pub open spec fn units64(mag: nat) -> nat {
    crate::binary::units(mag, HIDDEN64 as nat)
}

/// The distance between the ratio `a / b` and the value of the pattern `mag`, in units
/// of the least positive number and scaled by `b`.
pub open spec fn distance(mag: nat, a: nat, b: nat) -> nat {
    if units64(mag) * b >= a {
        (units64(mag) * b - a) as nat
    } else {
        (a - units64(mag) * b) as nat
    }
}

/// Whether the nonnegative pattern `mag` is `a / b` least positive numbers rounded to
/// nearest, ties to even: no pattern is nearer, and another one is as near only where
/// `mag` is the even one of the two.
pub open spec fn nearest_even(mag: nat, a: nat, b: nat) -> bool {
    &&& mag <= INFINITY64
    &&& forall|other: nat|
        other <= INFINITY64 && other != mag ==> {
            &&& distance(mag, a, b) <= #[trigger] distance(other, a, b)
            &&& distance(mag, a, b) == distance(other, a, b) ==> mag % 2 == 0
        }
}

/// The value nearest to a ratio is unique.
pub proof fn nearest_is_unique(x: nat, y: nat, a: nat, b: nat)
    requires
        b > 0,
        nearest_even(x, a, b),
        nearest_even(y, a, b),
    ensures
        x == y,
{
    if x != y {
        let lo = if x < y {
            x
        } else {
            y
        };
        let hi = if x < y {
            y
        } else {
            x
        };
        // Both are as near as each other, so both are even and the pattern between them
        // is nearer still.
        assert(distance(lo, a, b) <= distance(hi, a, b));
        assert(distance(hi, a, b) <= distance(lo, a, b));
        let mid = lo + 1;
        assert(mid < hi);
        lemma_units64_scaled(lo, mid, b);
        lemma_units64_scaled(mid, hi, b);
        assert(distance(lo, a, b) <= distance(mid, a, b));
        assert(distance(hi, a, b) <= distance(mid, a, b));
    }
}

/// A larger pattern has a larger value, by at least the step past the smaller.
pub proof fn lemma_units64_scaled(x: nat, y: nat, b: nat)
    requires
        x < y,
        b > 0,
    ensures
        units64(x) * b + crate::binary::ulp(x, HIDDEN64 as nat) * b <= units64(y) * b,
        units64(x) * b < units64(y) * b,
{
    let h = HIDDEN64 as nat;
    let (u, v, g) = (units64(x), units64(y), crate::binary::ulp(x, h));
    crate::binary::lemma_units_increase(x, y, h);
    assert(u * b + g * b <= v * b && u * b < v * b) by (nonlinear_arith)
        requires
            u + g <= v,
            g > 0,
            b > 0,
    ;
}

/// A pattern whose value is the ratio itself is the nearest one.
pub proof fn lemma_exact_is_nearest(mag: nat, a: nat, b: nat)
    requires
        mag <= INFINITY64,
        b > 0,
        units64(mag) * b == a,
    ensures
        nearest_even(mag, a, b),
{
    assert forall|other: nat| other <= INFINITY64 && other != mag implies {
        &&& distance(mag, a, b) <= #[trigger] distance(other, a, b)
        &&& distance(mag, a, b) == distance(other, a, b) ==> mag % 2 == 0
    } by {
        if other < mag {
            lemma_units64_scaled(other, mag, b);
        } else {
            lemma_units64_scaled(mag, other, b);
        }
    }
}

/// A ratio at or past the power of two that infinity stands for rounds to infinity.
pub proof fn lemma_overflow_is_nearest(a: nat, b: nat)
    requires
        b > 0,
        units64(INFINITY64 as nat) * b <= a,
    ensures
        nearest_even(INFINITY64 as nat, a, b),
{
    assert forall|other: nat| other <= INFINITY64 && other != INFINITY64 implies {
        &&& distance(INFINITY64 as nat, a, b) <= #[trigger] distance(other, a, b)
        &&& distance(INFINITY64 as nat, a, b) == distance(other, a, b) ==> INFINITY64 as nat % 2
            == 0
    } by {
        lemma_units64_scaled(other, INFINITY64 as nat, b);
    }
}

/// A ratio below half of the least positive number rounds to zero.
pub proof fn lemma_underflow_is_nearest(a: nat, b: nat)
    requires
        b > 0,
        2 * a < b,
    ensures
        nearest_even(0, a, b),
{
    assert(units64(0) == 0);
    assert(0 * b == 0) by (nonlinear_arith);
    assert forall|other: nat| other <= INFINITY64 && other != 0 implies {
        &&& distance(0, a, b) <= #[trigger] distance(other, a, b)
        &&& distance(0, a, b) == distance(other, a, b) ==> 0nat % 2 == 0
    } by {
        lemma_units64_scaled(0, other, b);
        assert(crate::binary::ulp(0, HIDDEN64 as nat) * b == b) by (nonlinear_arith)
            requires
                crate::binary::ulp(0, HIDDEN64 as nat) == 1,
        ;
    }
}

/// A pattern whose value lies within half a step of the ratio on either side, and at
/// exactly half a step only if it is even, is the nearest one.
pub proof fn lemma_half_step_is_nearest(mag: nat, a: nat, b: nat)
    requires
        mag <= INFINITY64,
        b > 0,
        ({
            let value = units64(mag) * b;
            let above = crate::binary::ulp(mag, HIDDEN64 as nat) * b;
            &&& 2 * (a - value) <= above
            &&& 2 * (a - value) == above ==> mag % 2 == 0
        }),
        mag > 0 ==> {
            let value = units64(mag) * b;
            let below = crate::binary::ulp((mag - 1) as nat, HIDDEN64 as nat) * b;
            &&& 2 * (value - a) <= below
            &&& 2 * (value - a) == below ==> mag % 2 == 0
        },
    ensures
        nearest_even(mag, a, b),
{
    assert forall|other: nat| other <= INFINITY64 && other != mag implies {
        &&& distance(mag, a, b) <= #[trigger] distance(other, a, b)
        &&& distance(mag, a, b) == distance(other, a, b) ==> mag % 2 == 0
    } by {
        if other > mag {
            lemma_units64_scaled(mag, other, b);
            if mag == 0 {
                assert(units64(0) == 0);
                assert(0 * b == 0) by (nonlinear_arith);
            }
        } else {
            let before = (mag - 1) as nat;
            let h = HIDDEN64 as nat;
            let (u, v, g) = (units64(before), units64(mag), crate::binary::ulp(before, h));
            crate::binary::lemma_units_step(before, h);
            assert(u * b + g * b == v * b && g * b > 0) by (nonlinear_arith)
                requires
                    u + g == v,
                    g > 0,
                    b > 0,
            ;
            if other < before {
                lemma_units64_scaled(other, before, b);
            }
        }
    }
}

/// The pattern of a significand `kept` scaled by `2^e` least positive numbers, with the
/// steps on either side of it. Only the lowest scale admits a significand below the
/// hidden bit.
pub proof fn lemma_pattern(kept: nat, e: nat)
    requires
        kept <= 2 * HIDDEN64,
        e > 0 ==> kept >= HIDDEN64,
    ensures
        ({
            let h = HIDDEN64 as nat;
            let mag = (e * h + kept) as nat;
            &&& units64(mag) == kept * pow2(e)
            &&& kept < 2 * h ==> crate::binary::ulp(mag, h) == pow2(e)
            &&& kept > h || (e == 0 && kept > 0) ==> crate::binary::ulp((mag - 1) as nat, h)
                == pow2(e)
            &&& kept % 2 == 0 ==> mag % 2 == 0
            &&& e == 0 ==> mag == kept
        }),
{
    let h = HIDDEN64 as nat;
    let mag = (e * h + kept) as nat;
    vstd::arithmetic::power2::lemma2_to64();
    assert(kept * 1 == kept) by (nonlinear_arith);
    assert(e == 0 ==> e * h == 0) by (nonlinear_arith);
    if kept >= h {
        if kept < 2 * h {
            assert(mag == (e + 1) * h + (kept - h)) by (nonlinear_arith)
                requires
                    mag == e * h + kept,
            ;
            vstd::arithmetic::div_mod::lemma_fundamental_div_mod_converse(
                mag as int,
                h as int,
                (e + 1) as int,
                kept - h,
            );
        } else {
            assert(mag == (e + 2) * h + 0) by (nonlinear_arith)
                requires
                    mag == e * h + kept,
                    kept == 2 * h,
            ;
            vstd::arithmetic::div_mod::lemma_fundamental_div_mod_converse(
                mag as int,
                h as int,
                (e + 2) as int,
                0,
            );
            vstd::arithmetic::power2::lemma_pow2_unfold((e + 1) as nat);
            let p = pow2(e);
            assert((h + 0) * (2 * p) == kept * p) by (nonlinear_arith)
                requires
                    kept == 2 * h,
            ;
        }
    }
    if kept > h {
        assert(mag - 1 == (e + 1) * h + (kept - 1 - h)) by (nonlinear_arith)
            requires
                mag == e * h + kept,
        ;
        vstd::arithmetic::div_mod::lemma_fundamental_div_mod_converse(
            mag - 1,
            h as int,
            (e + 1) as int,
            kept - 1 - h,
        );
    }
    assert(kept % 2 == 0 ==> mag % 2 == 0) by {
        assert(e * h == 2 * (e * (h / 2))) by (nonlinear_arith)
            requires
                h == 2 * (h / 2),
        ;
    }
}

/// `2^e` for a nonnegative `e`, and one otherwise.
pub open spec fn scale_up(e: int) -> nat {
    if e >= 0 {
        pow2(e as nat)
    } else {
        1
    }
}

/// `2^-e` for a negative `e`, and one otherwise.
pub open spec fn scale_down(e: int) -> nat {
    if e < 0 {
        pow2((-e) as nat)
    } else {
        1
    }
}

/// Whether `a / b` is `m * 2^e` and less than one unit of `2^e` more, exactly `m * 2^e`
/// where `sticky` is not set.
pub open spec fn represents(m: nat, sticky: bool, e: int, a: nat, b: nat) -> bool {
    let whole = m * (scale_up(e) * b);
    let exact = a * scale_down(e);
    &&& b > 0
    &&& whole <= exact < whole + scale_up(e) * b
    &&& exact == whole <==> !sticky
}

/// Whether dropping the low `t` bits of `m` rounds up: above the midpoint, or at it
/// with something beyond or an odd rest.
pub open spec fn rounds_up(m: nat, sticky: bool, t: nat) -> bool {
    let unit = pow2(t);
    let dropped = m % unit;
    dropped > unit / 2 || (dropped == unit / 2 && (sticky || (m / unit) % 2 == 1))
}

/// `m` with its low `t` bits rounded off.
pub open spec fn rounded_off(m: nat, sticky: bool, t: nat) -> nat {
    if rounds_up(m, sticky, t) {
        m / pow2(t) + 1
    } else {
        m / pow2(t)
    }
}

/// Rounding off the low bits is within half a unit of the value, and at exactly half a
/// unit only if the rest is even.
proof fn lemma_rounded_off(m: nat, sticky: bool, t: nat, exact: nat, w: nat)
    requires
        t > 0,
        w > 0,
        m * w <= exact < m * w + w,
        exact == m * w <==> !sticky,
    ensures
        ({
            let kept = rounded_off(m, sticky, t);
            let err = exact - kept * (pow2(t) * w);
            &&& -(pow2(t) * w) <= 2 * err <= pow2(t) * w
            &&& (2 * err == pow2(t) * w || -2 * err == pow2(t) * w) ==> kept % 2 == 0
            &&& kept == m / pow2(t) ==> err >= 0
            &&& kept != m / pow2(t) ==> err <= 0
        }),
{
    let unit = pow2(t);
    vstd::arithmetic::power2::lemma_pow2_pos(t);
    vstd::arithmetic::power2::lemma_pow2_unfold(t);
    let half = pow2((t - 1) as nat);
    vstd::arithmetic::power2::lemma_pow2_pos((t - 1) as nat);
    assert(unit == 2 * half);
    let dropped = m % unit;
    let down = m / unit;
    let kept = rounded_off(m, sticky, t);
    vstd::arithmetic::div_mod::lemma_fundamental_div_mod(m as int, unit as int);
    vstd::arithmetic::div_mod::lemma_mod_bound(m as int, unit as int);
    let rem = exact - m * w;
    let uw = unit * w;
    let err = exact - kept * uw;
    assert(m * w == down * uw + dropped * w) by (nonlinear_arith)
        requires
            m == unit * down + dropped,
            uw == unit * w,
    ;
    assert(uw == 2 * (half * w)) by (nonlinear_arith)
        requires
            uw == unit * w,
            unit == 2 * half,
    ;
    assert(dropped * w >= 0) by (nonlinear_arith);
    if kept == down {
        if dropped < half {
            assert(dropped * w + w <= half * w) by (nonlinear_arith)
                requires
                    dropped + 1 <= half,
            ;
        }
    } else {
        assert(kept * uw == down * uw + uw) by (nonlinear_arith)
            requires
                kept == down + 1,
        ;
        if dropped > half {
            assert(dropped * w >= half * w + w) by (nonlinear_arith)
                requires
                    dropped >= half + 1,
            ;
        }
        assert(dropped * w + w <= uw) by (nonlinear_arith)
            requires
                dropped + 1 <= unit,
                uw == unit * w,
        ;
    }
}

/// Rounding `m * 2^e` off at bit `t` to a significand gives the nearest pattern.
proof fn lemma_rounding(m: nat, sticky: bool, e: int, t: nat, a: nat, b: nat)
    requires
        t > 0,
        e + t >= 0,
        represents(m, sticky, e, a, b),
        m / pow2(t) < 2 * HIDDEN64,
        e + t > 0 ==> m / pow2(t) >= HIDDEN64,
        (e + t) * HIDDEN64 + rounded_off(m, sticky, t) <= INFINITY64,
    ensures
        nearest_even(((e + t) * HIDDEN64 + rounded_off(m, sticky, t)) as nat, a, b),
{
    let h = HIDDEN64 as nat;
    let scale = (e + t) as nat;
    let kept = rounded_off(m, sticky, t);
    let down_kept = m / pow2(t);
    let mag = (scale * h + kept) as nat;
    let up = scale_up(e);
    let down = scale_down(e);
    let w = up * b;
    let exact = a * down;
    vstd::arithmetic::power2::lemma_pow2_pos(scale);
    if e >= 0 {
        vstd::arithmetic::power2::lemma_pow2_pos(e as nat);
        vstd::arithmetic::power2::lemma_pow2_adds(t, e as nat);
        assert(pow2(scale) * 1 == pow2(scale)) by (nonlinear_arith);
    } else {
        vstd::arithmetic::power2::lemma_pow2_pos((-e) as nat);
        vstd::arithmetic::power2::lemma_pow2_adds(scale, (-e) as nat);
        assert(pow2(t) * 1 == pow2(t)) by (nonlinear_arith);
    }
    let p = pow2(scale);
    // The two scalings of the kept unit agree.
    assert(p * down == pow2(t) * up);
    assert(w > 0) by (nonlinear_arith)
        requires
            w == up * b,
            up > 0,
            b > 0,
    ;
    lemma_rounded_off(m, sticky, t, exact, w);
    lemma_pattern(kept, scale);
    let uw = pow2(t) * w;
    let err = exact - kept * uw;
    let value = units64(mag) * b;
    assert(value * down == kept * uw) by (nonlinear_arith)
        requires
            value == (kept * p) * b,
            p * down == pow2(t) * up,
            uw == pow2(t) * (up * b),
    ;
    let diff = a - value;
    assert(diff * down == err) by (nonlinear_arith)
        requires
            diff == a - value,
            err == a * down - value * down,
    ;
    let step = p * b;
    assert(step * down == uw) by (nonlinear_arith)
        requires
            step == p * b,
            p * down == pow2(t) * up,
            uw == pow2(t) * (up * b),
    ;
    // Undo the common scaling.
    assert(-step <= 2 * diff <= step) by (nonlinear_arith)
        requires
            diff * down == err,
            step * down == uw,
            -uw <= 2 * err <= uw,
            down > 0,
    ;
    assert(2 * diff == step ==> 2 * err == uw) by (nonlinear_arith)
        requires
            diff * down == err,
            step * down == uw,
    ;
    assert(-2 * diff == step ==> -2 * err == uw) by (nonlinear_arith)
        requires
            diff * down == err,
            step * down == uw,
    ;
    assert(diff > 0 ==> err > 0) by (nonlinear_arith)
        requires
            diff * down == err,
            down > 0,
    ;
    assert(diff < 0 ==> err < 0) by (nonlinear_arith)
        requires
            diff * down == err,
            down > 0,
    ;
    crate::binary::lemma_units_step(mag, h);
    let above = crate::binary::ulp(mag, h) * b;
    assert(above > 0) by (nonlinear_arith)
        requires
            above == crate::binary::ulp(mag, h) * b,
            crate::binary::ulp(mag, h) > 0,
            b > 0,
    ;
    if mag > 0 {
        crate::binary::lemma_units_step((mag - 1) as nat, h);
        let below = crate::binary::ulp((mag - 1) as nat, h) * b;
        assert(below > 0) by (nonlinear_arith)
            requires
                below == crate::binary::ulp((mag - 1) as nat, h) * b,
                crate::binary::ulp((mag - 1) as nat, h) > 0,
                b > 0,
        ;
    }
    assert(kept == down_kept || kept == down_kept + 1);
    if diff > 0 {
        // Rounded down, so the significand is below its limit.
        assert(kept == down_kept);
    }
    if diff < 0 {
        // Rounded up, so the significand is past the hidden bit.
        assert(kept == down_kept + 1);
    }
    lemma_half_step_is_nearest(mag, a, b);
}

/// Halve the range of a quotient of `m`: from `x` below `2^(2s)`, the quotient of `m` by
/// `2^l`, to one below `2^s`.
fn narrow(x: u128, l: u32, s: u32, power: u128, Ghost(m): Ghost<nat>) -> (r: (u128, u32))
    requires
        power == pow2(s as nat),
        x == m / pow2(l as nat),
        0 < x < pow2((2 * s) as nat),
        l <= 128,
        s <= 64,
    ensures
        r.0 == m / pow2(r.1 as nat),
        0 < r.0 < pow2(s as nat),
        l <= r.1 <= l + s,
{
    if x < power {
        return (x, l);
    }
    proof {
        let (p, q) = (pow2(s as nat), pow2(l as nat));
        vstd::arithmetic::power2::lemma_pow2_pos(s as nat);
        vstd::arithmetic::power2::lemma_pow2_pos(l as nat);
        vstd::arithmetic::power2::lemma_pow2_adds(l as nat, s as nat);
        vstd::arithmetic::power2::lemma_pow2_adds(s as nat, s as nat);
        vstd::arithmetic::div_mod::lemma_div_denominator(m as int, q as int, p as int);
        vstd::arithmetic::div_mod::lemma_div_non_zero(x as int, p as int);
        vstd::arithmetic::div_mod::lemma_fundamental_div_mod(x as int, p as int);
        vstd::arithmetic::div_mod::lemma_mod_bound(x as int, p as int);
        let y = x as nat / p;
        assert(y < p) by (nonlinear_arith)
            requires
                p * y <= x,
                x < p * p,
        ;
    }
    (x / power, l + s)
}

/// The exponent of the greatest power of two that is at most `m`.
pub fn floor_log2(m: u128) -> (l: u32)
    requires
        m > 0,
    ensures
        l < 128,
        pow2(l as nat) <= m < pow2((l + 1) as nat),
{
    proof {
        vstd::arithmetic::power2::lemma2_to64();
        vstd::arithmetic::power2::lemma_pow2_adds(64, 64);
    }
    let (x, l) = narrow(m, 0, 64, 0x1_0000_0000_0000_0000, Ghost(m as nat));
    let (x, l) = narrow(x, l, 32, 0x1_0000_0000, Ghost(m as nat));
    let (x, l) = narrow(x, l, 16, 0x1_0000, Ghost(m as nat));
    let (x, l) = narrow(x, l, 8, 0x100, Ghost(m as nat));
    let (x, l) = narrow(x, l, 4, 0x10, Ghost(m as nat));
    let (x, l) = narrow(x, l, 2, 4, Ghost(m as nat));
    let (x, l) = narrow(x, l, 1, 2, Ghost(m as nat));
    proof {
        let p = pow2(l as nat);
        vstd::arithmetic::power2::lemma_pow2_pos(l as nat);
        vstd::arithmetic::power2::lemma_pow2_unfold((l + 1) as nat);
        vstd::arithmetic::div_mod::lemma_fundamental_div_mod(m as int, p as int);
        vstd::arithmetic::div_mod::lemma_mod_bound(m as int, p as int);
        assert(p * 1 == p) by (nonlinear_arith);
    }
    l
}

/// One step of building a power of two: multiply by `2^s` where `left` has room for it.
fn raise(r: u128, left: u32, s: u32, power: u128, Ghost(t): Ghost<nat>) -> (res: (u128, u32))
    requires
        power == pow2(s as nat),
        left <= t < 128,
        r == pow2((t - left) as nat),
        left < 2 * s,
    ensures
        res.1 < s,
        res.1 <= t,
        res.0 == pow2((t - res.1) as nat),
{
    if left < s {
        return (r, left);
    }
    proof {
        vstd::arithmetic::power2::lemma_pow2_adds((t - left) as nat, s as nat);
        vstd::arithmetic::power2::lemma_pow2_strictly_increases((t - left + s) as nat, 128);
        vstd::arithmetic::power2::lemma2_to64();
        vstd::arithmetic::power2::lemma_pow2_adds(64, 64);
    }
    (r * power, left - s)
}

/// `2^t`.
pub fn power_of_two(t: u32) -> (r: u128)
    requires
        t < 128,
    ensures
        r == pow2(t as nat),
{
    proof {
        vstd::arithmetic::power2::lemma2_to64();
    }
    let (r, left) = raise(1, t, 64, 0x1_0000_0000_0000_0000, Ghost(t as nat));
    let (r, left) = raise(r, left, 32, 0x1_0000_0000, Ghost(t as nat));
    let (r, left) = raise(r, left, 16, 0x1_0000, Ghost(t as nat));
    let (r, left) = raise(r, left, 8, 0x100, Ghost(t as nat));
    let (r, left) = raise(r, left, 4, 0x10, Ghost(t as nat));
    let (r, left) = raise(r, left, 2, 4, Ghost(t as nat));
    let (r, left) = raise(r, left, 1, 2, Ghost(t as nat));
    r
}

/// The pattern nearest to any ratio that is `m * 2^e` least positive numbers, plus a
/// little more where `sticky` is set.
///
/// A sticky `m` must be wide enough for what it leaves out to lie below the midpoint.
pub fn round_to_nearest(m: u128, sticky: bool, e: i64) -> (r: u64)
    requires
        m < 0x4000_0000_0000_0000_0000_0000_0000_0000,
        sticky ==> m >= 0x0040_0000_0000_0000,
        -0x1_0000_0000 <= e <= 0x1_0000_0000,
    ensures
        r <= INFINITY64,
        forall|a: nat, b: nat| #[trigger]
            represents(m as nat, sticky, e as int, a, b) ==> nearest_even(r as nat, a, b),
        !sticky && m < 2 * HIDDEN64 && 0 <= e <= 2045 ==> units64(r as nat) == m * pow2(e as nat),
{
    if m == 0 {
        proof {
            assert forall|a: nat, b: nat| #[trigger]
                represents(m as nat, sticky, e as int, a, b) implies nearest_even(0, a, b) by {
                lemma_zero_is_nearest(sticky, e as int, a, b);
            }
            assert(units64(0) == 0);
            assert(0 * pow2(e as nat) == 0) by (nonlinear_arith);
        }
        return 0;
    }
    let l: i64 = floor_log2(m) as i64;
    // The number of low bits to drop: down to 53, and no further below the least
    // positive number.
    let t: i64 = if l - 52 >= -e {
        l - 52
    } else {
        -e
    };
    let scale: i64 = e + t;
    proof {
        vstd::arithmetic::power2::lemma2_to64();
        vstd::arithmetic::power2::lemma2_to64_rest();
    }
    if scale > 2045 {
        proof {
            assert(l - 52 == t);
            if m < 2 * HIDDEN64 && l > 52 {
                vstd::arithmetic::power2::lemma_pow2_unfold(53);
                if l > 53 {
                    vstd::arithmetic::power2::lemma_pow2_strictly_increases(53, l as nat);
                }
            }
            assert forall|a: nat, b: nat| #[trigger]
                represents(m as nat, sticky, e as int, a, b) implies nearest_even(
                INFINITY64 as nat,
                a,
                b,
            ) by {
                lemma_huge(m as nat, sticky, e as int, l as nat, a, b);
            }
        }
        return INFINITY64;
    }
    if t <= 0 {
        // Nothing is dropped: the value is a pattern.
        proof {
            if sticky {
                if l < 54 {
                    vstd::arithmetic::power2::lemma_pow2_strictly_increases(l as nat, 54);
                    if l + 1 < 54 {
                        vstd::arithmetic::power2::lemma_pow2_strictly_increases(
                            (l + 1) as nat,
                            54,
                        );
                    }
                }
            }
            assert(!sticky);
            lemma_lifted(m as nat, l as nat, (-t) as nat);
        }
        let kept: u128 = m * power_of_two((-t) as u32);
        proof {
            lemma_pattern(kept as nat, scale as nat);
            assert forall|a: nat, b: nat| #[trigger]
                represents(m as nat, sticky, e as int, a, b) implies nearest_even(
                (scale * HIDDEN64 + kept) as nat,
                a,
                b,
            ) by {
                lemma_exact(m as nat, e as int, (-t) as nat, a, b);
            }
            vstd::arithmetic::power2::lemma_pow2_adds(scale as nat, (-t) as nat);
            assert((m * pow2((-t) as nat)) * pow2(scale as nat) == m * (pow2(scale as nat) * pow2(
                (-t) as nat,
            ))) by (nonlinear_arith);
        }
        return scale as u64 * HIDDEN64 + kept as u64;
    }
    proof {
        if m < 2 * HIDDEN64 {
            // Fewer than 54 bits drop only below the least positive number.
            if l > 52 {
                vstd::arithmetic::power2::lemma_pow2_strictly_increases(52, l as nat);
                vstd::arithmetic::power2::lemma_pow2_unfold(53);
                if l > 53 {
                    vstd::arithmetic::power2::lemma_pow2_strictly_increases(53, l as nat);
                }
            }
        }
    }
    if t > 126 {
        // Below half of the least positive number.
        proof {
            assert forall|a: nat, b: nat| #[trigger]
                represents(m as nat, sticky, e as int, a, b) implies nearest_even(0, a, b) by {
                lemma_tiny(m as nat, sticky, e as int, l as nat, a, b);
            }
        }
        return 0;
    }
    let unit: u128 = power_of_two(t as u32);
    proof {
        vstd::arithmetic::power2::lemma_pow2_pos(t as nat);
    }
    let mut kept: u128 = m / unit;
    let dropped: u128 = m % unit;
    proof {
        lemma_kept(m as nat, l as nat, t as nat, e as int);
        vstd::arithmetic::power2::lemma_pow2_unfold(t as nat);
    }
    let ghost down = kept;
    if dropped > unit / 2 || (dropped == unit / 2 && (sticky || kept % 2 == 1)) {
        kept = kept + 1;
    }
    proof {
        assert(kept == rounded_off(m as nat, sticky, t as nat));
        assert forall|a: nat, b: nat| #[trigger]
            represents(m as nat, sticky, e as int, a, b) implies nearest_even(
            (scale * HIDDEN64 + kept) as nat,
            a,
            b,
        ) by {
            lemma_rounding(m as nat, sticky, e as int, t as nat, a, b);
        }
    }
    scale as u64 * HIDDEN64 + kept as u64
}

/// Nothing rounds to zero.
proof fn lemma_zero_is_nearest(sticky: bool, e: int, a: nat, b: nat)
    requires
        !sticky,
        represents(0, sticky, e, a, b),
    ensures
        nearest_even(0, a, b),
{
    let down = scale_down(e);
    let w = scale_up(e) * b;
    if e < 0 {
        vstd::arithmetic::power2::lemma_pow2_pos((-e) as nat);
    }
    assert(0 * w == 0) by (nonlinear_arith);
    assert(a == 0) by (nonlinear_arith)
        requires
            a * down == 0,
            down > 0,
    ;
    assert(units64(0) == 0);
    assert(0 * b == 0) by (nonlinear_arith);
    lemma_exact_is_nearest(0, a, b);
}

/// Lifting a value of `l + 1` bits by at most `52 - l` bits keeps it a significand.
proof fn lemma_lifted(m: nat, l: nat, s: nat)
    requires
        pow2(l) <= m < pow2(l + 1),
        l + s <= 52,
    ensures
        m * pow2(s) < 2 * HIDDEN64,
        l + s == 52 ==> m * pow2(s) >= HIDDEN64,
{
    vstd::arithmetic::power2::lemma2_to64_rest();
    vstd::arithmetic::power2::lemma_pow2_adds(l, s);
    vstd::arithmetic::power2::lemma_pow2_adds(l + 1, s);
    vstd::arithmetic::power2::lemma_pow2_pos(s);
    let p = pow2(s);
    assert(pow2(l) * p <= m * p < pow2(l + 1) * p) by (nonlinear_arith)
        requires
            pow2(l) <= m < pow2(l + 1),
            p > 0,
    ;
    if l + s < 52 {
        vstd::arithmetic::power2::lemma_pow2_strictly_increases(l + 1 + s, 53);
    }
}

/// A significand that fits is not rounded.
proof fn lemma_exact(m: nat, e: int, s: nat, a: nat, b: nat)
    requires
        represents(m, false, e, a, b),
        e - s >= 0,
        (e - s) * HIDDEN64 + m * pow2(s) <= INFINITY64,
        m * pow2(s) < 2 * HIDDEN64,
        e - s > 0 ==> m * pow2(s) >= HIDDEN64,
    ensures
        nearest_even(((e - s) * HIDDEN64 + m * pow2(s)) as nat, a, b),
{
    let scale = (e - s) as nat;
    let kept = m * pow2(s);
    lemma_pattern(kept, scale);
    vstd::arithmetic::power2::lemma_pow2_adds(scale, s);
    let p = pow2(scale);
    let q = pow2(s);
    assert((m * q) * p * b == m * ((p * q) * b)) by (nonlinear_arith);
    assert(a * 1 == a) by (nonlinear_arith);
    lemma_exact_is_nearest((scale * HIDDEN64 + kept) as nat, a, b);
}

/// The significand that is left after dropping `t` bits is in range.
proof fn lemma_kept(m: nat, l: nat, t: nat, e: int)
    requires
        pow2(l) <= m < pow2(l + 1),
        0 < t,
        t >= l - 52,
        e + t > 0 ==> t == l - 52,
    ensures
        m / pow2(t) < 2 * HIDDEN64,
        e + t > 0 ==> m / pow2(t) >= HIDDEN64,
{
    vstd::arithmetic::power2::lemma2_to64_rest();
    vstd::arithmetic::power2::lemma_pow2_pos(t);
    let u = pow2(t);
    let q = m / u;
    vstd::arithmetic::div_mod::lemma_fundamental_div_mod(m as int, u as int);
    vstd::arithmetic::div_mod::lemma_mod_bound(m as int, u as int);
    vstd::arithmetic::power2::lemma_pow2_adds(53, t);
    if l + 1 < 53 + t {
        vstd::arithmetic::power2::lemma_pow2_strictly_increases(l + 1, 53 + t);
    }
    assert(q < 2 * HIDDEN64) by (nonlinear_arith)
        requires
            u * q <= m < (2 * HIDDEN64) * u,
            u > 0,
    ;
    if e + t > 0 {
        vstd::arithmetic::power2::lemma_pow2_adds(52, t);
        assert(q >= HIDDEN64) by (nonlinear_arith)
            requires
                HIDDEN64 * u <= m < u * q + u,
                u > 0,
        ;
    }
}

/// A value of magnitude `2^(e + l)` with `e + l` past the largest exponent overflows.
proof fn lemma_huge(m: nat, sticky: bool, e: int, l: nat, a: nat, b: nat)
    requires
        pow2(l) <= m,
        e + l - 52 > 2045,
        l < 128,
        represents(m, sticky, e, a, b),
    ensures
        nearest_even(INFINITY64 as nat, a, b),
{
    let up = scale_up(e);
    let w = up * b;
    assert(e >= 0);
    vstd::arithmetic::power2::lemma_pow2_adds(l, e as nat);
    vstd::arithmetic::power2::lemma_pow2_pos(e as nat);
    assert(a * 1 == a) by (nonlinear_arith);
    assert(m * w >= (pow2(l) * up) * b) by (nonlinear_arith)
        requires
            m >= pow2(l),
            w == up * b,
    ;
    let inf = units64(INFINITY64 as nat);
    assert(inf == pow2(2098)) by {
        vstd::arithmetic::power2::lemma2_to64_rest();
        vstd::arithmetic::power2::lemma_pow2_adds(52, 2046);
    }
    let top = pow2(l + e as nat);
    if l + e > 2098 {
        vstd::arithmetic::power2::lemma_pow2_strictly_increases(2098, (l + e) as nat);
    }
    assert(inf * b <= top * b) by (nonlinear_arith)
        requires
            inf <= top,
    ;
    lemma_overflow_is_nearest(a, b);
}

/// A value below a quarter of the least positive number rounds to zero.
proof fn lemma_tiny(m: nat, sticky: bool, e: int, l: nat, a: nat, b: nat)
    requires
        m < 0x4000_0000_0000_0000_0000_0000_0000_0000,
        e < -126,
        represents(m, sticky, e, a, b),
    ensures
        nearest_even(0, a, b),
{
    let down = scale_down(e);
    let w = scale_up(e) * b;
    vstd::arithmetic::power2::lemma2_to64();
    vstd::arithmetic::power2::lemma2_to64_rest();
    vstd::arithmetic::power2::lemma_pow2_adds(64, 63);
    if -e > 127 {
        vstd::arithmetic::power2::lemma_pow2_strictly_increases(127, (-e) as nat);
    }
    assert(1 * b == b) by (nonlinear_arith);
    assert(2 * (m + 1) <= down);
    assert(2 * a < b) by (nonlinear_arith)
        requires
            a * down < m * b + b,
            2 * (m + 1) <= down,
            b > 0,
    ;
    lemma_underflow_is_nearest(a, b);
}

} // verus!
