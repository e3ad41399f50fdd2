//! Powers of two, and rounding in the normal range.
//!
//! A number in the normal range is rounded relatively, so a power of two can be taken out
//! of it before the rounding or after, to the bit.
use vstd::arithmetic::power2::{lemma_pow2_unfold, pow2};
use vstd::prelude::*;

use crate::arith::{lemma_nearest, nearest};
use crate::binary::{HIDDEN64, INFINITY64};
use crate::exact;
use crate::rounding::{self, distance, units64};

verus! {

/// The pattern of twice a normal number.
pub proof fn lemma_next_binade(mag: nat)
    requires
        mag >= HIDDEN64,
    ensures
        units64(mag + HIDDEN64 as nat) == 2 * units64(mag),
{
    let h = HIDDEN64 as nat;
    let (q, r) = (mag / h, mag % h);
    assert((mag + h) / h == q + 1 && (mag + h) % h == r);
    lemma_pow2_unfold(q);
    let p = pow2((q - 1) as nat);
    assert((h + r) * (2 * p) == 2 * ((h + r) * p)) by (nonlinear_arith);
}

/// The least normal number.
pub proof fn lemma_least_normal()
    ensures
        units64(HIDDEN64 as nat) == HIDDEN64,
        units64(2 * HIDDEN64 as nat) == 2 * HIDDEN64,
{
    vstd::arithmetic::power2::lemma2_to64();
    let h = HIDDEN64 as nat;
    assert(h / h == 1 && h % h == 0);
    assert((h + 0) * 1 == h) by (nonlinear_arith);
    lemma_next_binade(h);
}

/// Twice a ratio is twice as far from twice a normal number.
proof fn lemma_twice_as_far(mag: nat, a: nat, b: nat)
    requires
        mag >= HIDDEN64,
    ensures
        distance(mag + HIDDEN64 as nat, 2 * a, b) == 2 * distance(mag, a, b),
{
    lemma_next_binade(mag);
    let u = units64(mag);
    assert((2 * u) * b == 2 * (u * b)) by (nonlinear_arith);
}

/// Twice a number in the normal range rounds to twice what it rounds to.
proof fn lemma_doubled(a: nat, b: nat)
    requires
        b > 0,
        HIDDEN64 * b <= a,
        nearest(2 * a, b) < INFINITY64,
    ensures
        nearest(2 * a, b) == nearest(a, b) + HIDDEN64,
        nearest(a, b) >= HIDDEN64,
{
    let h = HIDDEN64 as nat;
    let top = INFINITY64 as nat;
    let twice = nearest(2 * a, b);
    lemma_least_normal();
    exact::every_ratio_has_a_nearest_value(2 * a, b);
    assert((2 * h) * b == 2 * (h * b)) by (nonlinear_arith);
    rounding::lemma_exact_is_nearest(2 * h, (2 * h) * b, b);
    lemma_nearest(2 * h, (2 * h) * b, b);
    exact::rounding_is_monotone((2 * h) * b, 2 * a, b);
    exact::lemma_order(2 * h, twice);
    exact::lemma_order(twice, 2 * h);
    let mag = (twice - h) as nat;
    lemma_twice_as_far(mag, a, b);
    lemma_twice_as_far(h, a, b);
    assert forall|other: nat| other <= INFINITY64 && other != mag implies {
        &&& distance(mag, a, b) <= #[trigger] distance(other, a, b)
        &&& distance(mag, a, b) == distance(other, a, b) ==> mag % 2 == 0
    } by {
        if other < h {
            // Farther than the least normal number.
            rounding::lemma_units64_scaled(other, h, b);
            assert(distance(h, a, b) < distance(other, a, b));
            assert(distance(twice, 2 * a, b) <= distance(h + h, 2 * a, b));
        } else if other + h <= top {
            lemma_twice_as_far(other, a, b);
            assert(distance(twice, 2 * a, b) <= distance(other + h, 2 * a, b));
        } else {
            // Farther than half of the overflow, which the ratio is not past.
            let half = (top - h) as nat;
            lemma_next_binade(half);
            lemma_twice_as_far(half, a, b);
            let u = units64(half);
            assert((2 * u) * b == 2 * (u * b)) by (nonlinear_arith);
            if u * b <= a {
                rounding::lemma_overflow_is_nearest(2 * a, b);
                lemma_nearest(top, 2 * a, b);
            }
            rounding::lemma_units64_scaled(half, other, b);
            assert(distance(twice, 2 * a, b) <= distance(half + h, 2 * a, b));
        }
    }
    lemma_nearest(mag, a, b);
}

/// A power of two times a number in the normal range rounds to that power of two times what
/// the number rounds to.
pub proof fn powers_of_two_commute_with_rounding(a: nat, b: nat, k: nat)
    requires
        b > 0,
        HIDDEN64 * b <= a,
        nearest(a * pow2(k), b) < INFINITY64,
    ensures
        nearest(a, b) < INFINITY64,
        units64(nearest(a, b)) >= HIDDEN64,
        units64(nearest(a * pow2(k), b)) == units64(nearest(a, b)) * pow2(k),
    decreases k,
{
    vstd::arithmetic::power2::lemma2_to64();
    let m = units64(nearest(a, b));
    if k == 0 {
        assert(a * 1 == a && m * 1 == m) by (nonlinear_arith);
        lemma_least_normal();
        let h = HIDDEN64 as nat;
        rounding::lemma_exact_is_nearest(h, h * b, b);
        lemma_nearest(h, h * b, b);
        exact::rounding_is_monotone(h * b, a, b);
        exact::lemma_order(h, nearest(a, b));
        exact::lemma_order(nearest(a, b), h);
    } else {
        lemma_pow2_unfold(k);
        let p = pow2((k - 1) as nat);
        let c = a * p;
        vstd::arithmetic::power2::lemma_pow2_pos((k - 1) as nat);
        assert(a * (2 * p) == 2 * c) by (nonlinear_arith)
            requires
                c == a * p,
        ;
        assert(a <= c) by (nonlinear_arith)
            requires
                c == a * p,
                p >= 1,
        ;
        lemma_doubled(c, b);
        lemma_next_binade(nearest(c, b));
        powers_of_two_commute_with_rounding(a, b, (k - 1) as nat);
        assert(m * (2 * p) == 2 * (m * p)) by (nonlinear_arith);
    }
}

} // verus!
