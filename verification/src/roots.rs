//! Nearest square roots.
use vstd::arithmetic::power2::{lemma_pow2_unfold, pow2};
use vstd::prelude::*;

use crate::arith::{lemma_nearest_root, nearest_root};
use crate::binary::{HIDDEN64, INFINITY64};
use crate::exact;
use crate::represent::{self, nearest_even_root};
use crate::rounding::units64;
use crate::scaling;

verus! {

/// There is a last pattern, up to `top`, whose square is not above `a`.
proof fn lemma_floor_root_exists(a: nat, top: nat)
    requires
        top <= INFINITY64,
        top == INFINITY64 || a < units64(top + 1) * units64(top + 1),
    ensures
        exists|m: nat|
            m <= INFINITY64 && #[trigger] units64(m) * units64(m) <= a && (m == INFINITY64 || a
                < units64(m + 1) * units64(m + 1)),
    decreases top,
{
    if units64(top) * units64(top) > a {
        assert(units64(0) == 0);
        assert(0 * 0 == 0);
        lemma_floor_root_exists(a, (top - 1) as nat);
    }
}

/// Twice a value, squared.
proof fn lemma_twice_squared(x: nat)
    ensures
        (2 * x) * (2 * x) == 4 * (x * x),
{
    assert((2 * x) * (2 * x) == 4 * (x * x)) by (nonlinear_arith);
}

/// Every number has a nearest root.
pub proof fn every_number_has_a_nearest_root(a: nat)
    ensures
        nearest_even_root(nearest_root(a), a),
{
    reveal(nearest_root);
    lemma_floor_root_exists(a, INFINITY64 as nat);
    let m = choose|m: nat|
        m <= INFINITY64 && #[trigger] units64(m) * units64(m) <= a && (m == INFINITY64 || a
            < units64(m + 1) * units64(m + 1));
    let u = units64(m);
    lemma_twice_squared(u);
    if m == INFINITY64 {
        assert forall|other: nat| other <= INFINITY64 && other != m implies {
            let sum = units64(m) + #[trigger] units64(other);
            &&& other > m ==> 4 * a <= sum * sum
            &&& other < m ==> sum * sum <= 4 * a
            &&& sum * sum == 4 * a ==> m % 2 == 0
        } by {
            exact::lemma_order(other, m);
            represent::lemma_compare_squares(units64(m) + units64(other), 2 * u);
        }
        assert(nearest_even_root(m, a));
    } else {
        let v = units64(m + 1);
        let mid = u + v;
        exact::lemma_order(m, m + 1);
        lemma_twice_squared(v);
        let pick = if 4 * a < mid * mid || (4 * a == mid * mid && m % 2 == 0) {
            m
        } else {
            m + 1
        };
        assert forall|other: nat| other <= INFINITY64 && other != pick implies {
            let sum = units64(pick) + #[trigger] units64(other);
            &&& other > pick ==> 4 * a <= sum * sum
            &&& other < pick ==> sum * sum <= 4 * a
            &&& sum * sum == 4 * a ==> pick % 2 == 0
        } by {
            let sum = units64(pick) + units64(other);
            exact::lemma_order(other, m);
            exact::lemma_order(other, m + 1);
            represent::lemma_compare_squares(sum, 2 * u);
            represent::lemma_compare_squares(2 * v, sum);
            represent::lemma_compare_squares(sum, 2 * v);
            represent::lemma_compare_squares(mid, sum);
            represent::lemma_compare_squares(sum, mid);
        }
        assert(nearest_even_root(pick, a));
    }
}

/// A root is at most a value whose square is at least the number, and at least one whose
/// square is at most the number.
pub proof fn roots_keep_bounds(a: nat, p: nat)
    requires
        p <= INFINITY64,
    ensures
        a <= units64(p) * units64(p) ==> nearest_root(a) <= p,
        units64(p) * units64(p) <= a ==> p <= nearest_root(a),
{
    every_number_has_a_nearest_root(a);
    let r = nearest_root(a);
    let u = units64(p);
    lemma_twice_squared(u);
    let sum = units64(r) + units64(p);
    exact::lemma_order(p, r);
    exact::lemma_order(r, p);
    represent::lemma_compare_squares(sum, 2 * u);
    represent::lemma_compare_squares(2 * u, sum);
}

/// Four times a number whose root is in the normal range has twice the root.
proof fn lemma_doubled_root(a: nat)
    requires
        HIDDEN64 * HIDDEN64 <= a,
        nearest_root(4 * a) < INFINITY64,
    ensures
        nearest_root(4 * a) == nearest_root(a) + HIDDEN64,
        nearest_root(a) >= HIDDEN64,
{
    let h = HIDDEN64 as nat;
    let top = INFINITY64 as nat;
    let twice = nearest_root(4 * a);
    scaling::lemma_least_normal();
    every_number_has_a_nearest_root(4 * a);
    let least = units64(2 * h);
    assert(least * least == 4 * (h * h)) by (nonlinear_arith)
        requires
            least == 2 * h,
    ;
    roots_keep_bounds(4 * a, 2 * h);
    let mag = (twice - h) as nat;
    scaling::lemma_next_binade(mag);
    let u = units64(mag);
    assert forall|other: nat| other <= INFINITY64 && other != mag implies {
        let sum = units64(mag) + #[trigger] units64(other);
        &&& other > mag ==> 4 * a <= sum * sum
        &&& other < mag ==> sum * sum <= 4 * a
        &&& sum * sum == 4 * a ==> mag % 2 == 0
    } by {
        let v = units64(other);
        let sum = u + v;
        if other < h {
            exact::lemma_order(other, h);
            let least = u + h;
            assert(units64(twice) + units64(2 * h) == 2 * least);
            assert((2 * least) * (2 * least) == 4 * (least * least)) by (nonlinear_arith);
            assert(sum * sum < least * least) by (nonlinear_arith)
                requires
                    0 <= sum < least,
            ;
            if mag == h {
                assert(least * least == 4 * (h * h)) by (nonlinear_arith)
                    requires
                        least == h + h,
                ;
            } else {
                assert(2 * h != twice);
            }
        } else if other + h <= top {
            scaling::lemma_next_binade(other);
            assert(units64(twice) + units64(other + h) == 2 * sum);
            assert((2 * sum) * (2 * sum) == 4 * (sum * sum)) by (nonlinear_arith);
        } else {
            let half = (top - h) as nat;
            scaling::lemma_next_binade(half);
            exact::lemma_order(half, other);
            let most = u + units64(half);
            assert(units64(twice) + units64(half + h) == 2 * most);
            assert((2 * most) * (2 * most) == 4 * (most * most)) by (nonlinear_arith);
            assert(most * most < sum * sum) by (nonlinear_arith)
                requires
                    0 <= most < sum,
            ;
        }
    }
    assert(nearest_even_root(mag, a));
    lemma_nearest_root(mag, a);
}

/// A power of four times a number whose root is in the normal range has the root times the
/// power of two.
pub proof fn powers_of_two_commute_with_roots(a: nat, k: nat)
    requires
        HIDDEN64 * HIDDEN64 <= a,
        nearest_root(a * pow2(2 * k)) < INFINITY64,
    ensures
        nearest_root(a) < INFINITY64,
        units64(nearest_root(a * pow2(2 * k))) == units64(nearest_root(a)) * pow2(k),
    decreases k,
{
    vstd::arithmetic::power2::lemma2_to64();
    let m = units64(nearest_root(a));
    if k == 0 {
        assert(a * 1 == a && m * 1 == m) by (nonlinear_arith);
    } else {
        lemma_pow2_unfold(k);
        lemma_pow2_unfold(2 * k);
        lemma_pow2_unfold((2 * k - 1) as nat);
        let p = pow2((k - 1) as nat);
        let q = pow2((2 * k - 2) as nat);
        let c = a * q;
        vstd::arithmetic::power2::lemma_pow2_pos((2 * k - 2) as nat);
        assert(a * (2 * (2 * q)) == 4 * c) by (nonlinear_arith)
            requires
                c == a * q,
        ;
        assert(a <= c) by (nonlinear_arith)
            requires
                c == a * q,
                q >= 1,
        ;
        lemma_doubled_root(c);
        scaling::lemma_next_binade(nearest_root(c));
        powers_of_two_commute_with_roots(a, (k - 1) as nat);
        assert(m * (2 * p) == 2 * (m * p)) by (nonlinear_arith);
    }
}

} // verus!
