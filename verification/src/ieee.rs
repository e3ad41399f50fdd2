//! What the binary64 operations are, by the values of their operands and results alone.
//!
//! Values are integers, in units of the least positive number. An infinity stands for the power
//! of two past the largest finite value, which is what rounding to nearest makes of it.
use vstd::arithmetic::power2::{lemma_pow2_adds, lemma_pow2_pos, pow2};
use vstd::prelude::*;

use crate::arith::{nearest, nearest_root, signed};
use crate::binary::{units, Binary32, Binary64, HIDDEN32, HIDDEN64, INFINITY32, INFINITY64};
use crate::exact::{self, size};
use crate::represent;
use crate::roots;
use crate::rounding::{self, units64};
use crate::roundoff;
use crate::scalar::Real;
use crate::widen::{Bfloat16, Binary16};

verus! {

/// No value is nearer to a signed ratio than the rounded one, and one that is as near leaves the
/// even pattern.
proof fn lemma_no_nearer(negative: bool, a: nat, b: nat, z: Binary64)
    requires
        b > 0,
        !z.is_nan(),
    ensures
        ({
            let r = signed(negative, nearest(a, b));
            let exact = if negative {
                -(a as int)
            } else {
                a as int
            };
            &&& !r.is_nan()
            &&& size(r.value() * b - exact) <= size(z.value() * b - exact)
            &&& size(r.value() * b - exact) == size(z.value() * b - exact) && r.value()
                != z.value() ==> r.magnitude() % 2 == 0
        }),
{
    let mag = nearest(a, b);
    exact::every_ratio_has_a_nearest_value(a, b);
    exact::lemma_signed_value(negative, mag);
    let r = signed(negative, mag);
    let other = z.magnitude() as nat;
    assert(units64(0) == 0);
    assert(0 * b == 0) by (nonlinear_arith);
    let (u, v) = (units64(mag), units64(other));
    assert((-(u as int)) * b == -(u * b) && (-(v as int)) * b == -(v * b)) by (nonlinear_arith);
    assert(rounding::distance(mag, a, b) == size(u * b - a));
    let (ub, vb): (nat, nat) = (u * b, v * b);
    if other != mag {
        assert(rounding::distance(mag, a, b) <= rounding::distance(other, a, b));
        exact::lemma_order(other, mag);
        exact::lemma_order(mag, other);
    }
    if mag != 0 {
        assert(rounding::distance(mag, a, b) <= rounding::distance(0, a, b));
        assert(rounding::distance(0, a, b) == a);
    }
    if z.negative() != negative {
        // On the other side of zero.
        if v > 0 {
            vstd::arithmetic::mul::lemma_mul_strictly_positive(v as int, b as int);
        } else {
            exact::lemma_order(0, other);
        }
    }
}

/// A sum is the value nearest to the exact one, ties to even.
pub proof fn sums_are_nearest(x: Binary64, y: Binary64, z: Binary64)
    requires
        x.is_finite(),
        y.is_finite(),
        !z.is_nan(),
    ensures
        ({
            let (r, exact) = (x.plus(y), x.value() + y.value());
            &&& !r.is_nan()
            &&& size(r.value() - exact) <= size(z.value() - exact)
            &&& size(r.value() - exact) == size(z.value() - exact) && r.value() != z.value()
                ==> r.magnitude() % 2 == 0
            &&& exact == 0 ==> r.value() == 0 && r.negative() == (x.negative() && y.negative())
        }),
{
    let n = x.value() + y.value();
    assert(units64(0) == 0);
    if n == 0 {
        exact::lemma_signed_value(x.negative() && y.negative(), 0);
    } else {
        lemma_no_nearer(n < 0, size(n), 1, z);
        let r = x.plus(y);
        assert(r.value() * 1 == r.value() && z.value() * 1 == z.value()) by (nonlinear_arith);
    }
}

/// A difference is the value nearest to the exact one, ties to even.
pub proof fn differences_are_nearest(x: Binary64, y: Binary64, z: Binary64)
    requires
        x.is_finite(),
        y.is_finite(),
        !z.is_nan(),
    ensures
        ({
            let (r, exact) = (x.minus(y), x.value() - y.value());
            &&& !r.is_nan()
            &&& size(r.value() - exact) <= size(z.value() - exact)
            &&& size(r.value() - exact) == size(z.value() - exact) && r.value() != z.value()
                ==> r.magnitude() % 2 == 0
        }),
{
    exact::lemma_negated_value(y);
    exact::lemma_signed_value(!y.negative(), y.magnitude() as nat);
    sums_are_nearest(x, y.negated(), z);
}

/// A product is the value nearest to the exact one, ties to even.
pub proof fn products_are_nearest(x: Binary64, y: Binary64, z: Binary64)
    requires
        x.is_finite(),
        y.is_finite(),
        !z.is_nan(),
    ensures
        ({
            let (r, t, exact) = (x.times(y), pow2(1074), x.value() * y.value());
            &&& !r.is_nan()
            &&& size(r.value() * t - exact) <= size(z.value() * t - exact)
            &&& size(r.value() * t - exact) == size(z.value() * t - exact) && r.value()
                != z.value() ==> r.magnitude() % 2 == 0
            &&& r.negative() == (x.negative() != y.negative())
        }),
{
    let t = pow2(1074);
    lemma_pow2_pos(1074);
    let negative = x.negative() != y.negative();
    let (u, v) = (x.units() as int, y.units() as int);
    lemma_no_nearer(negative, x.units() * y.units(), t, z);
    exact::every_ratio_has_a_nearest_value(x.units() * y.units(), t);
    exact::lemma_signed_value(negative, nearest(x.units() * y.units(), t));
    assert((-u) * v == -(u * v) && u * (-v) == -(u * v) && (-u) * (-v) == u * v)
        by (nonlinear_arith);
}

/// A quotient is the value nearest to the exact one, ties to even.
pub proof fn quotients_are_nearest(x: Binary64, y: Binary64, z: Binary64)
    requires
        x.is_finite(),
        y.is_finite(),
        y.value() != 0,
        !z.is_nan(),
    ensures
        ({
            let (r, b, exact) = (x.over(y), y.value(), x.value() * pow2(1074));
            &&& !r.is_nan()
            &&& size(r.value() * b - exact) <= size(z.value() * b - exact)
            &&& size(r.value() * b - exact) == size(z.value() * b - exact) && r.value()
                != z.value() ==> r.magnitude() % 2 == 0
            &&& r.negative() == (x.negative() != y.negative())
        }),
{
    let t = pow2(1074) as int;
    lemma_pow2_pos(1074);
    let negative = x.negative() != y.negative();
    assert(units64(0) == 0);
    assert(y.magnitude() != 0);
    let a = x.units() * pow2(1074);
    let b = y.units();
    lemma_no_nearer(negative, a, b, z);
    exact::every_ratio_has_a_nearest_value(a, b);
    exact::lemma_signed_value(negative, nearest(a, b));
    let r = x.over(y);
    let (u, v, w) = (x.units() as int, r.value(), z.value());
    assert((-u) * t == -(u * t)) by (nonlinear_arith);
    assert(v * (-(b as int)) == -(v * b) && w * (-(b as int)) == -(w * b)) by (nonlinear_arith);
}

/// A scaled value is the one nearest to the exact one, ties to even.
pub proof fn scalings_are_nearest(x: Binary64, n: i32, z: Binary64)
    requires
        x.is_finite(),
        !z.is_nan(),
    ensures
        ({
            let r = x.scaled(n);
            &&& !r.is_nan()
            &&& r.negative() == x.negative()
            &&& n >= 0 ==> {
                let exact = x.value() * pow2(n as nat);
                &&& size(r.value() - exact) <= size(z.value() - exact)
                &&& size(r.value() - exact) == size(z.value() - exact) && r.value() != z.value()
                    ==> r.magnitude() % 2 == 0
            }
            &&& n < 0 ==> {
                let (b, exact) = (pow2((-n) as nat), x.value());
                &&& size(r.value() * b - exact) <= size(z.value() * b - exact)
                &&& size(r.value() * b - exact) == size(z.value() * b - exact) && r.value()
                    != z.value() ==> r.magnitude() % 2 == 0
            }
        }),
{
    let (up, down) = (rounding::scale_up(n as int), rounding::scale_down(n as int));
    if n < 0 {
        lemma_pow2_pos((-n) as nat);
    }
    let a = x.units() * up;
    lemma_no_nearer(x.negative(), a, down, z);
    exact::every_ratio_has_a_nearest_value(a, down);
    exact::lemma_signed_value(x.negative(), nearest(a, down));
    let r = x.scaled(n);
    let u = x.units() as int;
    assert((-u) * up == -(u * up)) by (nonlinear_arith);
    assert(u * 1 == u) by (nonlinear_arith);
    assert(r.value() * 1 == r.value() && z.value() * 1 == z.value()) by (nonlinear_arith);
}

/// A root is the nonnegative value nearest to the exact one, ties to even: the middle between it
/// and any other value lies beyond the exact root.
pub proof fn roots_are_nearest(x: Binary64, z: Binary64)
    requires
        x.is_finite(),
        x.value() > 0,
        !z.is_nan(),
        !z.negative(),
    ensures
        ({
            let (r, exact) = (x.root(), x.value() * pow2(1074));
            let twice = r.value() + z.value();
            &&& !r.is_nan()
            &&& !r.negative()
            &&& z.value() > r.value() ==> twice * twice >= 4 * exact
            &&& z.value() < r.value() ==> twice * twice <= 4 * exact
            &&& z.value() != r.value() && twice * twice == 4 * exact ==> r.magnitude() % 2 == 0
        }),
{
    let a = x.units() * pow2(1074);
    assert(units64(0) == 0);
    roots::every_number_has_a_nearest_root(a);
    let mag = nearest_root(a);
    exact::lemma_signed_value(false, mag);
    let other = z.magnitude() as nat;
    exact::lemma_order(mag, other);
    exact::lemma_order(other, mag);
    if other != mag {
        let sum = units64(mag) + units64(other);
        assert(represent::nearest_even_root(mag, a));
        assert(units64(other) == z.value());
    }
}

/// The operations on what is not a finite number.
pub proof fn special_values_follow_the_standard(x: Binary64, y: Binary64)
    ensures
        x.is_nan() || y.is_nan() ==> x.plus(y).is_nan() && x.minus(y).is_nan() && x.times(
            y,
        ).is_nan() && x.over(y).is_nan(),
        x.is_nan() ==> x.root().is_nan(),
        x.magnitude() == INFINITY64 && y.is_finite() ==> x.plus(y) == x && y.plus(x) == x
            && x.minus(y) == x && y.over(x).magnitude() == 0 && x.over(y).magnitude()
            == INFINITY64,
        x.magnitude() == INFINITY64 && y.magnitude() == INFINITY64 ==> (x.plus(y).is_nan() <==> x
            != y) && x.over(y).is_nan() && x.times(y).magnitude() == INFINITY64,
        x.magnitude() == INFINITY64 && y.is_finite() && y.magnitude() != 0 ==> x.times(
            y,
        ).magnitude() == INFINITY64 && y.times(x).magnitude() == INFINITY64,
        x.magnitude() == INFINITY64 && y.magnitude() == 0 ==> x.times(y).is_nan() && y.times(
            x,
        ).is_nan(),
        x.is_finite() && x.magnitude() != 0 && y.magnitude() == 0 ==> x.over(y).magnitude()
            == INFINITY64,
        x.magnitude() == 0 && y.magnitude() == 0 ==> x.over(y).is_nan(),
        x.magnitude() == 0 ==> x.root() == x,
        x.negative() && x.magnitude() != 0 ==> x.root().is_nan(),
        x.bits == INFINITY64 ==> x.root() == x,
{
    exact::lemma_signed_value(true, INFINITY64 as nat);
    exact::lemma_signed_value(false, INFINITY64 as nat);
    exact::lemma_signed_value(true, 0);
    exact::lemma_signed_value(false, 0);
    if y.magnitude() <= INFINITY64 {
        exact::lemma_signed_value(!y.negative(), y.magnitude() as nat);
    } else {
        lemma_negated_nan(y);
    }
}

/// The negation of what is not a number is not one.
proof fn lemma_negated_nan(y: Binary64)
    requires
        y.is_nan(),
    ensures
        y.negated().is_nan(),
{
}

/// The magnitude and the negation of a number, as values.
pub proof fn signs_are_changed_exactly(x: Binary64)
    requires
        x.is_finite(),
    ensures
        x.absolute().is_finite(),
        !x.absolute().negative(),
        x.absolute().value() == size(x.value()),
        x.negated().is_finite(),
        x.negated().value() == -x.value(),
{
    exact::lemma_signed_value(false, x.magnitude() as nat);
    exact::lemma_signed_value(!x.negative(), x.magnitude() as nat);
}

/// The constants of the compute domain, as values.
pub proof fn constants_have_their_values()
    ensures
        <Binary64 as Real>::spec_zero().value() == 0,
        <Binary64 as Real>::spec_one().value() == pow2(1074),
        <Binary64 as Real>::spec_epsilon().value() == pow2(1022),
        <Binary64 as Real>::spec_min_normal().value() == pow2(52),
        <Binary64 as Real>::spec_min_agg_magnitude().value() == pow2(674),
        <Binary64 as Real>::spec_max_agg_magnitude().value() == pow2(1474),
        <Binary64 as Real>::spec_min_gate_threshold().value() == pow2(74),
{
    vstd::arithmetic::power2::lemma2_to64();
    vstd::arithmetic::power2::lemma2_to64_rest();
    lemma_pow2_adds(52, 1022);
    lemma_pow2_adds(52, 970);
    lemma_pow2_adds(52, 622);
    lemma_pow2_adds(52, 1422);
    lemma_pow2_adds(52, 22);
    assert(units64(0) == 0);
    assert(units64(0x3ff0_0000_0000_0000) == (HIDDEN64 + 0) * pow2(1022));
    assert(units64(0x3cb0_0000_0000_0000) == (HIDDEN64 + 0) * pow2(970));
    assert(units64(0x0010_0000_0000_0000) == (HIDDEN64 + 0) * pow2(0));
    assert(units64(0x26f0_0000_0000_0000) == (HIDDEN64 + 0) * pow2(622));
    assert(units64(0x58f0_0000_0000_0000) == (HIDDEN64 + 0) * pow2(1422));
    assert(units64(0x0170_0000_0000_0000) == (HIDDEN64 + 0) * pow2(22));
}

/// The widening of a finite pattern of a narrower format is its value.
proof fn lemma_wide_value(negative: bool, mag: nat, hidden: nat, infinity: nat, shift: nat)
    requires
        0 < hidden <= HIDDEN32,
        mag < infinity,
        infinity / hidden <= 255,
        shift <= 1050,
    ensures
        ({
            let w = crate::widen::wide(negative, mag, hidden, infinity, shift);
            &&& w.is_finite()
            &&& w.negative() == negative
            &&& w.units() == units(mag, hidden) * pow2(shift)
        }),
{
    let (m, e) = if mag / hidden == 0 {
        (mag % hidden, 0nat)
    } else {
        (hidden + mag % hidden, (mag / hidden - 1) as nat)
    };
    vstd::arithmetic::div_mod::lemma_div_is_ordered(mag as int, infinity as int, hidden as int);
    vstd::arithmetic::div_mod::lemma_mod_bound(mag as int, hidden as int);
    vstd::arithmetic::power2::lemma2_to64();
    assert(m * 1 == m) by (nonlinear_arith);
    lemma_pow2_adds(e, shift);
    let (p, q) = (pow2(e), pow2(shift));
    assert((m * p) * q == m * (p * q)) by (nonlinear_arith);
    assert(units(mag, hidden) == m * p);
    lemma_pow2_pos(e + shift);
    lemma_pow2_adds(24, e + shift);
    vstd::arithmetic::mul::lemma_mul_strict_inequality(
        m as int,
        pow2(24) as int,
        pow2(e + shift) as int,
    );
    roundoff::lemma_top();
    vstd::arithmetic::power2::lemma_pow2_strictly_increases(24 + (e + shift), 2098);
    exact::lemma_representable(m, e + shift);
    let n = units(mag, hidden) * q;
    exact::representable_values_are_not_rounded(n);
    exact::lemma_signed_value(negative, nearest(n, 1));
}

/// Widening changes no value, in any of the narrower formats: only the unit that it is counted
/// in. Infinities stay infinite, and what is not a number stays so.
pub proof fn widening_keeps_the_value(x: Binary32, y: Binary16, z: Bfloat16)
    ensures
        x.is_finite() ==> x.widened().is_finite() && x.widened().value() == x.value() * pow2(925),
        x.is_nan() ==> x.widened().is_nan(),
        x.bits == 0x7f80_0000 ==> x.widened().bits == 0x7ff0_0000_0000_0000,
        x.bits == 0xff80_0000 ==> x.widened().bits == 0xfff0_0000_0000_0000,
        y.magnitude() < 0x7c00 ==> y.widened().is_finite() && y.widened().negative()
            == y.negative() && y.widened().units() == units(y.magnitude(), 0x400) * pow2(1050),
        y.magnitude() > 0x7c00 ==> y.widened().is_nan(),
        z.magnitude() < 0x7f80 ==> z.widened().is_finite() && z.widened().negative()
            == z.negative() && z.widened().units() == units(z.magnitude(), 0x80) * pow2(941),
        z.magnitude() > 0x7f80 ==> z.widened().is_nan(),
{
    if x.is_finite() {
        lemma_wide_value(x.negative(), x.magnitude(), HIDDEN32 as nat, INFINITY32 as nat, 925);
        let (u, p) = (units(x.magnitude(), HIDDEN32 as nat) as int, pow2(925) as int);
        assert((-u) * p == -(u * p)) by (nonlinear_arith);
    }
    if y.magnitude() < 0x7c00 {
        lemma_wide_value(y.negative(), y.magnitude(), 0x400, 0x7c00, 1050);
    }
    if z.magnitude() < 0x7f80 {
        lemma_wide_value(z.negative(), z.magnitude(), 0x80, 0x7f80, 941);
    }
}

/// The exponent of a number: that of the power of two at or below it, and `-1` for what has none.
pub proof fn exponents_bracket_the_value(x: Binary64)
    ensures
        x.is_finite() && x.value() != 0 ==> -1074 <= x.exponent() <= 1023 && pow2(
            (x.exponent() + 1074) as nat,
        ) <= size(x.value()) < pow2((x.exponent() + 1075) as nat),
        !x.is_finite() || x.value() == 0 ==> x.exponent() == -1,
{
    assert(units64(0) == 0);
    exact::lemma_order(0, x.magnitude() as nat);
    if x.is_finite() && x.value() != 0 {
        exact::every_finite_value_has_an_exponent(x);
    }
}

} // verus!
