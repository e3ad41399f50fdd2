//! The correctly rounded binary64 value of a ratio of two counts.
use vstd::arithmetic::power2::pow2;
use vstd::prelude::*;

use crate::binary::{Binary64, HIDDEN64, ONE64};
use crate::rounding;

verus! {

/// The pattern of the largest binary64 value below one, `1 - 2^-53`.
pub const NEAREST_BELOW_ONE: u64 = 0x3fef_ffff_ffff_ffff;

/// `2^54`.
pub const TWO_TO_54: u64 = 0x0040_0000_0000_0000;

/// Whether the nonnegative pattern `mag` is `numer / denom` rounded to nearest, ties to
/// even.
pub open spec fn nearest_ratio(mag: nat, numer: nat, denom: nat) -> bool {
    rounding::nearest_even(mag, numer * pow2(1074), denom)
}

/// Whether `numer / denom` is below one by so little that rounding to nearest would
/// give one.
pub open spec fn rounds_up_to_one(numer: nat, denom: nat) -> bool {
    numer < denom && (denom - numer) * TWO_TO_54 <= denom
}

/// Whether `r` is the binary64 value of `numer / denom`: exactly one for equal counts,
/// the largest value below one where rounding would otherwise reach one, and the
/// nearest value, ties to even, everywhere else.
pub open spec fn is_ratio(r: Binary64, numer: nat, denom: nat) -> bool {
    if numer == denom {
        r.bits == ONE64
    } else if rounds_up_to_one(numer, denom) {
        r.bits == NEAREST_BELOW_ONE
    } else {
        nearest_ratio(r.bits as nat, numer, denom)
    }
}

/// Scaling the numerator to the denominator's magnitude and 55 bits more leaves a
/// quotient of 55 or 56 bits.
proof fn lemma_quotient_bounds(n: nat, d: nat, n_exponent: nat, d_exponent: nat)
    requires
        n_exponent <= d_exponent < 64,
        pow2(n_exponent) <= n < pow2(n_exponent + 1),
        pow2(d_exponent) <= d < pow2(d_exponent + 1),
    ensures
        ({
            let shift = (55 + d_exponent - n_exponent) as nat;
            let quotient = (n * pow2(shift)) / d;
            &&& n * pow2(shift) <= u128::MAX
            &&& pow2(shift) <= u128::MAX
            &&& TWO_TO_54 <= quotient < 4 * TWO_TO_54
        }),
{
    let shift = (55 + d_exponent - n_exponent) as nat;
    let p_n = pow2(n_exponent);
    let p_d = pow2(d_exponent);
    let p_s = pow2(shift);
    vstd::arithmetic::power2::lemma_pow2_adds(shift, n_exponent);
    vstd::arithmetic::power2::lemma_pow2_adds(55, d_exponent);
    vstd::arithmetic::power2::lemma_pow2_pos(shift);
    vstd::arithmetic::power2::lemma_pow2_unfold(n_exponent + 1);
    vstd::arithmetic::power2::lemma_pow2_unfold(d_exponent + 1);
    vstd::arithmetic::power2::lemma2_to64();
    vstd::arithmetic::power2::lemma2_to64_rest();
    let wide = 2 * TWO_TO_54;
    assert(p_s * p_n == wide * p_d);
    let scaled = n * p_s;
    assert(wide * p_d <= scaled < 2 * (wide * p_d)) by (nonlinear_arith)
        requires
            scaled == n * p_s,
            p_n <= n < 2 * p_n,
            p_s > 0,
            p_s * p_n == wide * p_d,
    ;
    vstd::arithmetic::power2::lemma_pow2_pos(n_exponent);
    assert(p_s <= scaled) by (nonlinear_arith)
        requires
            scaled == n * p_s,
            n >= 1,
    ;
    if d_exponent < 63 {
        vstd::arithmetic::power2::lemma_pow2_strictly_increases(d_exponent, 63);
    }
    assert(p_d <= 0x8000_0000_0000_0000);
    let q = scaled / d;
    vstd::arithmetic::div_mod::lemma_fundamental_div_mod(scaled as int, d as int);
    vstd::arithmetic::div_mod::lemma_mod_bound(scaled as int, d as int);
    assert(TWO_TO_54 <= q < 4 * TWO_TO_54) by (nonlinear_arith)
        requires
            d * q <= scaled < d * q + d,
            wide * p_d <= scaled < 2 * (wide * p_d),
            p_d <= d < 2 * p_d,
            wide == 2 * TWO_TO_54,
    ;
}

/// The quotient of the scaled numerator represents the ratio.
proof fn lemma_quotient_represents(n: nat, d: nat, shift: nat, quotient: nat, remainder: nat)
    requires
        d > 0,
        shift <= 1074,
        n * pow2(shift) == quotient * d + remainder,
        remainder < d,
    ensures
        rounding::represents(quotient, remainder != 0, 1074 - shift, n * pow2(1074), d),
{
    let e = (1074 - shift) as nat;
    let up = pow2(e);
    vstd::arithmetic::power2::lemma_pow2_adds(shift, e);
    vstd::arithmetic::power2::lemma_pow2_pos(e);
    let exact = n * pow2(1074);
    assert(exact == quotient * (up * d) + remainder * up) by (nonlinear_arith)
        requires
            exact == n * (pow2(shift) * up),
            n * pow2(shift) == quotient * d + remainder,
    ;
    assert(0 <= remainder * up < up * d) by (nonlinear_arith)
        requires
            remainder < d,
            up > 0,
    ;
    assert(remainder * up == 0 ==> remainder == 0) by (nonlinear_arith)
        requires
            up > 0,
    ;
    assert(remainder == 0 ==> remainder * up == 0) by (nonlinear_arith);
    assert(exact * 1 == exact) by (nonlinear_arith);
}

/// The binary64 value of `numer / denom`, as [`is_ratio`] describes it.
///
/// The quotient is formed from the integers themselves: converting either count first
/// would round it past `2^53`, after which two counts one apart can no longer be told
/// apart.
pub fn ratio_to_f64(numer: usize, denom: usize) -> (r: Binary64)
    requires
        0 < numer <= denom,
    ensures
        is_ratio(r, numer as nat, denom as nat),
{
    if numer == denom {
        return Binary64 { bits: ONE64 };
    }
    let n: u64 = numer as u64;
    let d: u64 = denom as u64;
    assert((d - n) * TWO_TO_54 <= u128::MAX) by (nonlinear_arith)
        requires
            n < d,
    ;
    if (d - n) as u128 * TWO_TO_54 as u128 <= d as u128 {
        return Binary64 { bits: NEAREST_BELOW_ONE };
    }
    let n_exponent: u32 = rounding::floor_log2(n as u128);
    let d_exponent: u32 = rounding::floor_log2(d as u128);
    proof {
        vstd::arithmetic::power2::lemma2_to64();
        if d_exponent >= 64 {
            if d_exponent > 64 {
                vstd::arithmetic::power2::lemma_pow2_strictly_increases(64, d_exponent as nat);
            }
        }
        if n_exponent > d_exponent {
            if d_exponent + 1 < n_exponent {
                vstd::arithmetic::power2::lemma_pow2_strictly_increases(
                    (d_exponent + 1) as nat,
                    n_exponent as nat,
                );
            }
        }
        lemma_quotient_bounds(n as nat, d as nat, n_exponent as nat, d_exponent as nat);
    }
    // The shift that leaves a quotient of 55 or 56 bits.
    let shift: u32 = 55 + d_exponent - n_exponent;
    let scaled: u128 = n as u128 * rounding::power_of_two(shift);
    let quotient: u128 = scaled / d as u128;
    let remainder: u128 = scaled % d as u128;
    proof {
        vstd::arithmetic::div_mod::lemma_fundamental_div_mod(scaled as int, d as int);
        assert(scaled == quotient * d + remainder) by (nonlinear_arith)
            requires
                scaled == d * quotient + remainder,
        ;
        lemma_quotient_represents(
            n as nat,
            d as nat,
            shift as nat,
            quotient as nat,
            remainder as nat,
        );
    }
    Binary64 { bits: rounding::round_to_nearest(quotient, remainder != 0, 1074 - shift as i64) }
}

/// The patterns of one and of the value below it denote `2^1074` and
/// `2^1074 - 2^1021` least positive numbers.
proof fn lemma_around_one()
    ensures
        rounding::units64(ONE64 as nat) == pow2(1074),
        rounding::units64(NEAREST_BELOW_ONE as nat) == pow2(1074) - pow2(1021),
        pow2(1074) == 0x0020_0000_0000_0000 * pow2(1021),
        pow2(1021) > 0,
{
    vstd::arithmetic::power2::lemma2_to64_rest();
    vstd::arithmetic::power2::lemma_pow2_adds(52, 1022);
    vstd::arithmetic::power2::lemma_pow2_adds(53, 1021);
    vstd::arithmetic::power2::lemma_pow2_pos(1021);
    crate::binary::lemma_units_step(NEAREST_BELOW_ONE as nat, HIDDEN64 as nat);
}

/// Rounding `numer / denom` to nearest reaches one only where the ratio lies within half
/// a step of one.
proof fn lemma_nearest_is_below_one(mag: nat, numer: nat, denom: nat)
    requires
        numer < denom,
        nearest_ratio(mag, numer, denom),
        !rounds_up_to_one(numer, denom),
    ensures
        mag < ONE64,
{
    lemma_around_one();
    let one = ONE64 as nat;
    let below = NEAREST_BELOW_ONE as nat;
    let unit = pow2(1021);
    let exact = numer * pow2(1074);
    if mag > one {
        crate::binary::lemma_units_increase(one, mag, HIDDEN64 as nat);
        let u = rounding::units64(mag);
        assert(u * denom > pow2(1074) * denom && pow2(1074) * denom >= exact) by (nonlinear_arith)
            requires
                u > pow2(1074),
                numer < denom,
                exact == numer * pow2(1074),
        ;
        assert(rounding::distance(mag, exact, denom) > rounding::distance(one, exact, denom));
    }
    if mag == one {
        assert(rounding::distance(one, exact, denom) <= rounding::distance(below, exact, denom));
        let gap = (denom - numer) * 0x0020_0000_0000_0000;
        assert(pow2(1074) * denom - exact == gap * unit) by (nonlinear_arith)
            requires
                exact == numer * pow2(1074),
                pow2(1074) == 0x0020_0000_0000_0000 * unit,
                gap == (denom - numer) * 0x0020_0000_0000_0000,
        ;
        assert((pow2(1074) - unit) * denom - exact == (gap - denom) * unit) by (nonlinear_arith)
            requires
                pow2(1074) * denom - exact == gap * unit,
        ;
        assert(2 * gap <= denom) by (nonlinear_arith)
            requires
                unit > 0,
                gap > 0,
                denom > 0,
                gap * unit <= (gap - denom) * unit || gap * unit <= -((gap - denom) * unit),
        ;
    }
}

/// A ratio in `(0, 1]` has a positive value of at most one, which is one exactly for
/// equal counts: a partly filled window never reads as a full one.
pub proof fn ratio_is_one_only_for_equal_counts(r: Binary64, numer: nat, denom: nat)
    requires
        0 < numer <= denom <= u64::MAX,
        is_ratio(r, numer, denom),
    ensures
        (r.bits == ONE64) == (numer == denom),
        0 < r.bits <= ONE64,
{
    if numer < denom && !rounds_up_to_one(numer, denom) {
        lemma_nearest_is_below_one(r.bits as nat, numer, denom);
        if r.bits == 0 {
            let exact = numer * pow2(1074);
            assert(rounding::units64(0) == 0);
            assert(rounding::units64(1) == 1);
            assert(0 * denom == 0 && 1 * denom == denom) by (nonlinear_arith);
            assert(rounding::distance(0, exact, denom) == exact);
            vstd::arithmetic::power2::lemma_pow2_adds(64, 1010);
            vstd::arithmetic::power2::lemma_pow2_pos(1010);
            vstd::arithmetic::power2::lemma2_to64();
            assert(exact > denom) by (nonlinear_arith)
                requires
                    exact == numer * pow2(1074),
                    numer > 0,
                    pow2(1074) == 0x1_0000_0000_0000_0000 * pow2(1010),
                    pow2(1010) > 0,
                    denom < 0x1_0000_0000_0000_0000,
            ;
            assert(rounding::distance(1, exact, denom) < rounding::distance(0, exact, denom));
        }
    }
}

/// For one denominator, a larger numerator never has a smaller ratio value.
pub proof fn ratio_is_monotone(a: Binary64, b: Binary64, numer_a: nat, numer_b: nat, denom: nat)
    requires
        0 < numer_a <= numer_b <= denom <= u64::MAX,
        is_ratio(a, numer_a, denom),
        is_ratio(b, numer_b, denom),
    ensures
        a.bits <= b.bits,
{
    ratio_is_one_only_for_equal_counts(a, numer_a, denom);
    ratio_is_one_only_for_equal_counts(b, numer_b, denom);
    if a.bits > b.bits {
        if numer_a == numer_b {
            ratio_is_unique(a, b, numer_a, denom);
        } else {
            assert(!rounds_up_to_one(numer_a, denom) || rounds_up_to_one(numer_b, denom) || numer_b
                == denom) by (nonlinear_arith)
                requires
                    numer_a < numer_b <= denom,
            ;
            let (exact_a, exact_b) = (numer_a * pow2(1074), numer_b * pow2(1074));
            rounding::lemma_units64_scaled(b.bits as nat, a.bits as nat, denom);
            vstd::arithmetic::power2::lemma_pow2_pos(1074);
            assert(exact_a < exact_b) by (nonlinear_arith)
                requires
                    exact_a == numer_a * pow2(1074),
                    exact_b == numer_b * pow2(1074),
                    numer_a < numer_b,
                    pow2(1074) > 0,
            ;
            assert(rounding::distance(a.bits as nat, exact_a, denom) <= rounding::distance(
                b.bits as nat,
                exact_a,
                denom,
            ));
            assert(rounding::distance(b.bits as nat, exact_b, denom) <= rounding::distance(
                a.bits as nat,
                exact_b,
                denom,
            ));
        }
    }
}

/// The value of a ratio is determined by its two counts.
pub proof fn ratio_is_unique(a: Binary64, b: Binary64, numer: nat, denom: nat)
    requires
        0 < numer <= denom <= u64::MAX,
        is_ratio(a, numer, denom),
        is_ratio(b, numer, denom),
    ensures
        a == b,
{
    if numer < denom && !rounds_up_to_one(numer, denom) {
        rounding::nearest_is_unique(a.bits as nat, b.bits as nat, numer * pow2(1074), denom);
    }
}

/// A coverage is the value nearest to the exact fraction, with the one exception that only a
/// full window has a coverage of one: no other value is nearer than it.
pub proof fn ratios_are_nearest(r: Binary64, numer: nat, denom: nat, z: Binary64)
    requires
        0 < numer <= denom <= u64::MAX,
        is_ratio(r, numer, denom),
        z.is_finite(),
        !z.negative(),
        z.bits != ONE64 || numer == denom,
    ensures
        ({
            let exact = numer * pow2(1074);
            crate::exact::size(r.units() * denom - exact) <= crate::exact::size(
                z.units() * denom - exact,
            )
        }),
{
    let exact = numer * pow2(1074);
    ratio_is_one_only_for_equal_counts(r, numer, denom);
    let (x, y) = (r.bits as nat, z.bits as nat);
    assert(r.magnitude() == x && z.magnitude() == y);
    crate::aggregate::laws::lemma_one_units();
    if numer == denom {
        let t = pow2(1074);
        assert(t * denom == denom * t) by (nonlinear_arith);
    } else if rounds_up_to_one(numer, denom) {
        if y < x {
            lemma_below_one_is_below(numer, denom);
            rounding::lemma_units64_scaled(y, x, denom);
        } else if y > x {
            // Past one, which is past the exact fraction by less than the value below one is
            // short of it is past that.
            assert(y > ONE64);
            rounding::lemma_units64_scaled(ONE64 as nat, y, denom);
            lemma_beyond_one_is_farther(numer, denom, y);
        }
    } else if y != x {
        assert(rounding::distance(x, exact, denom) <= rounding::distance(y, exact, denom));
    }
}

/// The largest value below one is at most a fraction that would round to one.
proof fn lemma_below_one_is_below(numer: nat, denom: nat)
    requires
        rounds_up_to_one(numer, denom),
    ensures
        rounding::units64(NEAREST_BELOW_ONE as nat) * denom <= numer * pow2(1074),
{
    let s = pow2(1021);
    lemma_values_near_one();
    assert(0x1f_ffff_ffff_ffff * denom <= 0x20_0000_0000_0000 * numer) by {
        assert((denom - numer) * TWO_TO_54 <= denom);
    }
    assert((0x1f_ffff_ffff_ffff * s) * denom == (0x1f_ffff_ffff_ffff * denom) * s && numer * (
    0x20_0000_0000_0000 * s) == (0x20_0000_0000_0000 * numer) * s) by (nonlinear_arith);
    vstd::arithmetic::mul::lemma_mul_inequality(
        (0x1f_ffff_ffff_ffff * denom) as int,
        (0x20_0000_0000_0000 * numer) as int,
        s as int,
    );
}

/// The values on both sides of one.
proof fn lemma_values_near_one()
    ensures
        pow2(1074) == 0x20_0000_0000_0000 * pow2(1021),
        rounding::units64(NEAREST_BELOW_ONE as nat) == 0x1f_ffff_ffff_ffff * pow2(1021),
        rounding::units64(ONE64 as nat + 1) == 0x20_0000_0000_0002 * pow2(1021),
{
    let s = pow2(1021);
    vstd::arithmetic::power2::lemma2_to64();
    vstd::arithmetic::power2::lemma2_to64_rest();
    vstd::arithmetic::power2::lemma_pow2_adds(53, 1021);
    vstd::arithmetic::power2::lemma_pow2_unfold(1022);
    assert(rounding::units64(NEAREST_BELOW_ONE as nat) == (HIDDEN64 + 0xf_ffff_ffff_ffff) * s);
    assert(rounding::units64(ONE64 as nat + 1) == (HIDDEN64 + 1) * pow2(1022));
    assert((HIDDEN64 + 1) * (2 * s) == 0x20_0000_0000_0002 * s) by (nonlinear_arith);
}

/// A value past one is farther from a fraction below it than the largest value below one is.
proof fn lemma_beyond_one_is_farther(numer: nat, denom: nat, y: nat)
    requires
        rounds_up_to_one(numer, denom),
        y > ONE64,
    ensures
        ({
            let exact = numer * pow2(1074);
            let low = rounding::units64(NEAREST_BELOW_ONE as nat) * denom;
            let high = rounding::units64(y) * denom;
            low <= exact <= high && exact - low <= high - exact
        }),
{
    let s = pow2(1021);
    lemma_values_near_one();
    lemma_below_one_is_below(numer, denom);
    let next = ONE64 as nat + 1;
    if y > next {
        rounding::lemma_units64_scaled(next, y, denom);
    }
    let (ds, ns) = (denom * s, numer * s);
    assert((0x1f_ffff_ffff_ffff * s) * denom == 0x1f_ffff_ffff_ffff * ds && (0x20_0000_0000_0002 * s)
        * denom == 0x20_0000_0000_0002 * ds && numer * (0x20_0000_0000_0000 * s)
        == 0x20_0000_0000_0000 * ns) by (nonlinear_arith)
        requires
            ds == denom * s,
            ns == numer * s,
    ;
    vstd::arithmetic::mul::lemma_mul_inequality(numer as int, denom as int, s as int);
}

} // verus!
