//! Sums that cancel determine no direction.
use vstd::arithmetic::mul::{lemma_mul_inequality, lemma_mul_upper_bound};
use vstd::arithmetic::power2::{
    lemma_pow2_adds, lemma_pow2_pos, lemma_pow2_strictly_increases, pow2,
};
use vstd::prelude::*;

use crate::aggregate::accuracy::{self, ideal_sum, round_ideals, tame, MANY};
use crate::aggregate::bounds::{self, energy, WIDE};
use crate::aggregate::fold::{self, folded, masses, threshold, weighted_sum};
use crate::aggregate::laws;
use crate::aggregate::norm::{largest, norm};
use crate::aggregate::vector;
use crate::arith::nearest;
use crate::binary::{Binary64, HIDDEN64};
use crate::close::{close, lemma_size_times};
use crate::error::WinditError;
use crate::exact::{self, size};
use crate::rounding::units64;
use crate::roundoff::{self, PRECISION};
use crate::scalar::Real;
use crate::triangle::{self, square_sum};

verus! {

/// Adding a nonnegative number to a nonnegative one does not decrease it.
pub proof fn lemma_sum_grows(x: Binary64, y: Binary64)
    requires
        !x.is_nan(),
        !y.is_nan(),
        !x.negative(),
        !y.negative(),
    ensures
        !x.plus(y).is_nan(),
        !x.plus(y).negative(),
        x.plus(y).magnitude() >= x.magnitude(),
        x.plus(y).magnitude() >= y.magnitude(),
{
    if x.is_finite() && y.is_finite() {
        let n = x.units() + y.units();
        exact::lemma_sum_value(x, y);
        exact::every_ratio_has_a_nearest_value(n, 1);
        laws::lemma_own_magnitude(x);
        laws::lemma_own_magnitude(y);
        exact::rounding_is_monotone(x.units(), n, 1);
        exact::rounding_is_monotone(y.units(), n, 1);
        if n == 0 {
            exact::lemma_signed_value(false, 0);
        }
    }
}

/// The absolute floor of the threshold.
pub open spec fn floor() -> Binary64 {
    <Binary64 as Real>::spec_min_gate_threshold()
}

/// The floor is `2^-1000`.
pub proof fn lemma_floor()
    ensures
        floor().is_finite(),
        !floor().negative(),
        floor().units() == pow2(74),
{
    vstd::arithmetic::power2::lemma2_to64_rest();
    lemma_pow2_adds(52, 22);
    assert(units64(0x0170_0000_0000_0000) == (HIDDEN64 + 0) * pow2(22));
}

/// The part of the threshold that is relative to the mass.
pub open spec fn relative_part(mass: Seq<Binary64>) -> Binary64 {
    fold::sixteen().widened().times(<Binary64 as Real>::spec_epsilon()).times(norm(mass))
}

/// The threshold without what the policy owes.
pub open spec fn own_threshold(mass: Seq<Binary64>) -> Binary64 {
    relative_part(mass).plus(floor())
}

/// The threshold without what the policy owes is at least thirty-one half units of roundoff
/// of the norm of the mass, less one, and the floor.
pub proof fn lemma_own_threshold(mass: Seq<Binary64>)
    requires
        norm(mass).is_finite(),
        !norm(mass).negative(),
        norm(mass).units() <= pow2(2090),
    ensures
        relative_part(mass).is_finite(),
        !relative_part(mass).negative(),
        own_threshold(mass).is_finite(),
        !own_threshold(mass).negative(),
        31 * norm(mass).units() <= (relative_part(mass).units() + 1) * PRECISION,
        own_threshold(mass).units() * PRECISION >= (relative_part(mass).units() + pow2(74))
            * (PRECISION - 1),
        own_threshold(mass).units() >= pow2(74),
        own_threshold(mass).units() <= pow2(2092),
{
    laws::lemma_sixteen_epsilon();
    lemma_floor();
    let k = fold::sixteen().widened().times(<Binary64 as Real>::spec_epsilon());
    let (c, t, s) = (norm(mass).units(), pow2(1074), pow2(1026));
    let y = relative_part(mass);
    lemma_pow2_pos(1074);
    lemma_pow2_pos(1026);
    let a = s * c;
    lemma_mul_inequality(c as int, pow2(2090) as int, s as int);
    assert(a == c * s) by (nonlinear_arith)
        requires
            a == s * c,
    ;
    lemma_pow2_adds(2090, 1026);
    lemma_pow2_adds(2091, 1074);
    lemma_pow2_strictly_increases(3116, 3165);
    roundoff::lemma_power_value(2091);
    let big = pow2(2091);
    assert((big * t) * 1 == big * t) by (nonlinear_arith);
    exact::nearest_depends_on_the_ratio(big * t, t, big, 1);
    exact::rounding_is_monotone(a, big * t, t);
    exact::lemma_order(nearest(a, t), nearest(big, 1));
    exact::lemma_order(nearest(big, 1), nearest(a, t));
    exact::lemma_signed_value(false, nearest(a, t));
    bounds::lemma_ratio_error(a, t);
    let q = y.units();
    vstd::arithmetic::power2::lemma2_to64();
    vstd::arithmetic::power2::lemma2_to64_rest();
    lemma_pow2_adds(1026, 48);
    lemma_relative_arithmetic(q, c, s, t);
    // The floor on top.
    lemma_pow2_strictly_increases(74, 2091);
    vstd::arithmetic::power2::lemma_pow2_unfold(2092);
    lemma_pow2_strictly_increases(2092, 2097);
    roundoff::lemma_sum_error(y, floor());
    lemma_sum_grows(y, floor());
    let z = own_threshold(mass);
    exact::lemma_order(z.magnitude() as nat, floor().magnitude() as nat);
    lemma_own_bound(y, z);
}

/// An upper bound of the threshold without what the policy owes.
proof fn lemma_own_bound(y: Binary64, z: Binary64)
    requires
        y.is_finite(),
        !y.negative(),
        y.units() <= pow2(2091),
        z == y.plus(floor()),
        z.is_finite(),
    ensures
        z.units() <= pow2(2092),
{
    lemma_floor();
    lemma_pow2_strictly_increases(74, 2091);
    vstd::arithmetic::power2::lemma_pow2_unfold(2092);
    roundoff::lemma_power_value(2092);
    let big = pow2(2092);
    let n = y.units() + pow2(74);
    exact::lemma_sum_value(y, floor());
    exact::rounding_is_monotone(n, big, 1);
    exact::lemma_order(z.magnitude() as nat, nearest(big, 1));
    exact::lemma_order(nearest(big, 1), z.magnitude() as nat);
}

/// The arithmetic of the relative part.
proof fn lemma_relative_arithmetic(q: nat, c: nat, s: nat, t: nat)
    requires
        s > 0,
        t == s * 0x1_0000_0000_0000,
        size(q * t - s * c) * PRECISION <= 2 * (s * c) + PRECISION * t,
    ensures
        31 * c <= (q + 1) * PRECISION,
{
    let p = PRECISION as nat;
    let (x, y) = (q * 0x1_0000_0000_0000, c);
    assert(q * t == x * s && s * c == y * s) by (nonlinear_arith)
        requires
            t == s * 0x1_0000_0000_0000,
            x == q * 0x1_0000_0000_0000,
            y == c,
    ;
    assert(p * t == (p * 0x1_0000_0000_0000) * s) by (nonlinear_arith)
        requires
            t == s * 0x1_0000_0000_0000,
    ;
    assert((y * s - x * s) * p <= 2 * (y * s) + (p * 0x1_0000_0000_0000) * s);
    let (l, r) = ((y - x) * p - 2 * y, p * 0x1_0000_0000_0000);
    assert(l * s == (y * s - x * s) * p - 2 * (y * s)) by (nonlinear_arith)
        requires
            l == (y - x) * p - 2 * y,
    ;
    vstd::arithmetic::mul::lemma_mul_inequality_converse(l, r as int, s as int);
    assert((y - x) * p - 2 * y <= p * 0x1_0000_0000_0000);
}

/// The squares of the sizes of numbers are those of the numbers.
proof fn lemma_size_squares(v: Seq<int>)
    ensures
        square_sum(Seq::new(v.len(), |j: int| size(v[j]) as int)) == square_sum(v),
    decreases v.len(),
{
    let s = Seq::new(v.len(), |j: int| size(v[j]) as int);
    if v.len() > 0 {
        let v0 = v.drop_last();
        lemma_size_squares(v0);
        assert(s.drop_last() =~= Seq::new(v0.len(), |j: int| size(v0[j]) as int));
        let u = v.last();
        assert((-u) * (-u) == u * u) by (nonlinear_arith);
    }
}

/// The squares of the magnitudes of a vector.
pub(crate) proof fn lemma_unit_squares(v: Seq<Binary64>)
    ensures
        square_sum(Seq::new(v.len(), |j: int| v[j].units() as int)) == energy(v),
    decreases v.len(),
{
    let s = Seq::new(v.len(), |j: int| v[j].units() as int);
    if v.len() > 0 {
        let v0 = v.drop_last();
        lemma_unit_squares(v0);
        assert(s.drop_last() =~= Seq::new(v0.len(), |j: int| v0[j].units() as int));
    }
}

/// The arithmetic of a length, against a norm.
pub proof fn lemma_length_arithmetic(e: nat, c: nat)
    requires
        close(c * c, e, 0x4000),
    ensures
        0x1000_0000 * e <= (16385 * c) * (16385 * c),
{
    let cc = c * c;
    let d = size(cc - e);
    assert(d * 0x4000 <= e);
    assert((16385 * c) * (16385 * c) == 268468225 * cc) by (nonlinear_arith)
        requires
            cc == c * c,
    ;
}

/// The energy of a vector of small components.
proof fn lemma_small_energy(v: Seq<Binary64>)
    requires
        forall|i: int| 0 <= i < v.len() ==> (#[trigger] v[i]).units() <= pow2(40),
    ensures
        energy(v) <= v.len() * pow2(80),
    decreases v.len(),
{
    let p = pow2(80);
    if v.len() == 0 {
        assert(0 * p == 0) by (nonlinear_arith);
    } else {
        let rest = v.drop_last();
        assert(v[v.len() - 1] == v.last());
        assert forall|i: int| 0 <= i < rest.len() implies (#[trigger] rest[i]).units() <= pow2(
            40,
        ) by {
            assert(rest[i] == v[i]);
        }
        lemma_small_energy(rest);
        let u = v.last().units();
        lemma_mul_upper_bound(u as int, pow2(40) as int, u as int, pow2(40) as int);
        lemma_pow2_adds(40, 40);
        assert(v.len() * p == rest.len() * p + p) by (nonlinear_arith)
            requires
                v.len() == rest.len() + 1,
        ;
    }
}

/// The exact squares of a mass, against its computed norm.
proof fn lemma_mass_length(mass: Seq<Binary64>)
    requires
        mass.len() <= WIDE,
        forall|i: int| 0 <= i < mass.len() ==> (#[trigger] mass[i]).is_finite(),
        largest(mass).units() <= pow2(2031),
    ensures
        ({
            let l = 16385 * norm(mass).units() + 0x40_0000_0000_0000_0000nat;
            0x1000_0000 * energy(mass) <= l * l
        }),
{
    let c = 16385 * norm(mass).units();
    let k = 0x40_0000_0000_0000_0000nat;
    assert((c + k) * (c + k) >= c * c + k * k) by (nonlinear_arith);
    assert(c * c >= 0) by (nonlinear_arith);
    lemma_pow2_strictly_increases(2031, 2070);
    if largest(mass).units() >= pow2(40) {
        bounds::norms_are_accurate(mass);
        lemma_length_arithmetic(energy(mass), norm(mass).units());
        assert(k * k >= 0) by (nonlinear_arith);
    } else {
        bounds::lemma_largest_is_attained(mass);
        assert forall|i: int| 0 <= i < mass.len() implies (#[trigger] mass[i]).units() <= pow2(
            40,
        ) by {
            assert(mass[i].units() <= largest(mass).units());
        }
        lemma_small_energy(mass);
        vstd::arithmetic::power2::lemma2_to64();
        vstd::arithmetic::power2::lemma2_to64_rest();
        lemma_pow2_adds(16, 64);
        lemma_mul_inequality(mass.len() as int, WIDE as int, pow2(80) as int);
        assert(k * k == 0x1000_0000 * (WIDE * pow2(80)));
    }
}

/// Whether, on the scale `s`, every component of a sum is at most `30.2` half units of
/// roundoff of the mass of its terms, `n + 1` least positive numbers, and one sixteenth of a
/// half unit of the component of `extra`.
#[verifier::opaque]
pub open spec fn dwarfed(
    sum: Seq<Binary64>,
    mass: Seq<Binary64>,
    n: nat,
    s: nat,
    extra: Seq<int>,
) -> bool {
    &&& sum.len() == mass.len() == extra.len()
    &&& forall|j: int|
        0 <= j < sum.len() ==> {
            &&& (#[trigger] sum[j]).is_finite()
            &&& sum[j].units() <= pow2(2060)
            &&& mass[j].is_finite()
            &&& mass[j].units() <= pow2(2031)
            &&& s * (16 * (sum[j].units() * PRECISION)) <= s * (483 * mass[j].units() + 16 * ((n
                + 1) * PRECISION)) + size(extra[j])
        }
}

/// The extremes of a dwarfed sum and of its mass.
pub proof fn lemma_dwarfed(
    sum: Seq<Binary64>,
    mass: Seq<Binary64>,
    n: nat,
    s: nat,
    extra: Seq<int>,
)
    requires
        dwarfed(sum, mass, n, s, extra),
    ensures
        sum.len() == mass.len() == extra.len(),
        forall|i: int| 0 <= i < sum.len() ==> (#[trigger] sum[i]).is_finite(),
        forall|i: int| 0 <= i < mass.len() ==> (#[trigger] mass[i]).is_finite(),
        largest(sum).units() <= pow2(2060),
        largest(mass).units() <= pow2(2031),
{
    reveal(dwarfed);
    assert forall|i: int| 0 <= i < mass.len() implies (#[trigger] mass[i]).is_finite() by {
        assert(sum[i].is_finite());
    }
    bounds::lemma_largest_is_attained(sum);
    bounds::lemma_largest_is_attained(mass);
    let (l, big) = (largest(sum), largest(mass));
    if l.units() > 0 {
        let i = choose|i: int| 0 <= i < sum.len() && (#[trigger] sum[i]).units() == l.units();
        assert(sum[i].units() <= pow2(2060));
    }
    if big.units() > 0 {
        let k = choose|i: int| 0 <= i < mass.len() && (#[trigger] mass[i]).units() == big.units();
        assert(sum[k].is_finite());
    }
}

/// What the length of a dwarfed sum is at most, with `l` that of what is extra: on the scale
/// `s`, times `2^71`.
pub open spec fn dwarfed_length(mass: Seq<Binary64>, n: nat, s: nat, l: nat) -> nat {
    s * (483 * (16385 * norm(mass).units() + 0x40_0000_0000_0000_0000nat) + 0x4_0000_0000 * ((n + 1)
        * PRECISION as nat)) + 0x4000 * l
}

/// One component of a dwarfed sum, on the scale of its length.
proof fn lemma_dwarfed_component(x: int, u: nat, m: nat, n: nat, s: nat, e: nat)
    requires
        size(x) == u,
        s * (16 * (u * PRECISION)) <= s * (483 * m + 16 * ((n + 1) * PRECISION)) + e,
    ensures
        ({
            let k = s * (0x4_0000 * PRECISION);
            size(k * x) <= (s * 483) * (0x4000 * m) + s * (0x4_0000 * ((n + 1) * PRECISION))
                + 0x4000 * e
        }),
{
    let p = PRECISION as nat;
    let k = s * (0x4_0000 * p);
    lemma_size_times(x, k);
    assert(k * x == x * k) by (nonlinear_arith);
    assert(u * k == 0x4000 * (s * (16 * (u * p)))) by (nonlinear_arith)
        requires
            k == s * (0x4_0000 * p),
    ;
    let q = (n + 1) * p;
    assert(0x4000 * (s * (483 * m + 16 * q)) == (s * 483) * (0x4000 * m) + s * (0x4_0000 * q))
        by (nonlinear_arith);
}

/// A dwarfed sum is no longer than its bound.
pub proof fn lemma_dwarfed_length(
    sum: Seq<Binary64>,
    mass: Seq<Binary64>,
    n: nat,
    s: nat,
    extra: Seq<int>,
    l: nat,
)
    requires
        sum.len() <= WIDE,
        dwarfed(sum, mass, n, s, extra),
        square_sum(extra) <= l * l,
    ensures
        ({
            let k = s * (0x4_0000 * PRECISION as nat);
            let bound = dwarfed_length(mass, n, s, l);
            k * k * energy(sum) <= bound * bound
        }),
{
    lemma_dwarfed(sum, mass, n, s, extra);
    let dim = sum.len();
    let p = PRECISION as nat;
    let k = s * (0x4_0000 * p);
    let (f, g) = (s * 483, s * (0x4_0000 * ((n + 1) * p)));
    let sums = Seq::new(dim, |j: int| sum[j].units() as int);
    let units = Seq::new(mass.len(), |j: int| mass[j].units() as int);
    let sizes = Seq::new(extra.len(), |j: int| size(extra[j]) as int);
    let a = Seq::new(units.len(), |j: int| (f * 0x4000) * units[j]);
    let b = Seq::new(dim, |j: int| g as int);
    let c = Seq::new(sizes.len(), |j: int| 0x4000 * sizes[j]);
    let x = Seq::new(sums.len(), |j: int| k * sums[j]);
    // The length of each part.
    lemma_mass_length(mass);
    lemma_unit_squares(mass);
    triangle::lengths_scale(units, (f * 0x4000) as int);
    let h = 16385 * norm(mass).units() + 0x40_0000_0000_0000_0000nat;
    let e = energy(mass);
    assert((f * 0x4000) * (f * 0x4000) * e <= (f * h) * (f * h)) by (nonlinear_arith)
        requires
            0x1000_0000 * e <= h * h,
    ;
    vector::lemma_equal_components(g, dim, 0x1_0000);
    lemma_size_squares(extra);
    triangle::lengths_scale(sizes, 0x4000);
    let q = square_sum(extra);
    assert(0x4000 * 0x4000 * q <= (0x4000 * l) * (0x4000 * l)) by (nonlinear_arith)
        requires
            q <= l * l,
    ;
    // All of them together.
    triangle::lengths_add_up(a, b, f * h, g * 0x1_0000);
    let ab = triangle::combined(a, b, 1, 1);
    triangle::lengths_add_up(ab, c, f * h + g * 0x1_0000, 0x4000 * l);
    let abc = triangle::combined(ab, c, 1, 1);
    assert forall|j: int| 0 <= j < x.len() implies size(#[trigger] x[j]) <= abc[j] by {
        reveal(dwarfed);
        assert(sum[j].is_finite());
        let u = sum[j].units();
        lemma_dwarfed_component(u as int, u, mass[j].units(), n, s, size(extra[j]));
        let m = mass[j].units();
        assert(f * (0x4000 * m) == (f * 0x4000) * m) by (nonlinear_arith);
        assert(abc[j] == a[j] + b[j] + c[j]);
    }
    vector::lemma_no_longer(x, abc);
    lemma_unit_squares(sum);
    triangle::lengths_scale(sums, k as int);
    assert(f * h + g * 0x1_0000 + 0x4000 * l == dwarfed_length(mass, n, s, l)) by {
        let r = (n + 1) * p;
        assert((s * 483) * h + (s * (0x4_0000 * r)) * 0x1_0000 == s * (483 * h + 0x4_0000_0000 * r))
            by (nonlinear_arith);
    }
}

/// The norm `r` of a vector of the energy `e`, from a bound on its length on the scale `k`.
pub proof fn lemma_norm_of_errors(r: nat, e: nat, k: nat, bound: nat)
    requires
        close(r * r, e, 0x4000),
        k * k * e <= bound * bound,
    ensures
        r * k * 0x8000 <= 32769 * bound,
{
    let (rr, kk, bb) = (r * r, k * k, bound * bound);
    let d = size(rr - e);
    assert(d * 0x4000 <= e);
    assert(0x4000 * rr <= 16385 * e);
    assert(0x4000 * (rr * kk) <= 16385 * (kk * e)) by (nonlinear_arith)
        requires
            0x4000 * rr <= 16385 * e,
    ;
    let (x, y) = (r * k * 0x8000, 32769 * bound);
    assert(x * x == 0x4000_0000 * (rr * kk)) by (nonlinear_arith)
        requires
            x == r * k * 0x8000,
            rr == r * r,
            kk == k * k,
    ;
    assert(y * y == 1073807361 * bb) by (nonlinear_arith)
        requires
            y == 32769 * bound,
            bb == bound * bound,
    ;
    assert(0 <= bb) by (nonlinear_arith)
        requires
            bb == bound * bound,
    ;
    assert(x * x <= y * y);
    if x > y {
        assert(x * x > y * y) by (nonlinear_arith)
            requires
                x > y,
                y >= 0,
        ;
    }
}

/// The norm of a vector that is next to nothing is below the floor.
pub proof fn lemma_tiny_norm(v: Seq<Binary64>)
    requires
        v.len() <= WIDE,
        forall|i: int| 0 <= i < v.len() ==> (#[trigger] v[i]).is_finite(),
        largest(v).units() < pow2(40),
    ensures
        norm(v).is_finite(),
        !norm(v).negative(),
        norm(v).units() <= pow2(57),
{
    bounds::lemma_largest_is_attained(v);
    lemma_pow2_pos(57);
    if largest(v).units() == 0 {
        bounds::lemma_norm_of_nothing(v);
        assert(units64(0) == 0);
    } else {
        lemma_pow2_strictly_increases(40, 2070);
        bounds::norms_keep_their_scale(v);
        let e = largest(v).exponent();
        if e + 1074 >= 40 {
            if e + 1074 > 40 {
                lemma_pow2_strictly_increases(40, (e + 1074) as nat);
            }
        }
        if e + 1091 < 57 {
            lemma_pow2_strictly_increases((e + 1091) as nat, 57);
        }
    }
}

/// The norm of a moderate vector is a nonnegative number.
pub proof fn lemma_norm_is_a_number(v: Seq<Binary64>)
    requires
        forall|i: int| 0 <= i < v.len() ==> (#[trigger] v[i]).is_finite(),
        v.len() <= WIDE,
        largest(v).units() <= pow2(2070),
    ensures
        norm(v).is_finite(),
        !norm(v).negative(),
        norm(v).units() <= pow2(2090),
{
    bounds::lemma_largest_is_attained(v);
    lemma_pow2_pos(2090);
    if largest(v).units() == 0 {
        bounds::lemma_norm_of_nothing(v);
        assert(units64(0) == 0);
    } else {
        bounds::norms_keep_their_scale(v);
        let e = largest(v).exponent();
        if e + 1074 > 2070 {
            lemma_pow2_strictly_increases(2070, (e + 1074) as nat);
        }
        if e + 1091 < 2090 {
            lemma_pow2_strictly_increases((e + 1091) as nat, 2090);
        }
    }
}

/// A vector of zeros.
pub open spec fn nothing(dim: nat) -> Seq<int> {
    Seq::new(dim, |j: int| 0int)
}

/// The arithmetic of the norm of a dwarfed sum.
proof fn lemma_dwarfed_arithmetic(r: nat, c: nat, n: nat, y: nat, z: nat)
    requires
        n <= MANY,
        r * (0x4_0000 * PRECISION) * 0x8000 <= 32769 * (483 * (16385 * c
            + 0x40_0000_0000_0000_0000nat) + 0x4_0000_0000 * ((n + 1) * PRECISION)),
        31 * c <= (y + 1) * PRECISION,
        z * PRECISION >= (y + 0x400_0000_0000_0000_0000) * (PRECISION - 1),
    ensures
        r <= z,
{
    assert(r * (0x4_0000 * PRECISION) * 0x8000 == 0x2_0000_0000 * (r * PRECISION))
        by (nonlinear_arith);
    assert(0x2_0000_0000 * (r * PRECISION) <= 32769 * (483 * (16385 * c
        + 0x40_0000_0000_0000_0000nat) + 0x4_0000_0000 * (1_000_000_001 * PRECISION)));
    assert(4 * (r * PRECISION) <= 121 * c + 0x4_0000_0000_0000 * PRECISION);
    assert(124 * r <= 121 * (y + 1) + 31 * 0x4_0000_0000_0000);
    let w = y + 0x400_0000_0000_0000_0000;
    assert(w * (PRECISION - 1) == w * PRECISION - w) by (nonlinear_arith);
}

/// A dwarfed sum is at or below the threshold.
pub proof fn lemma_dwarfed_sum(sum: Seq<Binary64>, mass: Seq<Binary64>, n: nat, slack: Binary64)
    requires
        sum.len() <= WIDE,
        n <= MANY,
        dwarfed(sum, mass, n, 1, nothing(sum.len())),
        !slack.is_nan(),
        !slack.negative(),
    ensures
        threshold(mass, slack).at_least(norm(sum)),
{
    lemma_dwarfed(sum, mass, n, 1, nothing(sum.len()));
    vstd::arithmetic::power2::lemma2_to64();
    vstd::arithmetic::power2::lemma2_to64_rest();
    lemma_pow2_strictly_increases(2031, 2070);
    lemma_norm_is_a_number(mass);
    lemma_own_threshold(mass);
    let z = own_threshold(mass);
    lemma_sum_grows(z, slack);
    assert(threshold(mass, slack) == z.plus(slack));
    let r = norm(sum);
    assert(r.is_finite() && !r.negative() && r.units() <= z.units()) by {
        if largest(sum).units() < pow2(40) {
            lemma_tiny_norm(sum);
            lemma_pow2_strictly_increases(57, 74);
        } else {
            lemma_pow2_strictly_increases(2060, 2070);
            bounds::norms_are_accurate(sum);
            assert(square_sum(nothing(sum.len())) <= 0 * 0) by {
                vector::lemma_equal_components(0, sum.len(), 0x1_0000);
            }
            lemma_dwarfed_length(sum, mass, n, 1, nothing(sum.len()), 0);
            let k = 0x4_0000 * PRECISION as nat;
            assert(1 * k == k);
            lemma_norm_of_errors(r.units(), energy(sum), k, dwarfed_length(mass, n, 1, 0));
            lemma_pow2_adds(10, 64);
            let c = norm(mass).units();
            lemma_dwarfed_arithmetic(r.units(), c, n, relative_part(mass).units(), z.units());
        }
    }
    exact::lemma_order(z.magnitude() as nat, r.magnitude() as nat);
}

/// A weighted sum that cancels exactly in every dimension determines no direction: however
/// its windows are ordered and whatever their magnitudes, the fold refuses it, where each
/// weight is its ideal rounded once.
///
/// Stated for up to `10^9` windows and `2^32` dimensions, with products far from overflow.
pub proof fn exact_cancellation_is_refused(
    weights: Seq<Binary64>,
    ideal: Seq<nat>,
    denominator: nat,
    embeddings: Seq<Seq<Binary64>>,
    dim: nat,
    slack: Binary64,
)
    requires
        embeddings.len() == weights.len() <= MANY,
        dim <= WIDE,
        !slack.is_nan(),
        !slack.negative(),
        round_ideals(weights, ideal, denominator),
        forall|j: int| 0 <= j < dim ==> #[trigger] tame(weights, embeddings, j),
        forall|j: int|
            0 <= j < dim ==> #[trigger] ideal_sum(ideal, embeddings, j, embeddings.len()) == 0,
    ensures
        folded(weights, embeddings, dim, slack) == Err::<Seq<Binary64>, WinditError>(
            WinditError::NonFinite,
        ),
{
    let n = embeddings.len();
    let sum = weighted_sum(weights, embeddings, dim);
    let mass = masses(weights, embeddings, dim);
    assert(dwarfed(sum, mass, n, 1, nothing(dim))) by {
        reveal(dwarfed);
        assert forall|j: int| 0 <= j < dim implies ({
            &&& (#[trigger] sum[j]).is_finite()
            &&& sum[j].units() <= pow2(2060)
            &&& mass[j].is_finite()
            &&& mass[j].units() <= pow2(2031)
            &&& 1 * (16 * (sum[j].units() * PRECISION)) <= 1 * (483 * mass[j].units() + 16 * ((n
                + 1) * PRECISION)) + size(nothing(dim)[j])
        }) by {
            assert(tame(weights, embeddings, j));
            assert(ideal_sum(ideal, embeddings, j, n) == 0);
            accuracy::lemma_fold_error(weights, ideal, denominator, embeddings, dim, j);
            accuracy::the_mass_is_accurate(weights, embeddings, dim, j);
            accuracy::the_fold_is_moderate(weights, embeddings, dim, j);
            lemma_undivided(
                sum[j].value(),
                denominator,
                483 * mass[j].units() + 16 * ((n + 1) * PRECISION as nat),
            );
        }
    }
    lemma_dwarfed_sum(sum, mass, n, slack);
}

/// A common positive factor of a bound can be left out.
proof fn lemma_undivided(r: int, denominator: nat, bound: nat)
    requires
        denominator > 0,
        16 * (size(r * denominator - 0) * PRECISION) <= denominator * bound,
    ensures
        16 * (size(r) * PRECISION) <= bound,
{
    lemma_size_times(r, denominator);
    let s = size(r);
    assert(16 * ((s * denominator) * PRECISION) == (16 * (s * PRECISION)) * denominator)
        by (nonlinear_arith);
    assert(denominator * bound == bound * denominator) by (nonlinear_arith);
    vstd::arithmetic::mul::lemma_mul_inequality_converse(
        (16 * (s * PRECISION)) as int,
        bound as int,
        denominator as int,
    );
}

} // verus!
