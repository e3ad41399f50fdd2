//! IEEE 754 binary interchange values as bit patterns.
//!
//! Scores and coverages are binary floating-point numbers. The decisions this
//! crate takes on them (a comparison against a cutoff, a range check, a rounding)
//! are exact functions of their bit patterns, so the crate carries the patterns:
//! [`Binary32`] is an `f32` through `f32::to_bits`, [`Binary64`] an `f64` through
//! `f64::to_bits`.
use vstd::arithmetic::power2::pow2;
use vstd::prelude::*;

verus! {

/// The value of a finite magnitude, in units of the format's least positive
/// number.
///
/// `mag` is the pattern without its sign bit and `hidden` is two to the number of
/// fraction bits. A zero exponent field is a subnormal; every other one scales a
/// significand with the hidden bit set.
pub open spec fn units(mag: nat, hidden: nat) -> nat {
    if mag / hidden == 0 {
        mag % hidden
    } else {
        (hidden + mag % hidden) * pow2((mag / hidden - 1) as nat)
    }
}

/// The distance from a finite magnitude to the next larger one, in the same
/// units.
pub open spec fn ulp(mag: nat, hidden: nat) -> nat {
    if mag / hidden == 0 {
        1
    } else {
        pow2((mag / hidden - 1) as nat)
    }
}

/// Quotient and remainder of the next number.
proof fn lemma_divide_successor(a: nat, h: nat)
    requires
        h > 0,
    ensures
        a % h + 1 < h ==> (a + 1) / h == a / h && (a + 1) % h == a % h + 1,
        a % h + 1 == h ==> (a + 1) / h == a / h + 1 && (a + 1) % h == 0,
        a % h < h,
{
    vstd::arithmetic::div_mod::lemma_fundamental_div_mod(a as int, h as int);
    vstd::arithmetic::div_mod::lemma_mod_bound(a as int, h as int);
    let q = a as int / h as int;
    let r = a as int % h as int;
    if r + 1 < h {
        assert(a + 1 == q * h + (r + 1)) by (nonlinear_arith)
            requires
                a == h * q + r,
        ;
        vstd::arithmetic::div_mod::lemma_fundamental_div_mod_converse(
            (a + 1) as int,
            h as int,
            q,
            r + 1,
        );
    } else {
        assert(a + 1 == (q + 1) * h + 0) by (nonlinear_arith)
            requires
                a == h * q + r,
                r + 1 == h,
        ;
        vstd::arithmetic::div_mod::lemma_fundamental_div_mod_converse(
            (a + 1) as int,
            h as int,
            q + 1,
            0,
        );
    }
}

/// The next larger magnitude lies exactly one [`ulp`] up.
pub proof fn lemma_units_step(mag: nat, hidden: nat)
    requires
        hidden > 0,
    ensures
        units(mag + 1, hidden) == units(mag, hidden) + ulp(mag, hidden),
        ulp(mag, hidden) > 0,
{
    lemma_divide_successor(mag, hidden);
    let e = mag / hidden;
    let f = mag % hidden;
    if e > 0 {
        let p = pow2((e - 1) as nat);
        vstd::arithmetic::power2::lemma_pow2_pos((e - 1) as nat);
        vstd::arithmetic::power2::lemma_pow2_unfold(e);
        if f + 1 < hidden {
            assert((hidden + (f + 1)) * p == (hidden + f) * p + p) by (nonlinear_arith);
        } else {
            assert((hidden + 0) * (2 * p) == (hidden + f) * p + p) by (nonlinear_arith)
                requires
                    f + 1 == hidden,
            ;
        }
    } else if f + 1 == hidden {
        vstd::arithmetic::power2::lemma2_to64();
        assert((hidden + 0) * 1 == hidden) by (nonlinear_arith);
    }
}

/// A larger magnitude has a larger value, by at least the step past the smaller.
pub proof fn lemma_units_increase(a: nat, b: nat, hidden: nat)
    requires
        hidden > 0,
        a < b,
    ensures
        units(a, hidden) + ulp(a, hidden) <= units(b, hidden),
        ulp(a, hidden) > 0,
    decreases b,
{
    lemma_units_step(a, hidden);
    if a + 1 < b {
        lemma_units_increase(a, (b - 1) as nat, hidden);
        lemma_units_step((b - 1) as nat, hidden);
    }
}

/// An IEEE 754 binary32 value, by its bit pattern.
///
/// Comparisons are the IEEE ones: `==`, [`at_least`](Binary32::at_least) and
/// [`below`](Binary32::below). What is not a number is equal to nothing, itself included, and the
/// two zeros are equal.
#[derive(Clone, Copy, Debug)]
pub struct Binary32 {
    /// The sign bit, the exponent field, and the fraction, from the top.
    pub bits: u32,
}

/// Two to the number of fraction bits of the binary32 format.
pub const HIDDEN32: u32 = 0x0080_0000;

/// The magnitude pattern of a binary32 infinity.
pub const INFINITY32: u32 = 0x7f80_0000;

impl Binary32 {
    /// Whether the sign bit is set.
    pub open spec fn negative(self) -> bool {
        self.bits >= 0x8000_0000
    }

    /// The pattern without its sign bit.
    pub open spec fn magnitude(self) -> nat {
        (self.bits % 0x8000_0000) as nat
    }

    /// Whether the pattern is not a number.
    pub open spec fn spec_is_nan(&self) -> bool {
        self.magnitude() > INFINITY32
    }

    /// Whether the pattern is neither an infinity nor not a number.
    pub open spec fn spec_is_finite(&self) -> bool {
        self.magnitude() < INFINITY32
    }

    /// An integer that orders the patterns that are numbers as their values.
    pub open spec fn order_key(self) -> int {
        if self.negative() {
            -(self.magnitude() as int)
        } else {
            self.magnitude() as int
        }
    }

    /// The value of a finite pattern, in units of the least positive number.
    pub open spec fn value(self) -> int {
        if self.negative() {
            -(units(self.magnitude(), HIDDEN32 as nat) as int)
        } else {
            units(self.magnitude(), HIDDEN32 as nat) as int
        }
    }

    /// IEEE `self >= other`: false when either is not a number.
    pub open spec fn spec_at_least(self, other: Binary32) -> bool {
        !self.is_nan() && !other.is_nan() && self.order_key() >= other.order_key()
    }

    /// IEEE `self == other`: false when either is not a number.
    pub open spec fn same_value(self, other: Binary32) -> bool {
        !self.is_nan() && !other.is_nan() && self.order_key() == other.order_key()
    }

    /// IEEE `self < other`: false when either is not a number.
    pub open spec fn spec_below(self, other: Binary32) -> bool {
        !self.is_nan() && !other.is_nan() && self.order_key() < other.order_key()
    }

    /// The value with the given bit pattern.
    pub fn from_bits(bits: u32) -> (r: Binary32)
        ensures
            r.bits == bits,
    {
        Binary32 { bits }
    }

    /// The bit pattern of the value.
    pub fn to_bits(self) -> (bits: u32)
        ensures
            bits == self.bits,
    {
        self.bits
    }

    /// Whether the value is not a number.
    #[verifier::when_used_as_spec(spec_is_nan)]
    pub fn is_nan(&self) -> (r: bool)
        ensures
            r == self.is_nan(),
    {
        self.bits % 0x8000_0000 > INFINITY32
    }

    /// Whether the value is neither an infinity nor not a number.
    #[verifier::when_used_as_spec(spec_is_finite)]
    pub fn is_finite(&self) -> (r: bool)
        ensures
            r == self.is_finite(),
    {
        self.bits % 0x8000_0000 < INFINITY32
    }

    /// The ordering key as a machine integer.
    fn key(self) -> (k: i64)
        ensures
            k == self.order_key(),
    {
        let mag: i64 = (self.bits % 0x8000_0000) as i64;
        if self.bits >= 0x8000_0000 {
            -mag
        } else {
            mag
        }
    }

    /// IEEE `self >= other`: false when either is not a number, and the two zeros
    /// are equal.
    #[verifier::when_used_as_spec(spec_at_least)]
    pub fn at_least(self, other: Binary32) -> (r: bool)
        ensures
            r == self.at_least(other),
    {
        !self.is_nan() && !other.is_nan() && self.key() >= other.key()
    }

    /// IEEE `self < other`: false when either is not a number, and the two zeros
    /// are equal.
    #[verifier::when_used_as_spec(spec_below)]
    pub fn below(self, other: Binary32) -> (r: bool)
        ensures
            r == self.below(other),
    {
        !self.is_nan() && !other.is_nan() && self.key() < other.key()
    }
}

impl PartialEq for Binary32 {
    fn eq(&self, other: &Binary32) -> (r: bool) {
        self.at_least(*other) && other.at_least(*self)
    }
}

impl vstd::std_specs::cmp::PartialEqSpecImpl for Binary32 {
    open spec fn obeys_eq_spec() -> bool {
        true
    }

    open spec fn eq_spec(&self, other: &Binary32) -> bool {
        self.same_value(*other)
    }
}

/// The comparisons of finite binary32 patterns are the comparisons of the values
/// they denote.
pub proof fn binary32_comparisons_compare_values(x: Binary32, y: Binary32)
    requires
        x.is_finite(),
        y.is_finite(),
    ensures
        x.at_least(y) == (x.value() >= y.value()),
        x.same_value(y) == (x.value() == y.value()),
        x.below(y) == (x.value() < y.value()),
{
    lemma_signed_order(x.magnitude(), x.negative(), y.magnitude(), y.negative(), HIDDEN32 as nat);
    lemma_signed_order(y.magnitude(), y.negative(), x.magnitude(), x.negative(), HIDDEN32 as nat);
}

/// An IEEE 754 binary64 value, by its bit pattern.
///
/// Comparisons are the IEEE ones: `==`, [`at_least`](Binary64::at_least) and
/// [`below`](Binary64::below). What is not a number is equal to nothing, itself included, and the
/// two zeros are equal.
#[derive(Clone, Copy, Debug)]
pub struct Binary64 {
    /// The sign bit, the exponent field, and the fraction, from the top.
    pub bits: u64,
}

/// Two to the number of fraction bits of the binary64 format.
pub const HIDDEN64: u64 = 0x0010_0000_0000_0000;

/// The magnitude pattern of a binary64 infinity.
pub const INFINITY64: u64 = 0x7ff0_0000_0000_0000;

/// The pattern of the binary64 value one.
pub const ONE64: u64 = 0x3ff0_0000_0000_0000;

impl Binary64 {
    /// Whether the sign bit is set.
    pub open spec fn negative(self) -> bool {
        self.bits >= 0x8000_0000_0000_0000
    }

    /// The pattern without its sign bit.
    pub open spec fn spec_magnitude(&self) -> u64 {
        self.bits % 0x8000_0000_0000_0000
    }

    /// Whether the pattern is not a number.
    pub open spec fn spec_is_nan(&self) -> bool {
        self.magnitude() > INFINITY64
    }

    /// Whether the pattern is neither an infinity nor not a number.
    pub open spec fn spec_is_finite(self) -> bool {
        self.magnitude() < INFINITY64
    }

    /// An integer that orders the patterns that are numbers as their values.
    pub open spec fn order_key(self) -> int {
        if self.negative() {
            -(self.magnitude() as int)
        } else {
            self.magnitude() as int
        }
    }

    /// The value of a finite pattern, in units of the least positive number.
    pub open spec fn value(self) -> int {
        if self.negative() {
            -(units(self.magnitude() as nat, HIDDEN64 as nat) as int)
        } else {
            units(self.magnitude() as nat, HIDDEN64 as nat) as int
        }
    }

    /// IEEE `self >= other`: false when either is not a number.
    pub open spec fn spec_at_least(self, other: Binary64) -> bool {
        !self.is_nan() && !other.is_nan() && self.order_key() >= other.order_key()
    }

    /// IEEE `self == other`: false when either is not a number.
    pub open spec fn same_value(self, other: Binary64) -> bool {
        !self.is_nan() && !other.is_nan() && self.order_key() == other.order_key()
    }

    /// IEEE `self < other`: false when either is not a number.
    pub open spec fn spec_below(self, other: Binary64) -> bool {
        !self.is_nan() && !other.is_nan() && self.order_key() < other.order_key()
    }

    /// The value with the given bit pattern.
    pub fn from_bits(bits: u64) -> (r: Binary64)
        ensures
            r.bits == bits,
    {
        Binary64 { bits }
    }

    /// The bit pattern of the value.
    pub fn to_bits(self) -> (bits: u64)
        ensures
            bits == self.bits,
    {
        self.bits
    }

    /// The pattern without its sign bit: the pattern of the absolute value.
    #[verifier::when_used_as_spec(spec_magnitude)]
    pub fn magnitude(&self) -> (r: u64)
        ensures
            r == self.magnitude(),
    {
        self.bits % 0x8000_0000_0000_0000
    }

    /// Whether the value is not a number.
    #[verifier::when_used_as_spec(spec_is_nan)]
    pub fn is_nan(&self) -> (r: bool)
        ensures
            r == self.is_nan(),
    {
        self.magnitude() > INFINITY64
    }

    /// Whether the value is neither an infinity nor not a number.
    #[verifier::when_used_as_spec(spec_is_finite)]
    pub fn is_finite(self) -> (r: bool)
        ensures
            r == self.is_finite(),
    {
        self.magnitude() < INFINITY64
    }

    /// The ordering key as a machine integer.
    fn key(self) -> (k: i64)
        ensures
            k == self.order_key(),
    {
        let mag: i64 = self.magnitude() as i64;
        if self.bits >= 0x8000_0000_0000_0000 {
            -mag
        } else {
            mag
        }
    }

    /// IEEE `self >= other`: false when either is not a number, and the two zeros
    /// are equal.
    #[verifier::when_used_as_spec(spec_at_least)]
    pub fn at_least(self, other: Binary64) -> (r: bool)
        ensures
            r == self.at_least(other),
    {
        !self.is_nan() && !other.is_nan() && self.key() >= other.key()
    }

    /// IEEE `self < other`: false when either is not a number, and the two zeros
    /// are equal.
    #[verifier::when_used_as_spec(spec_below)]
    pub fn below(self, other: Binary64) -> (r: bool)
        ensures
            r == self.below(other),
    {
        !self.is_nan() && !other.is_nan() && self.key() < other.key()
    }
}

impl PartialEq for Binary64 {
    fn eq(&self, other: &Binary64) -> (r: bool) {
        self.at_least(*other) && other.at_least(*self)
    }
}

impl vstd::std_specs::cmp::PartialEqSpecImpl for Binary64 {
    open spec fn obeys_eq_spec() -> bool {
        true
    }

    open spec fn eq_spec(&self, other: &Binary64) -> bool {
        self.same_value(*other)
    }
}

/// The comparisons of finite binary64 patterns are the comparisons of the values
/// they denote.
pub proof fn binary64_comparisons_compare_values(x: Binary64, y: Binary64)
    requires
        x.is_finite(),
        y.is_finite(),
    ensures
        x.at_least(y) == (x.value() >= y.value()),
        x.same_value(y) == (x.value() == y.value()),
        x.below(y) == (x.value() < y.value()),
{
    lemma_signed_order(
        x.magnitude() as nat,
        x.negative(),
        y.magnitude() as nat,
        y.negative(),
        HIDDEN64 as nat,
    );
    lemma_signed_order(
        y.magnitude() as nat,
        y.negative(),
        x.magnitude() as nat,
        x.negative(),
        HIDDEN64 as nat,
    );
}

/// Signed magnitudes compare as the signed values they denote.
proof fn lemma_signed_order(a: nat, a_negative: bool, b: nat, b_negative: bool, hidden: nat)
    requires
        hidden > 1,
    ensures
        ({
            let ka: int = if a_negative {
                -(a as int)
            } else {
                a as int
            };
            let kb: int = if b_negative {
                -(b as int)
            } else {
                b as int
            };
            let va: int = if a_negative {
                -(units(a, hidden) as int)
            } else {
                units(a, hidden) as int
            };
            let vb: int = if b_negative {
                -(units(b, hidden) as int)
            } else {
                units(b, hidden) as int
            };
            (ka >= kb) == (va >= vb)
        }),
{
    assert(units(0, hidden) == 0) by {
        vstd::arithmetic::div_mod::lemma_small_mod(0, hidden);
        vstd::arithmetic::div_mod::lemma_basic_div(0, hidden as int);
    }
    if a > 0 {
        lemma_units_increase(0, a, hidden);
    }
    if b > 0 {
        lemma_units_increase(0, b, hidden);
    }
    if a < b {
        lemma_units_increase(a, b, hidden);
    }
    if b < a {
        lemma_units_increase(b, a, hidden);
    }
}

/// The comparisons of binary32 patterns at the ends of the format: what is not a number compares
/// with nothing, positive infinity is above every other number, and negative infinity below.
pub proof fn binary32_comparisons_at_the_ends(x: Binary32, y: Binary32)
    ensures
        x.is_nan() || y.is_nan() ==> !x.at_least(y) && !x.below(y) && !x.same_value(y),
        x.bits == 0x7f80_0000 && !y.is_nan() ==> x.at_least(y) && !x.below(y) && (y.at_least(x)
            <==> y.bits == 0x7f80_0000) && (y.below(x) <==> y.bits != 0x7f80_0000),
        x.bits == 0xff80_0000 && !y.is_nan() ==> y.at_least(x) && !y.below(x) && (x.at_least(y)
            <==> y.bits == 0xff80_0000) && (x.below(y) <==> y.bits != 0xff80_0000),
        !x.is_nan() && !y.is_nan() ==> x.at_least(y) == !x.below(y) && x.same_value(y) == (
        x.at_least(y) && y.at_least(x)),
        x.is_nan() <==> 0x7f80_0000 < x.bits < 0x8000_0000 || 0xff80_0000 < x.bits,
        x.is_finite() <==> x.bits < 0x7f80_0000 || 0x8000_0000 <= x.bits < 0xff80_0000,
{
}

/// The comparisons of binary64 patterns at the ends of the format, as for binary32.
pub proof fn binary64_comparisons_at_the_ends(x: Binary64, y: Binary64)
    ensures
        x.is_nan() || y.is_nan() ==> !x.at_least(y) && !x.below(y) && !x.same_value(y),
        x.bits == 0x7ff0_0000_0000_0000 && !y.is_nan() ==> x.at_least(y) && !x.below(y) && (
        y.at_least(x) <==> y.bits == 0x7ff0_0000_0000_0000) && (y.below(x) <==> y.bits
            != 0x7ff0_0000_0000_0000),
        x.bits == 0xfff0_0000_0000_0000 && !y.is_nan() ==> y.at_least(x) && !y.below(x) && (
        x.at_least(y) <==> y.bits == 0xfff0_0000_0000_0000) && (x.below(y) <==> y.bits
            != 0xfff0_0000_0000_0000),
        !x.is_nan() && !y.is_nan() ==> x.at_least(y) == !x.below(y) && x.same_value(y) == (
        x.at_least(y) && y.at_least(x)),
        x.is_nan() <==> 0x7ff0_0000_0000_0000 < x.bits < 0x8000_0000_0000_0000
            || 0xfff0_0000_0000_0000 < x.bits,
        x.is_finite() <==> x.bits < 0x7ff0_0000_0000_0000 || 0x8000_0000_0000_0000 <= x.bits
            < 0xfff0_0000_0000_0000,
{
}

} // verus!
