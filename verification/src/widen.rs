//! Exact widening of narrow values to binary64.
//!
//! Every value of a narrower binary format, and every small integer, is a binary64
//! value, so nothing is rounded on the way in.
use vstd::arithmetic::power2::{lemma_pow2_adds, pow2};
use vstd::prelude::*;

use crate::arith::{lemma_nearest, nearest, pack, signed, NAN64};
use crate::binary::{units, Binary32, Binary64, HIDDEN32, INFINITY32, INFINITY64};
use crate::{represent, rounding};

verus! {

/// Whether `wide` is the widening of the magnitude pattern `mag` of a narrower format,
/// which has its infinity at `infinity`, its hidden bit at `hidden`, and a least positive
/// number of `2^shift` binary64 ones.
pub open spec fn widens(
    wide: Binary64,
    negative: bool,
    mag: nat,
    hidden: nat,
    infinity: nat,
    shift: nat,
) -> bool {
    if mag > infinity {
        wide.is_nan()
    } else if mag == infinity {
        wide == signed(negative, INFINITY64 as nat)
    } else {
        &&& wide.is_finite()
        &&& wide.negative() == negative
        &&& wide.units() == units(mag, hidden) * pow2(shift)
    }
}

/// The widening of the magnitude pattern `mag` of a narrower format, with one canonical
/// pattern for what is not a number.
pub open spec fn wide(
    negative: bool,
    mag: nat,
    hidden: nat,
    infinity: nat,
    shift: nat,
) -> Binary64 {
    if mag > infinity {
        Binary64 { bits: NAN64 }
    } else if mag == infinity {
        signed(negative, INFINITY64 as nat)
    } else {
        signed(negative, nearest(units(mag, hidden) * pow2(shift), 1))
    }
}

/// A widened value is unique but for the pattern of what is not a number.
pub proof fn widening_is_unique(
    x: Binary64,
    y: Binary64,
    negative: bool,
    mag: nat,
    hidden: nat,
    infinity: nat,
    shift: nat,
)
    requires
        mag <= infinity,
        widens(x, negative, mag, hidden, infinity, shift),
        widens(y, negative, mag, hidden, infinity, shift),
    ensures
        x == y,
{
    if mag < infinity {
        let (a, b) = (x.magnitude() as nat, y.magnitude() as nat);
        if a < b {
            rounding::lemma_units64_scaled(a, b, 1);
        } else if b < a {
            rounding::lemma_units64_scaled(b, a, 1);
        }
    }
}

/// A significand below `2^25` on a moderate scale is below infinity.
proof fn lemma_below_infinity(mag: nat, m: nat, e: nat)
    requires
        mag <= INFINITY64,
        rounding::units64(mag) == m * pow2(e),
        m < 0x200_0000,
        e <= 2000,
    ensures
        mag < INFINITY64,
{
    vstd::arithmetic::power2::lemma2_to64();
    lemma_pow2_adds(25, e);
    vstd::arithmetic::power2::lemma_pow2_pos(e);
    vstd::arithmetic::mul::lemma_mul_strict_inequality(m as int, pow2(25) as int, pow2(e) as int);
    vstd::arithmetic::power2::lemma_pow2_strictly_increases(25 + e, 2098);
    assert(rounding::units64(INFINITY64 as nat) == pow2(2098)) by {
        vstd::arithmetic::power2::lemma2_to64_rest();
        lemma_pow2_adds(52, 2046);
    }
}

/// Widen the magnitude pattern `mag` of a narrower format.
fn widen(negative: bool, mag: u32, hidden: u32, infinity: u32, shift: u32) -> (r: Binary64)
    requires
        0 < hidden <= 0x80_0000,
        mag < 0x8000_0000,
        mag / hidden <= 255 || mag >= infinity,
        shift <= 1050,
    ensures
        r == wide(negative, mag as nat, hidden as nat, infinity as nat, shift as nat),
        widens(r, negative, mag as nat, hidden as nat, infinity as nat, shift as nat),
{
    if mag > infinity {
        return Binary64 { bits: NAN64 };
    }
    if mag == infinity {
        return pack(negative, INFINITY64);
    }
    let field: u32 = mag / hidden;
    let fraction: u32 = mag % hidden;
    let (m, e): (u32, u32) = if field == 0 {
        (fraction, 0)
    } else {
        (hidden + fraction, field - 1)
    };
    let r: u64 = rounding::round_to_nearest(m as u128, false, e as i64 + shift as i64);
    proof {
        vstd::arithmetic::power2::lemma2_to64();
        assert(m * 1 == m) by (nonlinear_arith);
        let (p, q) = (pow2(e as nat), pow2(shift as nat));
        lemma_pow2_adds(e as nat, shift as nat);
        assert((m * p) * q == m * (p * q)) by (nonlinear_arith);
        lemma_below_infinity(r as nat, m as nat, (e + shift) as nat);
        represent::lemma_exact_represents(m as nat, (e + shift) as nat);
        lemma_nearest(r as nat, m as nat * pow2((e + shift) as nat), 1);
    }
    pack(negative, r)
}

impl Binary32 {
    /// The same value in binary64.
    pub open spec fn spec_widened(self) -> Binary64 {
        wide(self.negative(), self.magnitude(), HIDDEN32 as nat, INFINITY32 as nat, 925)
    }

    /// The same value in binary64. Exact; what is not a number stays so.
    #[verifier::when_used_as_spec(spec_widened)]
    pub fn widened(self) -> (r: Binary64)
        ensures
            r == self.widened(),
            widens(
                r,
                self.negative(),
                self.magnitude(),
                HIDDEN32 as nat,
                INFINITY32 as nat,
                925,
            ),
    {
        widen(self.bits >= 0x8000_0000, self.bits % 0x8000_0000, HIDDEN32, INFINITY32, 925)
    }
}

/// An IEEE 754 binary16 value, by its bit pattern.
#[derive(Clone, Copy, Debug)]
pub struct Binary16 {
    /// The sign bit, the exponent field, and the fraction, from the top.
    pub bits: u16,
}

impl Binary16 {
    /// Whether the sign bit is set.
    pub open spec fn negative(self) -> bool {
        self.bits >= 0x8000
    }

    /// The pattern without its sign bit.
    pub open spec fn magnitude(self) -> nat {
        (self.bits % 0x8000) as nat
    }

    /// The same value in binary64.
    pub open spec fn spec_widened(self) -> Binary64 {
        wide(self.negative(), self.magnitude(), 0x400, 0x7c00, 1050)
    }

    /// The same value in binary64. Exact; what is not a number stays so.
    #[verifier::when_used_as_spec(spec_widened)]
    pub fn widened(self) -> (r: Binary64)
        ensures
            r == self.widened(),
            widens(r, self.negative(), self.magnitude(), 0x400, 0x7c00, 1050),
    {
        widen(self.bits >= 0x8000, (self.bits % 0x8000) as u32, 0x400, 0x7c00, 1050)
    }
}

impl PartialEq for Binary16 {
    fn eq(&self, other: &Binary16) -> (r: bool) {
        self.widened() == other.widened()
    }
}

impl vstd::std_specs::cmp::PartialEqSpecImpl for Binary16 {
    open spec fn obeys_eq_spec() -> bool {
        true
    }

    open spec fn eq_spec(&self, other: &Binary16) -> bool {
        self.widened().same_value(other.widened())
    }
}

/// A bfloat16 value, by its bit pattern: the upper half of a binary32 one.
#[derive(Clone, Copy, Debug)]
pub struct Bfloat16 {
    /// The sign bit, the exponent field, and the fraction, from the top.
    pub bits: u16,
}

impl Bfloat16 {
    /// Whether the sign bit is set.
    pub open spec fn negative(self) -> bool {
        self.bits >= 0x8000
    }

    /// The pattern without its sign bit.
    pub open spec fn magnitude(self) -> nat {
        (self.bits % 0x8000) as nat
    }

    /// The same value in binary64.
    pub open spec fn spec_widened(self) -> Binary64 {
        wide(self.negative(), self.magnitude(), 0x80, 0x7f80, 941)
    }

    /// The same value in binary64. Exact; what is not a number stays so.
    #[verifier::when_used_as_spec(spec_widened)]
    pub fn widened(self) -> (r: Binary64)
        ensures
            r == self.widened(),
            widens(r, self.negative(), self.magnitude(), 0x80, 0x7f80, 941),
    {
        widen(self.bits >= 0x8000, (self.bits % 0x8000) as u32, 0x80, 0x7f80, 941)
    }
}

impl PartialEq for Bfloat16 {
    fn eq(&self, other: &Bfloat16) -> (r: bool) {
        self.widened() == other.widened()
    }
}

impl vstd::std_specs::cmp::PartialEqSpecImpl for Bfloat16 {
    open spec fn obeys_eq_spec() -> bool {
        true
    }

    open spec fn eq_spec(&self, other: &Bfloat16) -> bool {
        self.widened().same_value(other.widened())
    }
}

/// The binary64 value of a signed byte. Exact.
pub fn widened_i8(code: i8) -> (r: Binary64)
    ensures
        r.is_finite(),
        r.negative() == (code < 0),
        r.value() == code * pow2(1074),
{
    let size: u32 = if code < 0 {
        (-(code as i32)) as u32
    } else {
        code as u32
    };
    let mag: u64 = rounding::round_to_nearest(size as u128, false, 1074);
    proof {
        lemma_below_infinity(mag as nat, size as nat, 1074);
        let p = pow2(1074) as int;
        assert((-size as int) * p == -(size * p)) by (nonlinear_arith);
    }
    pack(code < 0, mag)
}

} // verus!
