//! Scalar types an embedding can be stored and aggregated in.
//!
//! [`Scalar`] is the storage type and [`Real`] is the domain that the aggregation
//! arithmetic runs in. The two differ for the narrow formats: a [`Binary32`],
//! [`Binary16`] or [`Bfloat16`] embedding widens to [`Binary64`] before anything is
//! added up, which is exact. `i8` is a *code* scalar: what widens is the stored
//! quantization code, which is a value only once an embedding applies the scale that
//! this crate cannot know.
use vstd::prelude::*;

use crate::binary::{Binary32, Binary64, ONE64};
use crate::widen::{self, Bfloat16, Binary16};

verus! {

/// A domain that the aggregation arithmetic can run in.
///
/// The ghost functions name the results of the operations, one for one.
pub trait Real: Copy {
    /// The additive identity.
    spec fn spec_zero() -> Self;

    /// The multiplicative identity.
    spec fn spec_one() -> Self;

    /// The gap between one and the next larger value.
    spec fn spec_epsilon() -> Self;

    /// The smallest positive value that is rounded relatively.
    spec fn spec_min_normal() -> Self;

    /// The smallest magnitude that a nonzero component may carry.
    spec fn spec_min_agg_magnitude() -> Self;

    /// The largest magnitude that a component may carry.
    spec fn spec_max_agg_magnitude() -> Self;

    /// The absolute part of the determinacy threshold.
    spec fn spec_min_gate_threshold() -> Self;

    /// The binary32 value `x` in this domain.
    spec fn spec_from_f32(x: Binary32) -> Self;

    /// The binary64 value `x` in this domain.
    spec fn spec_from_f64(x: Binary64) -> Self;

    /// The sum.
    spec fn spec_plus(self, other: Self) -> Self;

    /// The difference.
    spec fn spec_minus(self, other: Self) -> Self;

    /// The product.
    spec fn spec_times(self, other: Self) -> Self;

    /// The quotient.
    spec fn spec_over(self, other: Self) -> Self;

    /// The square root.
    spec fn spec_sqrt(self) -> Self;

    /// The magnitude, ignoring the sign.
    spec fn spec_abs(self) -> Self;

    /// The binary exponent of the magnitude.
    spec fn spec_exponent(self) -> i32;

    /// The value scaled by `2^n`.
    spec fn spec_ldexp(self, n: i32) -> Self;

    /// Whether the value is neither infinite nor not a number.
    spec fn spec_is_finite(self) -> bool;

    /// Whether `self >= other`; false where either is not a number.
    spec fn spec_at_least(self, other: Self) -> bool;

    /// Whether `self < other`; false where either is not a number.
    spec fn spec_below(self, other: Self) -> bool;

    /// The additive identity.
    fn zero() -> (r: Self)
        ensures
            r == Self::spec_zero(),
    ;

    /// The multiplicative identity.
    fn one() -> (r: Self)
        ensures
            r == Self::spec_one(),
    ;

    /// The gap between one and the next larger value.
    fn epsilon() -> (r: Self)
        ensures
            r == Self::spec_epsilon(),
    ;

    /// The smallest positive value that is rounded relatively.
    fn min_normal() -> (r: Self)
        ensures
            r == Self::spec_min_normal(),
    ;

    /// The smallest magnitude that a nonzero component may carry into aggregation.
    fn min_agg_magnitude() -> (r: Self)
        ensures
            r == Self::spec_min_agg_magnitude(),
    ;

    /// The largest magnitude that a component may carry into aggregation.
    fn max_agg_magnitude() -> (r: Self)
        ensures
            r == Self::spec_max_agg_magnitude(),
    ;

    /// The absolute part of the determinacy threshold.
    fn min_gate_threshold() -> (r: Self)
        ensures
            r == Self::spec_min_gate_threshold(),
    ;

    /// Widen a binary32 value into this domain.
    fn from_f32(x: Binary32) -> (r: Self)
        ensures
            r == Self::spec_from_f32(x),
    ;

    /// Widen a binary64 value into this domain.
    fn from_f64(x: Binary64) -> (r: Self)
        ensures
            r == Self::spec_from_f64(x),
    ;

    /// The sum.
    fn plus(self, other: Self) -> (r: Self)
        ensures
            r == self.spec_plus(other),
    ;

    /// The difference.
    fn minus(self, other: Self) -> (r: Self)
        ensures
            r == self.spec_minus(other),
    ;

    /// The product.
    fn times(self, other: Self) -> (r: Self)
        ensures
            r == self.spec_times(other),
    ;

    /// The quotient.
    fn over(self, other: Self) -> (r: Self)
        ensures
            r == self.spec_over(other),
    ;

    /// The square root, for L2 norms.
    fn sqrt(self) -> (r: Self)
        ensures
            r == self.spec_sqrt(),
    ;

    /// The magnitude, ignoring the sign.
    fn abs(self) -> (r: Self)
        ensures
            r == self.spec_abs(),
    ;

    /// The binary exponent of the magnitude of a finite nonzero value.
    fn exponent(self) -> (r: i32)
        ensures
            r == self.spec_exponent(),
    ;

    /// The value scaled by `2^n`.
    fn ldexp(self, n: i32) -> (r: Self)
        ensures
            r == self.spec_ldexp(n),
    ;

    /// Whether the value is neither infinite nor not a number.
    fn is_finite(self) -> (r: bool)
        ensures
            r == self.spec_is_finite(),
    ;

    /// Whether `self >= other`; false where either is not a number.
    fn at_least(self, other: Self) -> (r: bool)
        ensures
            r == self.spec_at_least(other),
    ;

    /// Whether `self < other`; false where either is not a number.
    fn below(self, other: Self) -> (r: bool)
        ensures
            r == self.spec_below(other),
    ;
}

/// Whether two values are equal as numbers; false where either is not one.
pub open spec fn equal_values<C: Real>(x: C, y: C) -> bool {
    x.spec_at_least(y) && y.spec_at_least(x)
}

/// A scalar type an embedding can be stored in.
pub trait Scalar: Copy {
    /// The domain this scalar's aggregation arithmetic runs in.
    type Compute: Real;

    /// Whether [`to_compute`](Scalar::to_compute) yields the value this scalar
    /// represents, rather than its raw stored code.
    const TO_COMPUTE_IS_VALUE: bool;

    /// Whether `r` is the stored scalar in the compute domain. What an implementation
    /// outside of verified code widens to is left open.
    open spec fn widens_to(self, r: Self::Compute) -> bool {
        true
    }

    /// Widen one stored scalar into the compute domain.
    fn to_compute(self) -> (r: Self::Compute)
        ensures
            self.widens_to(r),
    ;

    /// Borrow a stored slice as compute values where the two types coincide.
    fn as_compute_slice(v: &[Self]) -> (r: Option<&[Self::Compute]>)
        ensures
            r matches Some(s) ==> s@.len() == v@.len() && forall|i: int|
                0 <= i < v@.len() ==> (#[trigger] v@[i]).widens_to(s@[i]),
    ;
}

impl Real for Binary64 {
    open spec fn spec_zero() -> Self {
        Binary64 { bits: 0 }
    }

    open spec fn spec_one() -> Self {
        Binary64 { bits: ONE64 }
    }

    /// `2^-52`.
    open spec fn spec_epsilon() -> Self {
        Binary64 { bits: 0x3cb0_0000_0000_0000 }
    }

    /// `2^-1022`.
    open spec fn spec_min_normal() -> Self {
        Binary64 { bits: 0x0010_0000_0000_0000 }
    }

    /// `2^-400`.
    open spec fn spec_min_agg_magnitude() -> Self {
        Binary64 { bits: 0x26f0_0000_0000_0000 }
    }

    /// `2^400`.
    open spec fn spec_max_agg_magnitude() -> Self {
        Binary64 { bits: 0x58f0_0000_0000_0000 }
    }

    /// `2^-1000`.
    open spec fn spec_min_gate_threshold() -> Self {
        Binary64 { bits: 0x0170_0000_0000_0000 }
    }

    open spec fn spec_from_f32(x: Binary32) -> Self {
        x.widened()
    }

    open spec fn spec_from_f64(x: Binary64) -> Self {
        x
    }

    open spec fn spec_plus(self, other: Self) -> Self {
        Binary64::plus(self, other)
    }

    open spec fn spec_minus(self, other: Self) -> Self {
        Binary64::minus(self, other)
    }

    open spec fn spec_times(self, other: Self) -> Self {
        Binary64::times(self, other)
    }

    open spec fn spec_over(self, other: Self) -> Self {
        Binary64::over(self, other)
    }

    open spec fn spec_sqrt(self) -> Self {
        Binary64::root(self)
    }

    open spec fn spec_abs(self) -> Self {
        Binary64::absolute(self)
    }

    open spec fn spec_exponent(self) -> i32 {
        Binary64::exponent(self)
    }

    open spec fn spec_ldexp(self, n: i32) -> Self {
        Binary64::scaled(self, n)
    }

    open spec fn spec_is_finite(self) -> bool {
        Binary64::is_finite(self)
    }

    open spec fn spec_at_least(self, other: Self) -> bool {
        Binary64::at_least(self, other)
    }

    open spec fn spec_below(self, other: Self) -> bool {
        Binary64::below(self, other)
    }

    fn zero() -> Self {
        Binary64 { bits: 0 }
    }

    fn one() -> Self {
        Binary64 { bits: ONE64 }
    }

    fn epsilon() -> Self {
        Binary64 { bits: 0x3cb0_0000_0000_0000 }
    }

    fn min_normal() -> Self {
        Binary64 { bits: 0x0010_0000_0000_0000 }
    }

    fn min_agg_magnitude() -> Self {
        Binary64 { bits: 0x26f0_0000_0000_0000 }
    }

    fn max_agg_magnitude() -> Self {
        Binary64 { bits: 0x58f0_0000_0000_0000 }
    }

    fn min_gate_threshold() -> Self {
        Binary64 { bits: 0x0170_0000_0000_0000 }
    }

    fn from_f32(x: Binary32) -> Self {
        x.widened()
    }

    fn from_f64(x: Binary64) -> Self {
        x
    }

    fn plus(self, other: Self) -> Self {
        Binary64::plus(self, other)
    }

    fn minus(self, other: Self) -> Self {
        Binary64::minus(self, other)
    }

    fn times(self, other: Self) -> Self {
        Binary64::times(self, other)
    }

    fn over(self, other: Self) -> Self {
        Binary64::over(self, other)
    }

    fn sqrt(self) -> Self {
        Binary64::root(self)
    }

    fn abs(self) -> Self {
        Binary64::absolute(self)
    }

    fn exponent(self) -> i32 {
        Binary64::exponent(self)
    }

    fn ldexp(self, n: i32) -> Self {
        Binary64::scaled(self, n)
    }

    fn is_finite(self) -> bool {
        Binary64::is_finite(self)
    }

    fn at_least(self, other: Self) -> bool {
        Binary64::at_least(self, other)
    }

    fn below(self, other: Self) -> bool {
        Binary64::below(self, other)
    }
}

impl Scalar for Binary64 {
    type Compute = Binary64;

    const TO_COMPUTE_IS_VALUE: bool = true;

    open spec fn widens_to(self, r: Binary64) -> bool {
        r == self
    }

    fn to_compute(self) -> Binary64 {
        self
    }

    fn as_compute_slice(v: &[Binary64]) -> (r: Option<&[Binary64]>)
        ensures
            r == Some(v),
    {
        Some(v)
    }
}

impl Scalar for Binary32 {
    type Compute = Binary64;

    const TO_COMPUTE_IS_VALUE: bool = true;

    open spec fn widens_to(self, r: Binary64) -> bool {
        r == self.widened()
    }

    fn to_compute(self) -> Binary64 {
        self.widened()
    }

    fn as_compute_slice(v: &[Binary32]) -> (r: Option<&[Binary64]>)
        ensures
            r is None,
    {
        None
    }
}

impl Scalar for Binary16 {
    type Compute = Binary64;

    const TO_COMPUTE_IS_VALUE: bool = true;

    open spec fn widens_to(self, r: Binary64) -> bool {
        r == self.widened()
    }

    fn to_compute(self) -> Binary64 {
        self.widened()
    }

    fn as_compute_slice(v: &[Binary16]) -> (r: Option<&[Binary64]>)
        ensures
            r is None,
    {
        None
    }
}

impl Scalar for Bfloat16 {
    type Compute = Binary64;

    const TO_COMPUTE_IS_VALUE: bool = true;

    open spec fn widens_to(self, r: Binary64) -> bool {
        r == self.widened()
    }

    fn to_compute(self) -> Binary64 {
        self.widened()
    }

    fn as_compute_slice(v: &[Bfloat16]) -> (r: Option<&[Binary64]>)
        ensures
            r is None,
    {
        None
    }
}

/// A quantized code stored as one byte. The widened code is not the value that it
/// represents.
impl Scalar for i8 {
    type Compute = Binary64;

    const TO_COMPUTE_IS_VALUE: bool = false;

    open spec fn widens_to(self, r: Binary64) -> bool {
        &&& r.is_finite()
        &&& r.negative() == (self < 0)
        &&& r.value() == self * vstd::arithmetic::power2::pow2(1074)
    }

    fn to_compute(self) -> Binary64 {
        widen::widened_i8(self)
    }

    fn as_compute_slice(v: &[i8]) -> (r: Option<&[Binary64]>)
        ensures
            r is None,
    {
        None
    }
}

} // verus!
