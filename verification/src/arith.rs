//! Correctly rounded binary64 arithmetic on bit patterns.
//!
//! Every operation is the IEEE 754 one under rounding to nearest, ties to even. Its
//! exact result is a ratio of integers in units of the least positive number, so what
//! it returns is stated as the pattern nearest to that ratio; the special values follow
//! the standard's table, with one canonical pattern for what is not a number.
use vstd::arithmetic::power2::pow2;
use vstd::prelude::*;

use crate::binary::{Binary64, HIDDEN64, INFINITY64};
use crate::represent;
use crate::rounding;

verus! {

/// The canonical pattern for what is not a number.
pub const NAN64: u64 = 0x7ff8_0000_0000_0000;

/// The bit that carries the sign.
pub const SIGN64: u64 = 0x8000_0000_0000_0000;

/// The pattern nearest to `a / b` least positive numbers.
#[verifier::opaque]
pub open spec fn nearest(a: nat, b: nat) -> nat {
    choose|mag: nat| rounding::nearest_even(mag, a, b)
}

/// The pattern nearest to the square root of `a`.
#[verifier::opaque]
pub open spec fn nearest_root(a: nat) -> nat {
    choose|mag: nat| represent::nearest_even_root(mag, a)
}

/// The value with the given sign and magnitude pattern.
pub open spec fn signed(negative: bool, mag: nat) -> Binary64 {
    Binary64 {
        bits: (if negative {
            SIGN64 + mag
        } else {
            mag as int
        }) as u64,
    }
}

/// The value nearest to `n` least positive numbers, for a nonzero `n`.
pub open spec fn rounded(n: int) -> Binary64 {
    if n < 0 {
        signed(true, nearest((-n) as nat, 1))
    } else {
        signed(false, nearest(n as nat, 1))
    }
}

/// The nearest pattern is the one that has been found.
pub proof fn lemma_nearest(mag: nat, a: nat, b: nat)
    requires
        b > 0,
        rounding::nearest_even(mag, a, b),
    ensures
        nearest(a, b) == mag,
{
    reveal(nearest);
    rounding::nearest_is_unique(nearest(a, b), mag, a, b);
}

/// The nearest root is the one that has been found.
pub proof fn lemma_nearest_root(mag: nat, a: nat)
    requires
        represent::nearest_even_root(mag, a),
    ensures
        nearest_root(a) == mag,
{
    reveal(nearest_root);
    let other = nearest_root(a);
    if other != mag {
        // Each lies on its side of the midpoint, which is then the root itself, so both
        // are even and the pattern between them contradicts one of them.
        let (lo, hi) = if other < mag {
            (other, mag)
        } else {
            (mag, other)
        };
        let sum = rounding::units64(lo) + rounding::units64(hi);
        assert(rounding::units64(mag) + rounding::units64(other) == sum);
        assert(rounding::units64(other) + rounding::units64(mag) == sum);
        assert(4 * a == sum * sum);
        let mid = lo + 1;
        assert(mid < hi);
        rounding::lemma_units64_scaled(mid, hi, 1);
        rounding::lemma_units64_scaled(lo, mid, 1);
        let near = rounding::units64(lo) + rounding::units64(mid);
        assert(near * near < sum * sum) by (nonlinear_arith)
            requires
                near < sum,
        ;
        assert(rounding::units64(lo) + rounding::units64(mid) == near);
    }
}

/// The value with the given sign and magnitude pattern.
pub(crate) fn pack(negative: bool, mag: u64) -> (r: Binary64)
    requires
        mag <= INFINITY64,
    ensures
        r == signed(negative, mag as nat),
        r.magnitude() == mag,
        r.negative() == negative,
{
    if negative {
        Binary64 { bits: SIGN64 + mag }
    } else {
        Binary64 { bits: mag }
    }
}

impl Binary64 {
    /// The magnitude in least positive numbers.
    pub open spec fn units(self) -> nat {
        rounding::units64(self.magnitude() as nat)
    }

    /// Whether the value is an infinity.
    pub open spec fn is_infinite(self) -> bool {
        self.magnitude() == INFINITY64
    }

    /// The sum.
    pub open spec fn spec_plus(self, other: Binary64) -> Binary64 {
        if self.is_nan() || other.is_nan() {
            Binary64 { bits: NAN64 }
        } else if self.is_infinite() {
            if other.is_infinite() && self.negative() != other.negative() {
                Binary64 { bits: NAN64 }
            } else {
                self
            }
        } else if other.is_infinite() {
            other
        } else if self.value() + other.value() == 0 {
            signed(self.negative() && other.negative(), 0)
        } else {
            rounded(self.value() + other.value())
        }
    }

    /// The negation.
    pub open spec fn spec_negated(self) -> Binary64 {
        signed(!self.negative(), self.magnitude() as nat)
    }

    /// The difference.
    pub open spec fn spec_minus(self, other: Binary64) -> Binary64 {
        self.spec_plus(other.spec_negated())
    }

    /// The product.
    pub open spec fn spec_times(self, other: Binary64) -> Binary64 {
        let negative = self.negative() != other.negative();
        if self.is_nan() || other.is_nan() {
            Binary64 { bits: NAN64 }
        } else if self.is_infinite() || other.is_infinite() {
            if self.magnitude() == 0 || other.magnitude() == 0 {
                Binary64 { bits: NAN64 }
            } else {
                signed(negative, INFINITY64 as nat)
            }
        } else {
            signed(negative, nearest(self.units() * other.units(), pow2(1074)))
        }
    }

    /// The quotient.
    pub open spec fn spec_over(self, other: Binary64) -> Binary64 {
        let negative = self.negative() != other.negative();
        if self.is_nan() || other.is_nan() {
            Binary64 { bits: NAN64 }
        } else if self.is_infinite() {
            if other.is_infinite() {
                Binary64 { bits: NAN64 }
            } else {
                signed(negative, INFINITY64 as nat)
            }
        } else if other.is_infinite() {
            signed(negative, 0)
        } else if other.magnitude() == 0 {
            if self.magnitude() == 0 {
                Binary64 { bits: NAN64 }
            } else {
                signed(negative, INFINITY64 as nat)
            }
        } else {
            signed(negative, nearest(self.units() * pow2(1074), other.units()))
        }
    }

    /// The square root.
    pub open spec fn spec_root(self) -> Binary64 {
        if self.is_nan() {
            Binary64 { bits: NAN64 }
        } else if self.magnitude() == 0 {
            self
        } else if self.negative() {
            Binary64 { bits: NAN64 }
        } else if self.is_infinite() {
            self
        } else {
            signed(false, nearest_root(self.units() * pow2(1074)))
        }
    }

    /// The value scaled by `2^n`.
    pub open spec fn spec_scaled(self, n: i32) -> Binary64 {
        if self.is_nan() || self.is_infinite() {
            self
        } else {
            signed(
                self.negative(),
                nearest(
                    self.units() * rounding::scale_up(n as int),
                    rounding::scale_down(n as int),
                ),
            )
        }
    }

    /// Whether `2^e <= |self| < 2^(e + 1)`, with `e` in the range of the exponents.
    pub open spec fn has_exponent(self, e: i32) -> bool {
        &&& -1074 <= e <= 1023
        &&& pow2((e + 1074) as nat) <= self.units() < pow2((e + 1075) as nat)
    }

    /// The binary exponent of a finite nonzero value, and `-1` otherwise.
    pub open spec fn spec_exponent(self) -> i32 {
        if self.is_finite() && self.magnitude() != 0 {
            choose|e: i32| self.has_exponent(e)
        } else {
            (-1) as i32
        }
    }

    /// The magnitude as a value.
    pub open spec fn spec_absolute(self) -> Binary64 {
        signed(false, self.magnitude() as nat)
    }

    /// Whether the sign bit is set.
    fn sign(self) -> (r: bool)
        ensures
            r == self.negative(),
    {
        self.bits >= SIGN64
    }

    /// The significand and the exponent of a finite value: `units == m * 2^e`.
    fn parts(self) -> (r: (u64, u32))
        requires
            self.is_finite(),
        ensures
            self.units() == r.0 * pow2(r.1 as nat),
            r.0 < 2 * HIDDEN64,
            r.1 <= 2045,
            r.1 > 0 ==> r.0 >= HIDDEN64,
            (r.0 == 0) == (self.magnitude() == 0),
    {
        let mag: u64 = self.magnitude();
        let field: u64 = mag / HIDDEN64;
        let fraction: u64 = mag % HIDDEN64;
        proof {
            vstd::arithmetic::power2::lemma2_to64();
            assert(fraction * 1 == fraction) by (nonlinear_arith);
        }
        if field == 0 {
            (fraction, 0)
        } else {
            (HIDDEN64 + fraction, (field - 1) as u32)
        }
    }

    /// The sum.
    #[verifier::when_used_as_spec(spec_plus)]
    pub fn plus(self, other: Binary64) -> (r: Binary64)
        ensures
            r == self.plus(other),
    {
        if self.is_nan() || other.is_nan() {
            return Binary64 { bits: NAN64 };
        }
        if self.magnitude() == INFINITY64 {
            if other.magnitude() == INFINITY64 && self.sign() != other.sign() {
                return Binary64 { bits: NAN64 };
            }
            return self;
        }
        if other.magnitude() == INFINITY64 {
            return other;
        }
        let (m1, e1) = self.parts();
        let (m2, e2) = other.parts();
        if e1 >= e2 {
            sum_of_parts(m1, e1, self.sign(), m2, e2, other.sign())
        } else {
            sum_of_parts(m2, e2, other.sign(), m1, e1, self.sign())
        }
    }

    /// The negation.
    #[verifier::when_used_as_spec(spec_negated)]
    pub fn negated(self) -> (r: Binary64)
        ensures
            r == self.negated(),
    {
        if self.bits >= SIGN64 {
            Binary64 { bits: self.bits - SIGN64 }
        } else {
            Binary64 { bits: self.bits + SIGN64 }
        }
    }

    /// The difference.
    #[verifier::when_used_as_spec(spec_minus)]
    pub fn minus(self, other: Binary64) -> (r: Binary64)
        ensures
            r == self.minus(other),
    {
        self.plus(other.negated())
    }

    /// The magnitude as a value.
    #[verifier::when_used_as_spec(spec_absolute)]
    pub fn absolute(self) -> (r: Binary64)
        ensures
            r == self.absolute(),
    {
        Binary64 { bits: self.magnitude() }
    }

    /// The product.
    #[verifier::when_used_as_spec(spec_times)]
    pub fn times(self, other: Binary64) -> (r: Binary64)
        ensures
            r == self.times(other),
    {
        let negative = self.sign() != other.sign();
        if self.is_nan() || other.is_nan() {
            return Binary64 { bits: NAN64 };
        }
        if self.magnitude() == INFINITY64 || other.magnitude() == INFINITY64 {
            if self.magnitude() == 0 || other.magnitude() == 0 {
                return Binary64 { bits: NAN64 };
            }
            return pack(negative, INFINITY64);
        }
        let (m1, e1) = self.parts();
        let (m2, e2) = other.parts();
        proof {
            vstd::arithmetic::mul::lemma_mul_upper_bound(
                m1 as int,
                2 * HIDDEN64 as int,
                m2 as int,
                2 * HIDDEN64 as int,
            );
        }
        let m: u128 = m1 as u128 * m2 as u128;
        let mag: u64 = rounding::round_to_nearest(m, false, e1 as i64 + e2 as i64 - 1074);
        proof {
            represent::lemma_product_represents(m1 as nat, e1 as nat, m2 as nat, e2 as nat);
            vstd::arithmetic::power2::lemma_pow2_pos(1074);
            lemma_nearest(mag as nat, self.units() * other.units(), pow2(1074));
        }
        pack(negative, mag)
    }

    /// The quotient.
    #[verifier::when_used_as_spec(spec_over)]
    pub fn over(self, other: Binary64) -> (r: Binary64)
        ensures
            r == self.over(other),
    {
        let negative = self.sign() != other.sign();
        if self.is_nan() || other.is_nan() {
            return Binary64 { bits: NAN64 };
        }
        if self.magnitude() == INFINITY64 {
            if other.magnitude() == INFINITY64 {
                return Binary64 { bits: NAN64 };
            }
            return pack(negative, INFINITY64);
        }
        if other.magnitude() == INFINITY64 {
            return pack(negative, 0);
        }
        if other.magnitude() == 0 {
            if self.magnitude() == 0 {
                return Binary64 { bits: NAN64 };
            }
            return pack(negative, INFINITY64);
        }
        let (m1, e1) = self.parts();
        let (m2, e2) = other.parts();
        if m1 == 0 {
            proof {
                vstd::arithmetic::power2::lemma_pow2_pos(e2 as nat);
                vstd::arithmetic::mul::lemma_mul_strictly_positive(
                    m2 as int,
                    pow2(e2 as nat) as int,
                );
                assert(rounding::units64(0) == 0);
                vstd::arithmetic::mul::lemma_mul_basics(pow2(e1 as nat) as int);
                vstd::arithmetic::mul::lemma_mul_basics(pow2(1074) as int);
                vstd::arithmetic::mul::lemma_mul_basics(other.units() as int);
                rounding::lemma_exact_is_nearest(0, 0, other.units());
                lemma_nearest(0, 0, other.units());
            }
            return pack(negative, 0);
        }
        // Bring both significands to 53 bits, so the quotient has at least 64.
        let l1: u32 = rounding::floor_log2(m1 as u128);
        let l2: u32 = rounding::floor_log2(m2 as u128);
        proof {
            represent::lemma_at_most_52(m1 as nat, l1 as nat);
            represent::lemma_at_most_52(m2 as nat, l2 as nat);
            represent::lemma_normalized(m1 as nat, l1 as nat);
            represent::lemma_normalized(m2 as nat, l2 as nat);
        }
        let n1: u128 = m1 as u128 * rounding::power_of_two(52 - l1);
        let n2: u128 = m2 as u128 * rounding::power_of_two(52 - l2);
        let wide: u128 = n1 * 0x1_0000_0000_0000_0000;
        let quotient: u128 = wide / n2;
        let remainder: u128 = wide % n2;
        let e: i64 = e1 as i64 - e2 as i64 + l1 as i64 - l2 as i64 + 1010;
        proof {
            vstd::arithmetic::div_mod::lemma_fundamental_div_mod(wide as int, n2 as int);
            assert(wide == quotient * n2 + remainder) by (nonlinear_arith)
                requires
                    wide == n2 * quotient + remainder,
            ;
            represent::lemma_quotient_bounds(
                wide as nat,
                n2 as nat,
                quotient as nat,
                remainder as nat,
            );
            represent::lemma_quotient_represents(
                m1 as nat,
                e1 as nat,
                (52 - l1) as nat,
                m2 as nat,
                e2 as nat,
                (52 - l2) as nat,
                quotient as nat,
                remainder as nat,
            );
        }
        let mag: u64 = rounding::round_to_nearest(quotient, remainder != 0, e);
        proof {
            lemma_nearest(mag as nat, self.units() * pow2(1074), other.units());
        }
        pack(negative, mag)
    }

    /// The value scaled by `2^n`, exactly wherever the result is representable.
    #[verifier::when_used_as_spec(spec_scaled)]
    pub fn scaled(self, n: i32) -> (r: Binary64)
        ensures
            r == self.scaled(n),
    {
        if self.is_nan() || self.magnitude() == INFINITY64 {
            return self;
        }
        let (m, e) = self.parts();
        let mag: u64 = rounding::round_to_nearest(m as u128, false, e as i64 + n as i64);
        proof {
            represent::lemma_scaled_represents(m as nat, e as nat, n as int);
            lemma_nearest(
                mag as nat,
                self.units() * rounding::scale_up(n as int),
                rounding::scale_down(n as int),
            );
        }
        pack(self.sign(), mag)
    }

    /// The binary exponent of a finite nonzero value: the `e` for which
    /// `2^e <= |self| < 2^(e + 1)`. Subnormals report their true exponent. A zero, an
    /// infinity, and what is not a number have none, and report `-1`.
    #[verifier::when_used_as_spec(spec_exponent)]
    pub fn exponent(self) -> (r: i32)
        ensures
            r == self.exponent(),
            -1074 <= r <= 1023,
            self.is_finite() && self.magnitude() != 0 ==> self.has_exponent(r),
    {
        if !self.is_finite() || self.magnitude() == 0 {
            return -1;
        }
        let (m, e) = self.parts();
        let l: u32 = rounding::floor_log2(m as u128);
        proof {
            represent::lemma_at_most_52(m as nat, l as nat);
            represent::lemma_lift(m as nat, l as nat, e as nat);
        }
        let r: i32 = l as i32 + e as i32 - 1074;
        proof {
            assert(self.has_exponent(r));
            self.lemma_exponent(r);
        }
        r
    }

    /// The binary exponent is the one that has been found.
    pub proof fn lemma_exponent(self, r: i32)
        requires
            self.is_finite(),
            self.magnitude() != 0,
            self.has_exponent(r),
        ensures
            self.exponent() == r,
    {
        let e = choose|e: i32| self.has_exponent(e);
        assert(self.has_exponent(e));
        if e < r {
            vstd::arithmetic::power2::lemma_pow2_strictly_increases(
                (e + 1074) as nat,
                (r + 1074) as nat,
            );
            if e + 1 < r {
                vstd::arithmetic::power2::lemma_pow2_strictly_increases(
                    (e + 1075) as nat,
                    (r + 1074) as nat,
                );
            }
        } else if r < e {
            if r + 1 < e {
                vstd::arithmetic::power2::lemma_pow2_strictly_increases(
                    (r + 1075) as nat,
                    (e + 1074) as nat,
                );
            }
        }
    }

    /// The value nearest to an integer.
    pub fn from_u64(n: u64) -> (r: Binary64)
        ensures
            r == signed(false, nearest(n as nat * pow2(1074), 1)),
    {
        let mag: u64 = rounding::round_to_nearest(n as u128, false, 1074);
        proof {
            represent::lemma_exact_represents(n as nat, 1074);
            lemma_nearest(mag as nat, n as nat * pow2(1074), 1);
        }
        pack(false, mag)
    }

    /// The square root.
    #[verifier::when_used_as_spec(spec_root)]
    pub fn root(self) -> (r: Binary64)
        ensures
            r == self.root(),
    {
        if self.is_nan() {
            return Binary64 { bits: NAN64 };
        }
        if self.magnitude() == 0 {
            return self;
        }
        if self.sign() {
            return Binary64 { bits: NAN64 };
        }
        if self.magnitude() == INFINITY64 {
            return self;
        }
        let (m, e) = self.parts();
        let l: u32 = rounding::floor_log2(m as u128);
        proof {
            represent::lemma_at_most_52(m as nat, l as nat);
        }
        // Lift to 113 or 114 bits over an even power of two.
        let s: u32 = if (e + 1074 + l) % 2 == 0 {
            112 - l
        } else {
            113 - l
        };
        let h: u32 = (e + 1074 - s) / 2;
        proof {
            represent::lemma_lift_for_root(m as nat, l as nat, s as nat);
        }
        let lifted: u128 = m as u128 * rounding::power_of_two(s);
        let root: u128 = integer_root(lifted);
        let sticky = root * root != lifted;
        proof {
            represent::lemma_root_bound(lifted as nat, root as nat);
        }
        let mag: u64 = rounding::round_to_nearest(root, sticky, h as i64);
        proof {
            let a = self.units() * pow2(1074);
            represent::lemma_root_scale(m as nat, e as nat, s as nat, h as nat);
            represent::lemma_root_is_nearest(mag as nat, root as nat, sticky, h as nat, lifted as nat, a);
            lemma_nearest_root(mag as nat, a);
        }
        pack(false, mag)
    }
}

/// The integer square root.
fn integer_root(n: u128) -> (r: u128)
    requires
        n < 0x8_0000_0000_0000_0000_0000_0000_0000,
    ensures
        r * r <= n < (r + 1) * (r + 1),
        r < 0x800_0000_0000_0000,
{
    let mut r: u128 = 0;
    let mut bit: u128 = 0x400_0000_0000_0000;
    let ghost mut k: nat = 58;
    proof {
        vstd::arithmetic::power2::lemma2_to64_rest();
        assert(r + 2 * bit == 0x800_0000_0000_0000);
        assert(0x800_0000_0000_0000int * 0x800_0000_0000_0000int
            == 0x40_0000_0000_0000_0000_0000_0000_0000int);
    }
    while bit > 0
        invariant
            bit > 0 ==> bit == pow2(k) && k <= 58,
            r * r <= n,
            bit > 0 ==> n < (r + 2 * bit) * (r + 2 * bit),
            bit == 0 ==> n < (r + 1) * (r + 1),
            r + 2 * bit <= 0x800_0000_0000_0000,
            r < 0x800_0000_0000_0000,
        decreases bit,
    {
        let candidate: u128 = r + bit;
        proof {
            vstd::arithmetic::mul::lemma_mul_upper_bound(
                candidate as int,
                0x800_0000_0000_0000,
                candidate as int,
                0x800_0000_0000_0000,
            );
        }
        if candidate * candidate <= n {
            r = candidate;
        }
        proof {
            vstd::arithmetic::power2::lemma2_to64();
            if k > 0 {
                vstd::arithmetic::power2::lemma_pow2_unfold(k);
                vstd::arithmetic::power2::lemma_pow2_pos((k - 1) as nat);
                k = (k - 1) as nat;
            }
        }
        bit = bit / 2;
    }
    r
}


/// The signed integer with the given sign and magnitude.
pub open spec fn with_sign(negative: bool, n: int) -> int {
    if negative {
        -n
    } else {
        n
    }
}

/// The sum of two finite values given by their parts, the first one's exponent no
/// smaller than the second's.
fn sum_of_parts(m1: u64, e1: u32, s1: bool, m2: u64, e2: u32, s2: bool) -> (r: Binary64)
    requires
        m1 < 2 * HIDDEN64,
        m2 < 2 * HIDDEN64,
        e2 <= e1 <= 2045,
        e1 > 0 ==> m1 >= HIDDEN64,
    ensures
        ({
            let n = with_sign(s1, m1 * pow2(e1 as nat)) + with_sign(s2, m2 * pow2(e2 as nat));
            r == if n == 0 {
                signed(s1 && s2, 0)
            } else {
                rounded(n)
            }
        }),
{
    let diff: u32 = e1 - e2;
    let ghost v1 = m1 * pow2(e1 as nat);
    let ghost v2 = m2 * pow2(e2 as nat);
    let ghost n = with_sign(s1, v1) + with_sign(s2, v2);
    if diff <= 64 {
        let power: u128 = rounding::power_of_two(diff);
        proof {
            vstd::arithmetic::power2::lemma2_to64();
            if diff < 64 {
                vstd::arithmetic::power2::lemma_pow2_strictly_increases(diff as nat, 64);
            }
            assert(m1 * power <= 0x20_0000_0000_0000 * 0x1_0000_0000_0000_0000) by (nonlinear_arith)
                requires
                    m1 <= 0x20_0000_0000_0000,
                    power <= 0x1_0000_0000_0000_0000,
            ;
            vstd::arithmetic::power2::lemma_pow2_adds(diff as nat, e2 as nat);
            vstd::arithmetic::power2::lemma_pow2_pos(e2 as nat);
        }
        let a: u128 = m1 as u128 * power;
        let b: u128 = m2 as u128;
        let ghost p = pow2(e2 as nat);
        assert(v1 == a * p) by (nonlinear_arith)
            requires
                v1 == m1 * (power * p),
                a == m1 * power,
        ;
        let (negative, m): (bool, u128) = if s1 == s2 {
            (s1, a + b)
        } else if a >= b {
            (s1, a - b)
        } else {
            (s2, b - a)
        };
        assert((a + b) * p == a * p + b * p && (a - b) * p == a * p - b * p && (b - a) * p == b * p
            - a * p) by (nonlinear_arith);
        assert(with_sign(negative, m * p) == n);
        if m == 0 {
            assert(m * p == 0) by (nonlinear_arith)
                requires
                    m == 0,
            ;
            if s1 == s2 {
                return pack(s1, 0);
            }
            return pack(false, 0);
        }
        let mag: u64 = rounding::round_to_nearest(m, false, e2 as i64);
        proof {
            represent::lemma_exact_represents(m as nat, e2 as nat);
            lemma_nearest(mag as nat, (m * p) as nat, 1);
            assert(m * p > 0) by (nonlinear_arith)
                requires
                    m > 0,
                    p > 0,
            ;
        }
        return pack(negative, mag);
    }
    // The second lies at least 65 bits below the first: keep 64 bits more of the first,
    // and what is left of the second only as a sticky rest.
    let k: u32 = diff - 64;
    proof {
        vstd::arithmetic::power2::lemma2_to64_rest();
        vstd::arithmetic::power2::lemma_pow2_pos(k as nat);
        if k < 54 {
            vstd::arithmetic::power2::lemma_pow2_strictly_increases(k as nat, 54);
        } else {
            if k > 54 {
                vstd::arithmetic::power2::lemma_pow2_strictly_increases(54, k as nat);
            }
            vstd::arithmetic::div_mod::lemma_small_mod(m2 as nat, pow2(k as nat));
            vstd::arithmetic::div_mod::lemma_basic_div(m2 as int, pow2(k as nat) as int);
        }
    }
    let (part, rest): (u64, bool) = if k >= 54 {
        (0, m2 != 0)
    } else {
        let unit: u64 = rounding::power_of_two(k) as u64;
        (m2 / unit, m2 % unit != 0)
    };
    let e0: u32 = e1 - 64;
    proof {
        lemma_far_apart(
            m1 as nat,
            m2 as nat,
            e1 as nat,
            e2 as nat,
            part as nat,
            rest,
            s1 == s2,
        );
    }
    let wide: u128 = m1 as u128 * 0x1_0000_0000_0000_0000;
    let m: u128 = if s1 == s2 {
        wide + part as u128
    } else if rest {
        wide - part as u128 - 1
    } else {
        wide - part as u128
    };
    let mag: u64 = rounding::round_to_nearest(m, rest, e0 as i64);
    proof {
        let total = if s1 == s2 {
            v1 + v2
        } else {
            v1 - v2
        };
        assert(with_sign(s1, total) == n);
        lemma_nearest(mag as nat, total as nat, 1);
    }
    pack(s1, mag)
}

/// The first of two finite values far apart, widened by 64 bits, and what is left of the
/// second represent the sum and the difference.
proof fn lemma_far_apart(
    m1: nat,
    m2: nat,
    e1: nat,
    e2: nat,
    part: nat,
    rest: bool,
    same: bool,
)
    requires
        HIDDEN64 <= m1 < 2 * HIDDEN64,
        m2 < 2 * HIDDEN64,
        e1 > e2 + 64,
        ({
            let unit = pow2((e1 - e2 - 64) as nat);
            part == m2 / unit && rest == (m2 % unit != 0)
        }),
    ensures
        ({
            let wide: int = (m1 * 0x1_0000_0000_0000_0000) as int;
            let v1: int = (m1 * pow2(e1)) as int;
            let v2: int = (m2 * pow2(e2)) as int;
            let total = if same {
                v1 + v2
            } else {
                v1 - v2
            };
            let m = if same {
                wide + part
            } else if rest {
                wide - part - 1
            } else {
                wide - part
            };
            &&& total > 0
            &&& m >= 0x0040_0000_0000_0000
            &&& m < 0x4000_0000_0000_0000_0000_0000_0000_0000
            &&& part < 2 * HIDDEN64
            &&& rounding::represents(m as nat, rest, e1 - 64, total as nat, 1)
        }),
{
    let k = (e1 - e2 - 64) as nat;
    let unit = pow2(k);
    let e0 = (e1 - 64) as nat;
    let p0 = pow2(e0);
    let p2 = pow2(e2);
    vstd::arithmetic::power2::lemma2_to64();
    vstd::arithmetic::power2::lemma_pow2_adds(64, e0);
    vstd::arithmetic::power2::lemma_pow2_adds(k, e2);
    vstd::arithmetic::power2::lemma_pow2_pos(e0);
    vstd::arithmetic::power2::lemma_pow2_pos(e2);
    vstd::arithmetic::power2::lemma_pow2_pos(k);
    assert(p0 == unit * p2);
    let wide: int = (m1 * 0x1_0000_0000_0000_0000) as int;
    let v1: int = (m1 * pow2(e1)) as int;
    let v2: int = (m2 * p2) as int;
    assert(v1 == wide * p0) by (nonlinear_arith)
        requires
            v1 == m1 * (0x1_0000_0000_0000_0000 * p0),
            wide == m1 * 0x1_0000_0000_0000_0000,
    ;
    vstd::arithmetic::div_mod::lemma_fundamental_div_mod(m2 as int, unit as int);
    vstd::arithmetic::div_mod::lemma_mod_bound(m2 as int, unit as int);
    let left = m2 % unit;
    assert(part <= m2) by (nonlinear_arith)
        requires
            m2 == unit * part + left,
            unit >= 1,
            left >= 0,
    ;
    // The second value is `part` units of `2^e0` and a rest of less than one.
    assert(v2 == part * p0 + left * p2) by (nonlinear_arith)
        requires
            v2 == m2 * p2,
            m2 == unit * part + left,
            p0 == unit * p2,
    ;
    assert(left * p2 < p0) by (nonlinear_arith)
        requires
            left < unit,
            p0 == unit * p2,
            p2 > 0,
    ;
    assert(left > 0 ==> left * p2 > 0) by (nonlinear_arith)
        requires
            p2 > 0,
    ;
    assert(left == 0 ==> left * p2 == 0) by (nonlinear_arith);
    assert(p0 * 1 == p0) by (nonlinear_arith);
    assert((wide + part) * p0 == wide * p0 + part * p0) by (nonlinear_arith);
    assert((wide - part) * p0 == wide * p0 - part * p0) by (nonlinear_arith);
    assert((wide - part - 1) * p0 == wide * p0 - part * p0 - p0) by (nonlinear_arith);
    assert((wide - part) * p0 > p0) by (nonlinear_arith)
        requires
            wide - part > 1,
            p0 > 0,
    ;
    let total = if same {
        v1 + v2
    } else {
        v1 - v2
    };
    assert(total * 1 == total) by (nonlinear_arith);
}

} // verus!
