use windit::binary::{Binary32, Binary64};
use windit::scalar::{Real, Scalar};
use windit::widen::{Bfloat16, Binary16};

fn bits(x: f64) -> Binary64 {
  Binary64::from_bits(x.to_bits())
}

fn float(x: Binary64) -> f64 {
  f64::from_bits(x.to_bits())
}

/// A storage scalar with a fixed scale of `1/127`.
#[derive(Clone, Copy, Debug, Eq, PartialEq)]
struct TestQuant(i8);

impl Scalar for TestQuant {
  type Compute = Binary64;

  const TO_COMPUTE_IS_VALUE: bool = true;

  fn to_compute(self) -> Binary64 {
    bits(f64::from(self.0) / 127.0)
  }

  fn as_compute_slice(_v: &[Self]) -> Option<&[Binary64]> {
    None
  }
}

#[test]
fn test_quant_widens_to_its_scale() {
  assert_eq!(float(TestQuant(127).to_compute()), 1.0);
  assert_eq!(float(TestQuant(0).to_compute()), 0.0);
  assert_eq!(float(TestQuant(-127).to_compute()), -1.0);
}

#[test]
fn identities_hold_at_both_scalars() {
  // Binary64 is the one compute domain; binary32 widens into it.
  let x = bits(1.5);
  assert_eq!(float(<Binary64 as Real>::zero().plus(x)), 1.5);
  assert_eq!(float(<Binary64 as Real>::one().times(x)), 1.5);
}

#[test]
fn the_constants_are_the_documented_powers_of_two() {
  assert_eq!(float(<Binary64 as Real>::epsilon()), f64::EPSILON);
  assert_eq!(float(<Binary64 as Real>::min_normal()), f64::MIN_POSITIVE);
  assert_eq!(float(<Binary64 as Real>::min_agg_magnitude()), libm::ldexp(1.0, -400));
  assert_eq!(float(<Binary64 as Real>::max_agg_magnitude()), libm::ldexp(1.0, 400));
  assert_eq!(float(<Binary64 as Real>::min_gate_threshold()), libm::ldexp(1.0, -1000));
}

#[test]
fn from_f32_is_exact() {
  for x in [0.0f32, 1.0, 0.5, 0.25, 0.1, 0.7, -3.25, f32::MIN_POSITIVE] {
    let wide = float(<Binary64 as Real>::from_f32(Binary32::from_bits(x.to_bits())));
    assert_eq!(wide, f64::from(x));
    assert_eq!(wide as f32, x);
  }
}

#[test]
fn sqrt_matches_known_values() {
  for (x, r) in [(0.0, 0.0), (1.0, 1.0), (4.0, 2.0), (6.25, 2.5)] {
    assert_eq!(float(Real::sqrt(bits(x))), r);
  }
}

#[test]
fn abs_drops_the_sign_and_keeps_the_magnitude() {
  assert_eq!(float(Real::abs(bits(-2.5))), 2.5);
  assert_eq!(float(Real::abs(bits(0.0))), 0.0);
  assert_eq!(float(Real::abs(bits(-f64::MAX))), f64::MAX);
  assert!(!Real::abs(bits(f64::NAN)).is_finite());
  assert_eq!(float(Real::abs(bits(f64::NEG_INFINITY))), f64::INFINITY);
}

#[test]
fn exponent_brackets_the_magnitude() {
  for x in [1.0f64, 1.5, 2.0, 3.0, 0.5, 0.75, 1e200, 1e-300, f64::MAX, f64::MIN_POSITIVE] {
    let e = Real::exponent(bits(x));
    let low = float(Real::ldexp(bits(1.0), e));
    let high = float(Real::ldexp(bits(1.0), e + 1));
    assert!(low <= x && x < high, "{x:e} is not bracketed by 2^{e}");
    assert_eq!(Real::exponent(bits(-x)), e);
  }
  assert_eq!(Real::exponent(bits(f64::from_bits(1))), -1074);
  assert_eq!(Real::exponent(bits(f64::MIN_POSITIVE)), -1022);
}

#[test]
fn ldexp_is_an_exact_power_of_two_rescale() {
  for x in [1.0f64, 0.6, 3.0, -2.5, 1e20, 1e-30, f64::MAX, f64::from_bits(1)] {
    for n in [-40i32, -1, 0, 1, 40] {
      let there = float(Real::ldexp(bits(x), n));
      assert_eq!(there.to_bits(), libm::ldexp(x, n).to_bits());
      if there.is_finite() && there.abs() >= f64::MIN_POSITIVE {
        assert_eq!(float(Real::ldexp(bits(there), -n)), x);
      }
    }
  }
}

#[test]
fn is_finite_rejects_infinities_and_nan() {
  assert!(bits(1.0).is_finite());
  assert!(!bits(f64::INFINITY).is_finite());
  assert!(!bits(f64::NEG_INFINITY).is_finite());
  assert!(!bits(f64::NAN).is_finite());
}

#[test]
fn to_compute_is_the_identity_for_the_shipped_scalars() {
  // Binary64 computes in itself, and binary32 in its widening.
  assert_eq!(float(bits(1.5).to_compute()), 1.5);
  assert_eq!(float(Binary32::from_bits(1.5f32.to_bits()).to_compute()), 1.5);
}

#[test]
fn as_compute_slice_borrows_only_when_the_types_coincide() {
  let wide = [bits(1.0), bits(2.0)];
  let borrowed = <Binary64 as Scalar>::as_compute_slice(&wide).expect("binary64 computes in itself");
  assert_eq!(borrowed, &wide);
  assert!(std::ptr::eq(borrowed.as_ptr(), wide.as_ptr()));
  let narrow = [Binary32::from_bits(1.0f32.to_bits())];
  assert!(<Binary32 as Scalar>::as_compute_slice(&narrow).is_none());
  assert!(<i8 as Scalar>::as_compute_slice(&[1]).is_none());
  assert!(<TestQuant as Scalar>::as_compute_slice(&[TestQuant(1)]).is_none());
}

#[test]
fn only_the_byte_is_a_code() {
  assert!(<Binary64 as Scalar>::TO_COMPUTE_IS_VALUE);
  assert!(<Binary32 as Scalar>::TO_COMPUTE_IS_VALUE);
  assert!(<Binary16 as Scalar>::TO_COMPUTE_IS_VALUE);
  assert!(<Bfloat16 as Scalar>::TO_COMPUTE_IS_VALUE);
  assert!(!<i8 as Scalar>::TO_COMPUTE_IS_VALUE);
}

#[test]
fn every_byte_widens_exactly() {
  for code in i8::MIN..=i8::MAX {
    assert_eq!(float(code.to_compute()).to_bits(), f64::from(code).to_bits());
  }
}

#[test]
fn every_half_precision_pattern_widens_exactly() {
  for pattern in 0..=u16::MAX {
    let want = f64::from(half::f16::from_bits(pattern));
    let got = float(Binary16 { bits: pattern }.to_compute());
    assert!(got.to_bits() == want.to_bits() || got.is_nan() && want.is_nan());
    let want = f64::from(half::bf16::from_bits(pattern));
    let got = float(Bfloat16 { bits: pattern }.to_compute());
    assert!(got.to_bits() == want.to_bits() || got.is_nan() && want.is_nan());
  }
}

#[test]
fn equality_is_that_of_the_values() {
  assert_eq!(bits(0.0), bits(-0.0));
  assert_ne!(bits(f64::NAN), bits(f64::NAN));
  assert_ne!(bits(1.0), bits(-1.0));
  assert_eq!(bits(f64::INFINITY), bits(f64::INFINITY));
  assert_ne!(bits(f64::INFINITY), bits(f64::NEG_INFINITY));
  let narrow = |x: f32| Binary32::from_bits(x.to_bits());
  assert_eq!(narrow(0.0), narrow(-0.0));
  assert_ne!(narrow(f32::NAN), narrow(f32::NAN));
  assert_ne!(narrow(1.0), narrow(2.0));
  for (a, b) in [(0x0000, 0x8000), (0x7e00, 0x7e00), (0x3c00, 0x3c00), (0x3c00, 0xbc00)] {
    assert_eq!(
      Binary16 { bits: a } == Binary16 { bits: b },
      half::f16::from_bits(a) == half::f16::from_bits(b)
    );
    assert_eq!(
      Bfloat16 { bits: a } == Bfloat16 { bits: b },
      half::bf16::from_bits(a) == half::bf16::from_bits(b)
    );
  }
}
