use windit::binary::{Binary32, Binary64};

fn bits(x: f64) -> Binary64 {
  Binary64::from_bits(x.to_bits())
}

/// Whether the pattern is the float's, where any pattern stands for what is not a number.
fn same(got: Binary64, want: f64) -> bool {
  got.to_bits() == want.to_bits() || got.is_nan() && want.is_nan()
}

/// A stream of bit patterns.
struct Patterns(u64);

impl Patterns {
  fn next(&mut self) -> u64 {
    self.0 ^= self.0 << 13;
    self.0 ^= self.0 >> 7;
    self.0 ^= self.0 << 17;
    self.0
  }

  /// A value with an exponent near that of one, so that sums interact.
  fn near_one(&mut self) -> f64 {
    let p = self.next();
    let exponent = 1023 - 60 + (self.next() % 120);
    f64::from_bits((p & 0x800f_ffff_ffff_ffff) | (exponent << 52))
  }
}

fn specials() -> Vec<f64> {
  vec![
    0.0,
    -0.0,
    1.0,
    -1.0,
    1.5,
    f64::from_bits(1),
    -f64::from_bits(1),
    f64::from_bits(3),
    f64::from_bits(0x000f_ffff_ffff_ffff),
    f64::MIN_POSITIVE,
    -f64::MIN_POSITIVE,
    f64::MAX,
    f64::MIN,
    f64::EPSILON,
    f64::INFINITY,
    f64::NEG_INFINITY,
    f64::NAN,
    2.0f64.powi(-537),
    2.0f64.powi(-538),
    1.0 + f64::EPSILON,
    1.0 - f64::EPSILON / 2.0,
    0.1,
    3.0,
  ]
}

fn check(x: f64, y: f64) {
  let (a, b) = (bits(x), bits(y));
  assert!(same(a.plus(b), x + y), "{x:e} + {y:e}");
  assert!(same(a.minus(b), x - y), "{x:e} - {y:e}");
  assert!(same(a.times(b), x * y), "{x:e} * {y:e}");
  assert!(same(a.over(b), x / y), "{x:e} / {y:e}");
  assert_eq!(a.at_least(b), x >= y);
  assert_eq!(a.below(b), x < y);
}

fn check_one(x: f64) {
  let a = bits(x);
  assert!(same(a.root(), x.sqrt()), "root of {x:e}");
  assert!(same(a.absolute(), x.abs()));
  assert!(same(a.negated(), -x));
  for n in [-2200, -1100, -1074, -1022, -53, -1, 0, 1, 52, 1000, 2100, i32::MIN, i32::MAX] {
    assert!(same(a.scaled(n), libm::ldexp(x, n)), "{x:e} * 2^{n}");
  }
  assert_eq!(a.exponent(), libm::frexp(x).1 - 1, "exponent of {x:e}");
}

#[test]
fn special_values_follow_the_hardware() {
  for x in specials() {
    check_one(x);
    for y in specials() {
      check(x, y);
    }
  }
}

#[test]
fn arbitrary_patterns_follow_the_hardware() {
  let mut patterns = Patterns(0x9e37_79b9_7f4a_7c15);
  for _ in 0..20_000 {
    let x = f64::from_bits(patterns.next());
    let y = f64::from_bits(patterns.next());
    check(x, y);
    check_one(x);
  }
}

#[test]
fn close_exponents_follow_the_hardware() {
  let mut patterns = Patterns(0x0123_4567_89ab_cdef);
  for _ in 0..20_000 {
    let x = patterns.near_one();
    let y = patterns.near_one();
    check(x, y);
  }
}

#[test]
fn subnormals_follow_the_hardware() {
  let mut patterns = Patterns(0xfeed_beef_dead_cafe);
  for _ in 0..10_000 {
    let x = f64::from_bits(patterns.next() & 0x801f_ffff_ffff_ffff);
    let y = f64::from_bits(patterns.next() & 0x800f_ffff_ffff_ffff);
    check(x, y);
    check_one(x);
    let z = patterns.near_one();
    check(x, z);
  }
}

#[test]
fn counts_round_to_nearest() {
  for n in [0u64, 1, 2, 3, (1 << 53) - 1, 1 << 53, (1 << 53) + 1, (1 << 53) + 3, u64::MAX] {
    assert_eq!(Binary64::from_u64(n).to_bits(), (n as f64).to_bits());
  }
}

#[test]
fn binary32_widens_exactly() {
  let mut patterns = Patterns(0x0bad_5eed_0bad_5eed);
  for _ in 0..20_000 {
    let p = patterns.next() as u32;
    let want = f64::from(f32::from_bits(p));
    assert!(same(Binary32::from_bits(p).widened(), want));
  }
  for x in [0.0f32, -0.0, 1.0, f32::MAX, f32::MIN_POSITIVE, f32::from_bits(1), f32::INFINITY, f32::NAN] {
    assert!(same(Binary32::from_bits(x.to_bits()).widened(), f64::from(x)));
  }
}

#[test]
fn known_results_are_exact() {
  assert_eq!(bits(2.0).root().to_bits(), 0x3ff6_a09e_667f_3bcd);
  assert_eq!(bits(1.0).over(bits(3.0)).to_bits(), 0x3fd5_5555_5555_5555);
  assert_eq!(bits(0.1).plus(bits(0.2)).to_bits(), 0.30000000000000004f64.to_bits());
  assert_eq!(bits(0.1).times(bits(0.1)).to_bits(), 0.010000000000000002f64.to_bits());
}
