use half::{bf16, f16};
use windit::aggregate::drive::{combine, push_components, push_coverages};
use windit::aggregate::fold::{weighted_sum_renorm, Weighting};
use windit::aggregate::norm;
use windit::aggregate::policy::{self, MIN_NORMAL_EXPONENT};
use windit::aggregate::{
    aggregate, keep_separate, AggregatePolicy, AggregatePolicyKind, CoverageWeightedMean,
    EmaRenormalized, MeanRenormalized, SaliencyWeighted,
};
use windit::binary::{Binary32, Binary64};
use windit::plan::Span;
use windit::scalar::{Real, Scalar};
use windit::widen::{Bfloat16, Binary16};
use windit::windowed::{Vector, WindowEmbedding, Windowed};
use windit::WinditError;

/// The bit pattern of a float.
fn bits(x: f64) -> Binary64 {
  Binary64::from_bits(x.to_bits())
}

/// The float of a bit pattern.
fn float(x: Binary64) -> f64 {
  f64::from_bits(x.to_bits())
}

fn all_bits(v: &[f64]) -> Vec<Binary64> {
  v.iter().map(|&x| bits(x)).collect()
}

fn all_floats(v: &[Binary64]) -> Vec<f64> {
  v.iter().map(|&x| float(x)).collect()
}

fn ema(alpha: f64) -> EmaRenormalized<Binary64> {
  EmaRenormalized::new(bits(alpha))
}

/// A policy over floats.
trait Fold {
  fn fold(&self, embeddings: &[&[f64]], coverages: &[f64], dim: usize)
    -> Result<Vec<f64>, WinditError>;
}

impl<P: AggregatePolicy<Binary64> + ?Sized> Fold for P {
  fn fold(
    &self,
    embeddings: &[&[f64]],
    coverages: &[f64],
    dim: usize,
  ) -> Result<Vec<f64>, WinditError> {
    let owned: Vec<Vec<Binary64>> = embeddings.iter().map(|e| all_bits(e)).collect();
    let slices: Vec<&[Binary64]> = owned.iter().map(|e| e.as_slice()).collect();
    let out = self.aggregate_values(&slices, &all_bits(coverages), dim)?;
    Ok(all_floats(&out))
  }
}

fn max_magnitude(v: &[f64]) -> f64 {
  float(norm::max_magnitude(&all_bits(v)))
}

fn normalizing_shift(coverages: &[f64], largest: f64) -> i32 {
  policy::normalizing_shift(&all_bits(coverages), bits(largest))
}

fn l2_renorm(v: &mut Vec<f64>) -> Result<(), WinditError> {
  let mut w = all_bits(v);
  norm::l2_renorm(&mut w)?;
  *v = all_floats(&w);
  Ok(())
}

fn exponent(x: f64) -> i32 {
  bits(x).exponent()
}

fn max_agg_magnitude() -> f64 {
  float(<Binary64 as Real>::max_agg_magnitude())
}

fn min_gate_threshold() -> f64 {
  float(<Binary64 as Real>::min_gate_threshold())
}

fn assert_close(got: &[f32], want: &[f32]) {
  assert_eq!(got.len(), want.len());
  for (g, w) in got.iter().zip(want) {
    assert!((g - w).abs() <= 1e-6, "{got:?} is not close to {want:?}");
  }
}

fn assert_close_f64(got: &[f64], want: &[f64]) {
  assert_eq!(got.len(), want.len());
  for (g, w) in got.iter().zip(want) {
    assert!((g - w).abs() <= 1e-12, "{got:?} is not close to {want:?}");
  }
}

/// An embedding stored in binary32, normalized.
#[derive(Clone, Debug)]
struct TestVec(Vec<Binary32>);

impl TestVec {
  fn floats(&self) -> Vec<f32> {
    self.0.iter().map(|x| f32::from_bits(x.to_bits())).collect()
  }
}

impl Vector for TestVec {
  type Scalar = Binary32;

  fn as_slice(&self) -> &[Binary32] {
    &self.0
  }

  fn from_unnormalized(raw: &[Binary64]) -> Result<Self, WinditError> {
    let floats = all_floats(raw);
    let norm = floats.iter().map(|x| x * x).sum::<f64>().sqrt();
    if !(norm > 0.0 && norm.is_finite()) {
      return Err(WinditError::NonFinite);
    }
    Ok(TestVec(floats.iter().map(|x| Binary32::from_bits(((x / norm) as f32).to_bits())).collect()))
  }
}

/// An embedding stored in binary64, which keeps what it is rebuilt from.
struct RawF64Emb {
  data: Vec<Binary64>,
  captured: Vec<f64>,
}

fn raw_emb(data: Vec<f64>) -> RawF64Emb {
  RawF64Emb { data: all_bits(&data), captured: Vec::new() }
}

impl Vector for RawF64Emb {
  type Scalar = Binary64;

  fn as_slice(&self) -> &[Binary64] {
    &self.data
  }

  fn from_unnormalized(raw: &[Binary64]) -> Result<Self, WinditError> {
    Ok(RawF64Emb { data: raw.to_vec(), captured: all_floats(raw) })
  }
}

/// A quantized embedding with its own scale and zero point.
struct QuantEmb {
  codes: Vec<i8>,
  scale: f64,
  zero_point: i8,
  captured: Vec<f64>,
}

impl Vector for QuantEmb {
  type Scalar = i8;

  fn as_slice(&self) -> &[i8] {
    &self.codes
  }

  fn compute_components(&self) -> Result<Vec<Binary64>, WinditError> {
    Ok(all_bits(&dequant(&self.codes, self.scale, self.zero_point)))
  }

  fn from_unnormalized(raw: &[Binary64]) -> Result<Self, WinditError> {
    Ok(QuantEmb { codes: Vec::new(), scale: 1.0, zero_point: 0, captured: all_floats(raw) })
  }
}

/// A quantized embedding that does not say what its codes mean.
struct BareI8Emb(Vec<i8>);

impl Vector for BareI8Emb {
  type Scalar = i8;

  fn as_slice(&self) -> &[i8] {
    &self.0
  }

  fn from_unnormalized(_raw: &[Binary64]) -> Result<Self, WinditError> {
    Ok(BareI8Emb(Vec::new()))
  }
}

/// A storage scalar with a fixed scale of `1/127`.
#[derive(Clone, Copy, Debug, Eq, PartialEq)]
struct TestQuant(i8);

impl Scalar for TestQuant {
  type Compute = Binary64;

  const TO_COMPUTE_IS_VALUE: bool = true;

  fn to_compute(self) -> Binary64 {
    bits(f64::from(self.0) / 127.0)
  }

  fn as_compute_slice(_v: &[Self]) -> Option<&[Binary64]> {
    None
  }
}

/// An embedding stored in [`TestQuant`], normalized.
struct TestQuantVec(Vec<TestQuant>);

impl Vector for TestQuantVec {
  type Scalar = TestQuant;

  fn as_slice(&self) -> &[TestQuant] {
    &self.0
  }

  fn from_unnormalized(raw: &[Binary64]) -> Result<Self, WinditError> {
    let floats = all_floats(raw);
    let norm = floats.iter().map(|x| x * x).sum::<f64>().sqrt();
    if !(norm > 0.0 && norm.is_finite()) {
      return Err(WinditError::NonFinite);
    }
    Ok(TestQuantVec(
      floats.iter().map(|x| TestQuant(libm::round(x / norm * 127.0) as i8)).collect(),
    ))
  }
}

/// An embedding stored in binary16.
struct HalfEmb {
  data: Vec<Binary16>,
  captured: Vec<f64>,
}

impl Vector for HalfEmb {
  type Scalar = Binary16;

  fn as_slice(&self) -> &[Binary16] {
    &self.data
  }

  fn from_unnormalized(raw: &[Binary64]) -> Result<Self, WinditError> {
    Ok(HalfEmb { data: Vec::new(), captured: all_floats(raw) })
  }
}

/// An embedding stored in bfloat16.
struct Bf16Emb {
  data: Vec<Bfloat16>,
  captured: Vec<f64>,
}

impl Vector for Bf16Emb {
  type Scalar = Bfloat16;

  fn as_slice(&self) -> &[Bfloat16] {
    &self.data
  }

  fn from_unnormalized(raw: &[Binary64]) -> Result<Self, WinditError> {
    Ok(Bf16Emb { data: Vec::new(), captured: all_floats(raw) })
  }
}

fn half_bits(x: f16) -> Binary16 {
  Binary16 { bits: x.to_bits() }
}

fn bf16_bits(x: bf16) -> Bfloat16 {
  Bfloat16 { bits: x.to_bits() }
}

/// Build a windowed embedding from a raw vector and a span with the given real
/// length and window size (so `coverage() == len / window`).
fn win(raw: &[f64], len: usize, window: usize) -> WindowEmbedding<TestVec> {
  Windowed::new(
    TestVec::from_unnormalized(&all_bits(raw)).unwrap(),
    Span::new(0, len, window),
  )
}

#[test]
fn coverage_weighted_mean_pinned() {
  let windows = [win(&[1.0, 0.0], 4, 4), win(&[0.0, 1.0], 2, 4)];
  let out = aggregate(&CoverageWeightedMean, &windows).unwrap();
  assert_close(&out.floats(), &[0.8944272, 0.4472136]);
}

#[test]
fn coverage_weighted_mean_f64_pinned() {
  let embeddings: [&[f64]; 2] = [&[1.0, 0.0], &[0.0, 1.0]];
  let coverages = [1.0, 0.5];
  let out = CoverageWeightedMean
    .fold(&embeddings, &coverages, 2)
    .unwrap();
  assert_close_f64(&out, &[0.894_427_190_999_915_9, 0.447_213_595_499_957_9]);

  let widened_f32 = f64::from(0.894_427_2_f32);
  let diff = (widened_f32 - 0.894_427_190_999_915_9_f64).abs();
  assert!(diff > 1e-12, "f32 precision must not satisfy the f64 pin");
}

#[test]
fn sub_ulp_coverages_reach_the_fold_as_distinct_weights() {
  let cov_a = float(Span::new(0, 8_388_607, 16_777_213).coverage());
  let cov_b = float(Span::new(0, 8_388_608, 16_777_215).coverage());

  let embeddings: [&[f64]; 2] = [&[1.0, 0.0], &[0.0, 1.0]];
  let out_a = CoverageWeightedMean
    .fold(&embeddings, &[1.0, cov_a], 2)
    .unwrap();
  let out_b = CoverageWeightedMean
    .fold(&embeddings, &[1.0, cov_b], 2)
    .unwrap();

  assert_ne!(
    out_a, out_b,
    "spans (len 8388607, window 16777213) and (len 8388608, window 16777215) \
     have true coverages 3.6e-15 apart, yet both folded at {cov_a:?} / {cov_b:?} \
     and produced one vector"
  );
  assert_ne!(
    cov_a, cov_b,
    "two window geometries 3.6e-15 apart in true coverage must not share a coverage"
  );

  let mk = |len, window| {
    [
      Windowed::new(
        raw_emb(vec![1.0, 0.0]),
        Span::new(0, 4, 4),
      ),
      Windowed::new(
        raw_emb(vec![0.0, 1.0]),
        Span::new(0, len, window),
      ),
    ]
  };
  let folded_a = aggregate(&CoverageWeightedMean, &mk(8_388_607, 16_777_213)).unwrap();
  let folded_b = aggregate(&CoverageWeightedMean, &mk(8_388_608, 16_777_215)).unwrap();
  assert_ne!(
    folded_a.captured, folded_b.captured,
    "`aggregate` must carry the distinction its spans hold"
  );
}

#[test]
fn coverage_weights_are_scale_invariant() {
  let one: [&[f64]; 1] = [&[1.0]];
  let at_one = CoverageWeightedMean.fold(&one, &[1.0], 1);
  let at_tiny = CoverageWeightedMean.fold(&one, &[libm::ldexp(1.0, -1001)], 1);
  assert_eq!(
    at_tiny.as_ref().ok(),
    at_one.as_ref().ok(),
    "one window's direction cannot depend on the scale of the single weight it \
     carries: at 1.0 {at_one:?}, at 2^-1001 {at_tiny:?}"
  );

  let embeddings: [&[f64]; 2] = [&[1.0, 0.0], &[0.0, 1.0]];
  let base = [1.0_f64, 0.5];
  let reference = CoverageWeightedMean
    .fold(&embeddings, &base, 2)
    .expect("the unscaled fold resolves");
  for exp in [0, -1001, -1073] {
    let factor = libm::ldexp(1.0, exp);
    let scaled = [base[0] * factor, base[1] * factor];
    assert_eq!(
      (scaled[0], scaled[1]),
      (factor, libm::ldexp(1.0, exp - 1)),
      "the scaling must be exact for this to be a statement about the fold"
    );
    let got = CoverageWeightedMean.fold(&embeddings, &scaled, 2);
    assert_eq!(
      got.as_ref().ok(),
      Some(&reference),
      "scaling every coverage by 2^{exp} changed the fold, got {got:?}"
    );
  }
  assert_eq!(
    libm::ldexp(1.0, -1074),
    f64::from_bits(1),
    "the last factor must reach the minimum f64 subnormal"
  );

  let exact_factor = 0.75_f64;
  let exactly_proportional = [base[0] * exact_factor, base[1] * exact_factor];
  assert_eq!(
    exactly_proportional,
    [0.75, 0.375],
    "both products must be exact for this to be a statement about the fold"
  );
  let got = CoverageWeightedMean.fold(&embeddings, &exactly_proportional, 2);
  assert_eq!(
    got.as_ref().ok(),
    Some(&reference),
    "scaling every coverage by an exactly representable {exact_factor} changed the fold, got {got:?}"
  );

  let ordinary = [1.0_f64, 0.1];
  let ordinary_reference = CoverageWeightedMean
    .fold(&embeddings, &ordinary, 2)
    .expect("the unscaled fold resolves");
  let ordinary_scaled = [ordinary[0] * 0.1, ordinary[1] * 0.1];
  assert_ne!(
    ordinary_scaled[1] / ordinary_scaled[0],
    ordinary[1] / ordinary[0],
    "this row is only evidence while the scaled slice is *not* proportional"
  );
  let got = CoverageWeightedMean
    .fold(&embeddings, &ordinary_scaled, 2)
    .expect("the scaled fold resolves too");
  assert_ne!(
    got, ordinary_reference,
    "an inexactly scaled slice is a different slice, and the bit-identical \
     contract must not be claimed for it"
  );
  assert_close_f64(&got, &ordinary_reference);

  let all_zero = CoverageWeightedMean.fold(&embeddings, &[0.0, 0.0], 2);
  assert!(
    matches!(all_zero, Err(WinditError::NonFinite)),
    "an all-zero coverage slice has no direction to report, got {all_zero:?}"
  );
}

#[test]
fn subnormal_coverage_ratios_do_not_fabricate_a_direction() {
  let eta = f64::from_bits(1);
  let coverages = [0.75, eta, 2.0 * eta];
  let embeddings: [&[f64]; 3] = [&[0.0], &[-libm::ldexp(1.0, 400)], &[libm::ldexp(1.0, 399)]];
  let got = CoverageWeightedMean.fold(&embeddings, &coverages, 1);
  assert!(
    matches!(got, Err(WinditError::NonFinite)),
    "an exactly cancelling in-domain fold has no direction, got {got:?}"
  );

  let two = libm::ldexp(1.0, 100);
  let orthogonal: [&[f64]; 3] = [&[0.0, 0.0], &[two, 0.0], &[0.0, two]];
  let want = MeanRenormalized
    .fold(&[&[1.0, 2.0]], &[1.0], 2)
    .expect("[1, 2] has a direction");
  let got = CoverageWeightedMean
    .fold(&orthogonal, &coverages, 2)
    .expect("two nonzero terms in one quadrant have a direction");
  assert_eq!(
    got, want,
    "the fold must point where the exact weighted sum does, not where the \
     rounded ratios do"
  );

  for k in 1..=8_u32 {
    let coverages = [0.75, eta, f64::from(k) * eta];
    let want = MeanRenormalized
      .fold(&[&[1.0, f64::from(k)]], &[1.0], 2)
      .expect("[1, k] has a direction");
    let got = CoverageWeightedMean
      .fold(&orthogonal, &coverages, 2)
      .expect("two nonzero terms in one quadrant have a direction");
    for (g, w) in got.iter().zip(&want) {
      let gap = if g > w { g - w } else { w - g };
      assert!(
        gap <= 4.0 * f64::EPSILON * w.abs(),
        "at k = {k} the fold must reach the direction of [1, {k}] to within the \
         rounding its weights carry: got {got:?}, want {want:?}"
      );
    }
  }

  let with_a_gap = [0.75, eta, 2.0 * eta, 0.0];
  let four: [&[f64]; 4] = [&[0.0, 0.0], &[two, 0.0], &[0.0, two], &[0.0, 0.0]];
  let got = CoverageWeightedMean
    .fold(&four, &with_a_gap, 2)
    .expect("the zero-coverage window drops out; the rest still has a direction");
  assert_eq!(
    got, want,
    "a zero coverage must not decide the lift for the weights that are ratios"
  );
}

#[test]
fn the_weight_lift_engages_only_below_the_normal_boundary() {
  assert_eq!(
    exponent(f64::MIN_POSITIVE),
    MIN_NORMAL_EXPONENT,
    "the boundary constant is the smallest normal f64's exponent, not a literal \
     that happens to look like one"
  );

  for exp in -1074..=0 {
    let coverages = [1.0, libm::ldexp(1.0, exp)];
    let shift = normalizing_shift(&coverages, 1.0);
    assert_eq!(
      shift == 0,
      exp >= MIN_NORMAL_EXPONENT,
      "at a weight of 2^{exp} the lift must engage if and only if that weight is \
       subnormal, got {shift}"
    );
    assert!(
      (0..=53).contains(&shift),
      "no in-domain slice can ask for a lift outside [0, 53], got {shift} at \
       2^{exp}"
    );
  }

  assert!(
    exponent(0.0) >= MIN_NORMAL_EXPONENT,
    "a quotient that underflowed to zero must not be read as a subnormal weight"
  );
  let out_of_domain = [1e300, f64::from_bits(1)];
  assert_eq!(
    f64::from_bits(1) / 1e300,
    0.0,
    "this row is only evidence while the quotient really does underflow"
  );
  assert_eq!(
    normalizing_shift(&out_of_domain, max_magnitude(&out_of_domain)),
    0,
    "no lift before the rejection"
  );
  assert!(matches!(
    CoverageWeightedMean.fold(&[&[1.0], &[1.0]], &out_of_domain, 1),
    Err(WinditError::CoverageOutOfRange { window: 0 })
  ));

  assert!(
    (libm::ldexp(1.0, 53) * max_agg_magnitude()).is_finite(),
    "the largest lift must leave the largest in-domain product representable"
  );

  for exp in [0, -1, -7, -52, -53, -400, -1000, -1021, -1022, -1074] {
    let largest = libm::ldexp(0.75, exp);
    for shift in [0, 1, 2, 52, 53] {
      assert_eq!(
        libm::ldexp(largest, shift) / largest,
        libm::ldexp(1.0, shift),
        "the largest weight must be exactly 2^{shift} at a largest coverage of \
         {largest:?}"
      );
    }
  }

  let eta = f64::from_bits(1);
  let rows: [(&[f64], i32); 7] = [
    (&[1.0, 0.5], 0),
    (&[1.0 / 3.0, 1.0], 0),
    (&[eta, 4.0 * eta], 0),
    (&[1.0, libm::ldexp(1.0, MIN_NORMAL_EXPONENT)], 0),
    (&[1.0, libm::ldexp(1.0, MIN_NORMAL_EXPONENT - 1)], 2),
    (&[0.75, eta, 2.0 * eta], 53),
    (&[0.0, 0.0], 0),
  ];
  for (coverages, want) in rows {
    let shift = normalizing_shift(coverages, max_magnitude(coverages));
    assert_eq!(shift, want, "wrong lift for {coverages:?}");
  }
}

fn unlifted(
  embeddings: &[&[f64]],
  coverages: &[f64],
  dim: usize,
) -> Result<Vec<f64>, WinditError> {
  let largest = max_magnitude(coverages);
  let weights: Vec<f64> = coverages
    .iter()
    .map(|c| if largest > 0.0 { c / largest } else { 0.0 })
    .collect();
  let owned: Vec<Vec<Binary64>> = embeddings.iter().map(|e| all_bits(e)).collect();
  let slices: Vec<&[Binary64]> = owned.iter().map(|e| e.as_slice()).collect();
  let weights = all_bits(&weights);
  let out = weighted_sum_renorm(
    &slices,
    &all_bits(coverages),
    dim,
    Weighting::Given(&weights),
    <Binary64 as Real>::zero(),
  )?;
  Ok(all_floats(&out))
}

#[test]
fn the_weight_lift_is_the_identity_on_every_synthetic_direct_api_slice() {
  let ratios: Vec<f64> = (1..=12)
    .map(|len| float(Span::new(0, len, 12).coverage()))
    .collect();
  let embeddings: [&[f64]; 4] = [&[1.0, 0.0], &[0.0, 1.0], &[0.6, 0.8], &[0.8, -0.6]];
  let mut folded = 0_u32;
  for &a in &ratios {
    for &b in &ratios {
      for &c in &ratios {
        for &d in &ratios {
          let coverages = [a, b, c, d];
          assert_eq!(
            normalizing_shift(&coverages, max_magnitude(&coverages)),
            0,
            "no plan-reachable slice engages the lift, {coverages:?} did"
          );
          let want = unlifted(&embeddings, &coverages, 2);
          let got = CoverageWeightedMean.fold(&embeddings, &coverages, 2);
          assert_eq!(
            got.as_ref().ok(),
            want.as_ref().ok(),
            "the lift moved a fold it does not engage on, at {coverages:?}"
          );
          folded += 1;
        }
      }
    }
  }
  assert_eq!(
    folded, 20736,
    "the sweep must cover every four-window combination"
  );

  let eta = f64::from_bits(1);
  let coverages = [0.75, eta, 2.0 * eta];
  let two = libm::ldexp(1.0, 100);
  let orthogonal: [&[f64]; 3] = [&[0.0, 0.0], &[two, 0.0], &[0.0, two]];
  let before = unlifted(&orthogonal, &coverages, 2).expect("the un-lifted fold answers");
  let after = CoverageWeightedMean
    .fold(&orthogonal, &coverages, 2)
    .expect("the lifted fold answers");
  assert_ne!(before, after, "the lift must engage somewhere");
  let want = MeanRenormalized
    .fold(&[&[1.0, 2.0]], &[1.0], 2)
    .expect("[1, 2] has a direction");
  assert_eq!(after, want, "and where it engages it must be right");
}

#[test]
fn normalized_weights_leave_the_common_geometries_where_they_were() {
  let raw: [&[f64]; 1] = [&[3.0, 4.0]];
  let reference = MeanRenormalized
    .fold(&raw, &[1.0], 2)
    .expect("one window has a direction");
  assert_eq!(reference, vec![0.6, 0.8], "the exact direction of [3, 4]");
  for len in 1..=3_usize {
    let coverage = float(Span::new(0, len, 3).coverage());
    let got = CoverageWeightedMean
      .fold(&raw, &[coverage], 2)
      .expect("one window has a direction at every coverage");
    assert_eq!(
      got, reference,
      "one window at coverage {coverage:?} must be its own direction"
    );
  }

  let four: [&[f64]; 4] = [&[1.0, 0.0], &[0.0, 1.0], &[0.6, 0.8], &[0.8, -0.6]];
  let coverages = [1.0, 1.0, 1.0, 1.0 / 3.0];
  let got = CoverageWeightedMean
    .fold(&four, &coverages, 2)
    .unwrap();
  let mut acc = [0.0_f64; 2];
  for (e, c) in four.iter().zip(coverages) {
    for (a, x) in acc.iter_mut().zip(e.iter()) {
      *a += c * x;
    }
  }
  let norm = libm::sqrt(acc[0] * acc[0] + acc[1] * acc[1]);
  assert_close_f64(&got, &[acc[0] / norm, acc[1] / norm]);
}

#[test]
fn the_divisor_is_the_largest_coverage() {
  let embeddings: [&[f64]; 2] = [&[1.0, 0.0], &[0.0, 1.0]];

  let got = CoverageWeightedMean
    .fold(&embeddings, &[0.0, 1.0], 2)
    .expect("a zero-coverage window drops out; the other still has a direction");
  assert_close_f64(&got, &[0.0, 1.0]);

  let got = CoverageWeightedMean
    .fold(&embeddings, &[f64::from_bits(1), 1.0], 2)
    .expect("no weight exceeds 1, so nothing here can leave the range");
  assert_close_f64(&got, &[0.0, 1.0]);
}

#[test]
fn ema_weights_are_the_split_the_recurrence_produces() {
  let alpha = 0.3_f64;
  let n = 4_usize;
  let basis: Vec<Vec<f64>> = (0..n)
    .map(|i| (0..n).map(|j| if i == j { 1.0 } else { 0.0 }).collect())
    .collect();
  let refs: Vec<&[f64]> = basis.iter().map(Vec::as_slice).collect();
  let coverages = vec![1.0; n];
  let got = ema(alpha)
    .fold(&refs, &coverages, n)
    .expect("a convex EMA over the basis has a direction");

  let split = ema_ladder(alpha, n);
  let mut uniform_alpha = split.clone();
  uniform_alpha[0] *= alpha;
  let mut want_split = split.clone();
  let mut want_uniform = uniform_alpha.clone();
  l2_renorm(&mut want_split).expect("the split weights have a direction");
  l2_renorm(&mut want_uniform).expect("the uniform-alpha weights have a direction");
  assert_close_f64(&got, &want_split);
  let gap = got[0] - want_uniform[0];
  assert!(
    gap > 0.1,
    "the displayed formula must be the one the fold uses: {got:?} against the \
     uniform-alpha {want_uniform:?}"
  );

  let sum = |w: &[f64]| w.iter().fold(0.0_f64, |a, x| a + x);
  for n in 2..=8 {
    assert_eq!(
      sum(&ema_ladder(0.5, n)),
      1.0,
      "a dyadic alpha keeps every weight exact"
    );
  }
  assert_eq!(
    sum(&ema_ladder(0.3, 3)),
    1.0,
    "and 0.3 survives to n = 3, which is how a partial check passes"
  );
  assert_ne!(
    sum(&ema_ladder(0.3, 4)),
    1.0,
    "but the materialized weights do not generally sum to one, and no part of \
     the policy needs them to"
  );
  assert_eq!(sum(&ema_ladder(0.3, 4)), 0.999_999_999_999_999_8);
}

fn two_product(a: f64, b: f64) -> (f64, f64) {
  let split = |x: f64| {
    let c = 134_217_729.0 * x;
    let hi = c - (c - x);
    (hi, x - hi)
  };
  let p = a * b;
  let (ah, al) = split(a);
  let (bh, bl) = split(b);
  (p, (((ah * bh - p) + ah * bl) + al * bh) + al * bl)
}

fn dd_complement(alpha: f64) -> (f64, f64) {
  let hi = 1.0 - alpha;
  (hi, (1.0 - hi) - alpha)
}

fn dd_power(bhi: f64, blo: f64, k: usize) -> (f64, f64) {
  let (mut hi, mut lo) = (1.0_f64, 0.0_f64);
  for _ in 0..k {
    let (p, e) = two_product(hi, bhi);
    let t = ((e + hi * blo) + lo * bhi) + lo * blo;
    let s = p + t;
    lo = (p - s) + t;
    hi = s;
  }
  (hi, lo)
}

fn ema_ladder(alpha: f64, n: usize) -> Vec<f64> {
  let complement = 1.0 - alpha;
  let mut w = vec![0.0; n];
  let mut power = 1.0;
  for i in (1..n).rev() {
    w[i] = alpha * power;
    power *= complement;
  }
  if n > 0 {
    w[0] = power;
  }
  w
}

fn ema_gate_ratio(weights: &[f64], components: &[f64]) -> f64 {
  let (mut acc, mut comp, mut mag) = (0.0_f64, 0.0_f64, 0.0_f64);
  for (w, e) in weights.iter().zip(components) {
    let term = w * e;
    let sum = acc + term;
    comp += if acc.abs() >= term.abs() {
      (acc - sum) + term
    } else {
      (term - sum) + acc
    };
    acc = sum;
    mag += term.abs();
  }
  acc += comp;
  (acc + 0.0).abs() / (16.0 * f64::EPSILON * mag + min_gate_threshold())
}

#[test]
fn ema_weight_error_accumulates_but_no_input_can_reach_the_gate() {
  assert_eq!(
    dd_complement(0.5),
    (0.5, 0.0),
    "a dyadic complement is exact"
  );
  let (dhi, dlo) = dd_power(0.5, 0.0, 40);
  assert_eq!(
    (dhi, dlo),
    (libm::ldexp(1.0, -40), 0.0),
    "and a dyadic power is exact, which is what pins the reference"
  );

  let n = 64_usize;
  let alpha = 0.46_f64;

  let basis: Vec<Vec<f64>> = (0..n)
    .map(|i| (0..n).map(|j| if i == j { 1.0 } else { 0.0 }).collect())
    .collect();
  let refs: Vec<&[f64]> = basis.iter().map(Vec::as_slice).collect();
  let folded = ema(alpha)
    .fold(&refs, &vec![1.0; n], n)
    .expect("a convex EMA over the basis has a direction");
  let mut replica = ema_ladder(alpha, n);
  l2_renorm(&mut replica).expect("the ladder has a direction");
  assert_eq!(
    folded, replica,
    "the replica must be the ladder the policy actually builds"
  );

  let (bhi, blo) = dd_complement(alpha);
  assert!(
    blo != 0.0,
    "1 - 0.46 is not an f64, and that rounding is the larger half of the error"
  );
  let w = ema_ladder(alpha, n);
  let mut worst = 0.0_f64;
  let mut worst_powi = 0.0_f64;
  for k in 0..n - 1 {
    let (hi, lo) = dd_power(bhi, blo, k);
    let (rhi, rlo) = (alpha * hi, alpha * lo);
    worst = worst.max((((w[n - 1 - k] - rhi) - rlo) / rhi).abs());
    let by_powi = alpha * (1.0 - alpha).powi(k as i32);
    worst_powi = worst_powi.max((((by_powi - rhi) - rlo) / rhi).abs());
  }
  let u = f64::EPSILON / 2.0;
  assert!(
    (58.0..60.0).contains(&(worst / u)),
    "repeated multiplication reaches tens of u by n = 64, got {} u",
    worst / u
  );

  assert!(
    (47.0..50.0).contains(&(worst_powi / u)),
    "powi is O(log k) roundings on top of the complement's, not one: {} u",
    worst_powi / u
  );
  assert!(
    worst / worst_powi > 1.20 && worst / worst_powi < 1.25,
    "so it improves the weights by about a fifth, not by a factor of k: {}x",
    worst / worst_powi
  );
  for k in [4_usize, 64, 199] {
    let (hi, lo) = dd_power(0.5, 0.0, k);
    assert_eq!(
      (ema_ladder(0.5, k + 2)[1], 0.0),
      (0.5 * hi, 0.5 * lo),
      "and at the dyadic alpha the chain is already exact, at k = {k}"
    );
  }

  let alpha = 0.625_f64;
  let b = 1.0 - alpha;
  assert_eq!(
    b, 0.375,
    "the complement must be exact, or the ideal is not b"
  );
  let (k1, d) = (651_usize, 33_usize);
  let n = k1 + d + 2;
  let c_lo = libm::ldexp(3.0_f64.powi(33), 300);
  assert_eq!(
    3.0_f64.powi(33),
    5_559_060_566_555_523.0,
    "3^33 must be an exact f64, or the lever is not exact"
  );
  let ratio = b.powi(d as i32);
  let c_hi = -c_lo / ratio;
  assert_eq!(
    c_lo + c_hi * ratio,
    0.0,
    "the ideal weighted sum must be exactly zero"
  );

  let w = ema_ladder(alpha, n);
  let (i1, i2) = (n - 1 - k1, n - 1 - (k1 + d));
  assert!(
    w[i1] >= f64::MIN_POSITIVE && w[i2] >= f64::MIN_POSITIVE,
    "both weights must be normal, or this is the underflow regime and not this \
     one: {:e}, {:e}",
    w[i1],
    w[i2]
  );
  let mut components = vec![0.0_f64; n];
  components[i1] = c_lo;
  components[i2] = c_hi;

  let ratio = ema_gate_ratio(&w, &components);
  assert!(
    (0.16..0.17).contains(&ratio),
    "the accumulated error's strongest reachable residue is a sixth of the \
     threshold, got {ratio}"
  );
  let lever: Vec<&[f64]> = components.iter().map(std::slice::from_ref).collect();
  let got = ema(alpha).fold(&lever, &vec![1.0; n], 1);
  assert!(
    matches!(got, Err(WinditError::NonFinite)),
    "an exactly cancelling in-domain fold has no direction, got {got:?}"
  );
}

#[test]
fn ema_alpha_range_is_rejected_at_f64() {
  let embeddings: [&[f64]; 2] = [&[1.0, 0.0], &[0.0, 1.0]];
  let coverages = [1.0, 1.0];
  assert!(matches!(
    ema(2.0).fold(&embeddings, &coverages, 2),
    Err(WinditError::AlphaOutOfRange)
  ));
  assert!(matches!(
    ema(-0.5).fold(&embeddings, &coverages, 2),
    Err(WinditError::AlphaOutOfRange)
  ));
  assert!(matches!(
    ema(f64::NAN).fold(&embeddings, &coverages, 2),
    Err(WinditError::AlphaOutOfRange)
  ));
  assert!(ema(0.5)
    .fold(&embeddings, &coverages, 2)
    .is_ok());
}

#[test]
fn ema_renormalized_carries_a_coefficient_no_f32_can_hold() {
  let two_m30 = libm::ldexp(1.0, -30);
  const ALPHA: f64 = 0.999_999_999_068_677_425_384_521_484_375; // 1 - 2^-30
  assert_eq!(ALPHA, 1.0 - two_m30, "the literal is exactly 1 - 2^-30");
  assert_eq!(
    ALPHA as f32, 1.0,
    "and no f32 is nearer to it than 1.0 itself"
  );
  assert_eq!(float(ema(ALPHA).alpha()), ALPHA, "and it is kept");

  let embeddings: [&[f64]; 3] = [&[0.0, 1.0], &[0.0, 1.0], &[1.0, 0.0]];
  let coverages = [1.0, 1.0, 1.0];
  let got = ema(ALPHA)
    .fold(&embeddings, &coverages, 2)
    .expect("in-domain fold");

  assert!(got[1] > 0.0, "the recency tail must survive: {got:?}");
  assert!(
    (got[1] / two_m30 - 1.0).abs() < 1e-8,
    "and it must be the coefficient's own 2^-30: {got:?}"
  );

  let collapsed = ema(1.0)
    .fold(&embeddings, &coverages, 2)
    .expect("in-domain fold");
  assert_eq!(
    collapsed,
    vec![1.0, 0.0],
    "at alpha = 1 the whole prefix is gone"
  );
}

#[test]
fn ema_renormalized_resolves_two_coefficients_the_f32_grid_merges() {
  let exact = 0.3_f64;
  let via_f32 = f64::from(0.3_f32);
  assert_ne!(exact, via_f32, "the two coefficients differ in f64");
  assert_eq!(exact as f32, via_f32 as f32, "and coincide in f32");

  let embeddings: [&[f64]; 4] = [&[1.0, 0.0], &[0.0, 1.0], &[1.0, 0.0], &[0.0, 1.0]];
  let coverages = [1.0; 4];
  let fold = |alpha: f64| {
    ema(alpha)
      .fold(&embeddings, &coverages, 2)
      .expect("in-domain fold")
  };
  let a = fold(exact);
  let b = fold(via_f32);
  assert_ne!(a, b, "two coefficients, two folds");
  let gap = (a[0] - b[0]).abs() / a[0];
  assert!(
    (1e-10..1e-7).contains(&gap),
    "the separation must be the coefficient's own, got {gap:e}"
  );
}

#[test]
fn quantized_storage_takes_widening_path() {
  let windows = [
    Windowed::new(
      TestQuantVec::from_unnormalized(&all_bits(&[1.0, 0.0])).unwrap(),
      Span::new(0, 4, 4),
    ),
    Windowed::new(
      TestQuantVec::from_unnormalized(&all_bits(&[0.0, 1.0])).unwrap(),
      Span::new(0, 2, 4),
    ),
  ];
  let out = aggregate(&CoverageWeightedMean, &windows).unwrap();
  assert_eq!(out.as_slice(), &[TestQuant(114), TestQuant(57)]);

  let f32_windows = [win(&[1.0, 0.0], 4, 4), win(&[0.0, 1.0], 2, 4)];
  let f32_out = aggregate(&CoverageWeightedMean, &f32_windows).unwrap();
  let requantized: Vec<TestQuant> = f32_out
    .floats()
    .iter()
    .map(|x| TestQuant(libm::roundf(x * 127.0) as i8))
    .collect();
  assert_eq!(out.as_slice(), requantized.as_slice());

  let cancelling = [
    Windowed::new(
      TestQuantVec::from_unnormalized(&all_bits(&[1.0, 0.0])).unwrap(),
      Span::new(0, 4, 4),
    ),
    Windowed::new(
      TestQuantVec::from_unnormalized(&all_bits(&[-1.0, 0.0])).unwrap(),
      Span::new(0, 4, 4),
    ),
  ];
  assert!(matches!(
    aggregate(&CoverageWeightedMean, &cancelling),
    Err(WinditError::NonFinite)
  ));
}

#[test]
fn mean_renormalized_equals_coverage_when_all_full() {
  let windows = [win(&[1.0, 0.0], 4, 4), win(&[0.0, 1.0], 4, 4)];
  let cov = aggregate(&CoverageWeightedMean, &windows).unwrap();
  let mean = aggregate(&MeanRenormalized, &windows).unwrap();
  assert_close(&cov.floats(), &mean.floats());
  assert_close(&cov.floats(), &[0.70710677, 0.70710677]);
}

#[test]
fn saliency_weights_higher_norm_more() {
  let embeddings: [&[f64]; 2] = [&[3.0, 0.0], &[0.0, 1.0]];
  let coverages = [1.0, 1.0];
  let sal = SaliencyWeighted
    .fold(&embeddings, &coverages, 2)
    .unwrap();
  assert_close_f64(&sal, &[0.993_883_734_673_618_8, 0.110_431_526_074_846_53]);

  let mean = MeanRenormalized
    .fold(&embeddings, &coverages, 2)
    .unwrap();
  assert!(
    sal[0] > mean[0],
    "saliency should pull harder toward the high-norm vector"
  );
}

#[test]
fn ema_renormalized_recency() {
  let coverages = [1.0, 1.0, 1.0];
  let fwd: [&[f64]; 3] = [&[1.0, 0.0, 0.0], &[0.0, 1.0, 0.0], &[0.0, 0.0, 1.0]];
  let out = ema(0.5)
    .fold(&fwd, &coverages, 3)
    .unwrap();
  assert_close_f64(
    &out,
    &[
      0.408_248_290_463_863_1,
      0.408_248_290_463_863_1,
      0.816_496_580_927_726_1,
    ],
  );

  let rev: [&[f64]; 3] = [&[0.0, 0.0, 1.0], &[0.0, 1.0, 0.0], &[1.0, 0.0, 0.0]];
  let out_rev = ema(0.5)
    .fold(&rev, &coverages, 3)
    .unwrap();
  assert_close_f64(
    &out_rev,
    &[
      0.816_496_580_927_726_1,
      0.408_248_290_463_863_1,
      0.408_248_290_463_863_1,
    ],
  );
}

#[test]
fn ema_renormalized_rejects_out_of_range_alpha() {
  let embeddings: [&[f64]; 2] = [&[1.0, 0.0], &[0.0, 1.0]];
  let coverages = [1.0, 1.0];
  assert!(matches!(
    ema(2.0).fold(&embeddings, &coverages, 2),
    Err(WinditError::AlphaOutOfRange)
  ));
  assert!(matches!(
    ema(-0.5).fold(&embeddings, &coverages, 2),
    Err(WinditError::AlphaOutOfRange)
  ));
  assert!(matches!(
    ema(f64::NAN).fold(&embeddings, &coverages, 2),
    Err(WinditError::AlphaOutOfRange)
  ));
  assert!(ema(0.0)
    .fold(&embeddings, &coverages, 2)
    .is_ok());
  assert!(ema(1.0)
    .fold(&embeddings, &coverages, 2)
    .is_ok());
}

type PolicyRun = fn(&[&[f64]], &[f64], usize) -> Result<Vec<f64>, WinditError>;

fn builtin_policies() -> [(&'static str, PolicyRun); 4] {
  [
    ("MeanRenormalized", |e, c, d| {
      MeanRenormalized.fold(e, c, d)
    }),
    ("CoverageWeightedMean", |e, c, d| {
      CoverageWeightedMean.fold(e, c, d)
    }),
    ("EmaRenormalized", |e, c, d| {
      ema(0.5).fold(e, c, d)
    }),
    ("SaliencyWeighted", |e, c, d| {
      SaliencyWeighted.fold(e, c, d)
    }),
  ]
}

#[test]
fn every_builtin_policy_normalizes_f32_range_vectors() {
  let coverages = [1.0];
  for (raw, want) in [
    ([3e38_f64, 3e38], [std::f64::consts::FRAC_1_SQRT_2; 2]),
    ([1e20, 0.0], [1.0, 0.0]),
    ([f64::from(f32::MAX), 0.0], [1.0, 0.0]),
    ([1e-30, 0.0], [1.0, 0.0]),
    ([f64::from(f32::from_bits(1)), 0.0], [1.0, 0.0]),
  ] {
    let embeddings: [&[f64]; 1] = [&raw];
    for (name, run) in builtin_policies() {
      let got = run(&embeddings, &coverages, 2)
        .unwrap_or_else(|e| panic!("{name} rejected the finite vector {raw:?}: {e:?}"));
      assert_close_f64(&got, &want);
    }
  }
}

#[test]
fn linear_policies_normalize_f64_range_vectors() {
  let coverages = [1.0];
  let linear: [(&str, PolicyRun); 3] = [
    ("MeanRenormalized", |e, c, d| {
      MeanRenormalized.fold(e, c, d)
    }),
    ("CoverageWeightedMean", |e, c, d| {
      CoverageWeightedMean.fold(e, c, d)
    }),
    ("EmaRenormalized", |e, c, d| {
      ema(0.5).fold(e, c, d)
    }),
  ];
  for raw in [
    [1.5e308_f64, 1.5e308],
    [1e200, 0.0],
    [f64::MAX, 0.0],
    [1e-300, 0.0],
    [f64::from_bits(1), 0.0],
  ] {
    let embeddings: [&[f64]; 1] = [&raw];
    for (name, run) in linear {
      let got = run(&embeddings, &coverages, 2);
      assert!(
        matches!(got, Err(WinditError::MagnitudeOutOfRange { .. })),
        "{name} must reject out-of-domain {raw:?}, got {got:?}"
      );
    }
  }
}

#[test]
fn saliency_normalizes_within_its_f64_magnitude_window() {
  for raw in [[1e150_f64, 0.0], [1e-150, 0.0], [1e200, 0.0], [1e-200, 0.0]] {
    let embeddings: [&[f64]; 1] = [&raw];
    assert!(
      matches!(
        SaliencyWeighted.fold(&embeddings, &[1.0], 2),
        Err(WinditError::MagnitudeOutOfRange { .. })
      ),
      "SaliencyWeighted must reject out-of-domain {raw:?}"
    );
  }

  let in_domain: [&[f64]; 1] = [&[1e100, 1e100]];
  let got = SaliencyWeighted
    .fold(&in_domain, &[1.0], 2)
    .unwrap();
  assert_close_f64(&got, &[std::f64::consts::FRAC_1_SQRT_2; 2]);
}

#[test]
fn every_builtin_policy_normalizes_f32_range_sequences() {
  let coverages = [1.0, 1.0];
  for raw in [
    [[3e38_f64, 0.0], [3e38, 0.0]],
    [[f64::from(f32::MAX), 0.0], [f64::from(f32::MAX), 0.0]],
    [[1e-30, 0.0], [1e-30, 0.0]],
    [
      [f64::from(f32::from_bits(1)), 0.0],
      [f64::from(f32::from_bits(1)), 0.0],
    ],
  ] {
    let embeddings: [&[f64]; 2] = [&raw[0], &raw[1]];
    for (name, run) in builtin_policies() {
      let got = run(&embeddings, &coverages, 2)
        .unwrap_or_else(|e| panic!("{name} rejected the finite sequence {raw:?}: {e:?}"));
      assert_close_f64(&got, &[1.0, 0.0]);
    }
  }
}

#[test]
fn non_normalizable_vectors_are_rejected() {
  let coverages = [1.0];
  let zero: [&[f64]; 1] = [&[0.0, 0.0]];
  assert!(matches!(
    MeanRenormalized.fold(&zero, &coverages, 2),
    Err(WinditError::NonFinite)
  ));
  let nan: [&[f64]; 1] = [&[f64::NAN, 1.0]];
  assert!(matches!(
    MeanRenormalized.fold(&nan, &coverages, 2),
    Err(WinditError::NonFinite)
  ));
  let inf: [&[f64]; 1] = [&[f64::INFINITY, 1.0]];
  assert!(matches!(
    MeanRenormalized.fold(&inf, &coverages, 2),
    Err(WinditError::NonFinite)
  ));
}

#[test]
fn saliency_magnitude_weights_survive_their_own_scale() {
  let embeddings: [&[f64]; 2] = [&[1e20, 0.0], &[0.0, 1e20]];
  let out = SaliencyWeighted
    .fold(&embeddings, &[1.0, 1.0], 2)
    .unwrap();
  assert_close_f64(&out, &[std::f64::consts::FRAC_1_SQRT_2; 2]);

  let unit: [&[f64]; 2] = [&[1.0, 0.0], &[0.0, 1.0]];
  let mean = MeanRenormalized
    .fold(&unit, &[1.0, 1.0], 2)
    .unwrap();
  assert_close_f64(&out, &mean);

  let uneven: [&[f64]; 2] = [&[1e20, 0.0], &[0.0, 1e10]];
  let skewed = SaliencyWeighted
    .fold(&uneven, &[1.0, 1.0], 2)
    .unwrap();
  assert!(
    skewed[0] > 0.999_999 && skewed[1] > 0.0,
    "the 1e20 input must dominate without erasing the 1e10 one, got {skewed:?}"
  );
}

#[test]
fn saliency_ranks_by_magnitude_across_a_wide_range() {
  let embeddings: [&[f64]; 2] = [&[3e38, 0.0], &[0.0, 1e-38]];
  let out = SaliencyWeighted
    .fold(&embeddings, &[1.0, 1.0], 2)
    .unwrap();
  assert!(
    out[0] > 0.999_999 && out[1] >= 0.0,
    "the 3e38 window must dominate, got {out:?}"
  );

  let flipped: [&[f64]; 2] = [&[1e-38, 0.0], &[0.0, 3e38]];
  let out_flipped = SaliencyWeighted
    .fold(&flipped, &[1.0, 1.0], 2)
    .unwrap();
  assert!(
    out_flipped[1] > 0.999_999 && out_flipped[0] >= 0.0,
    "the 3e38 window must dominate, got {out_flipped:?}"
  );
}

#[test]
fn normal_magnitude_normalization_is_within_one_ulp_and_no_worse_than_naive() {
  let raw = [0.6_f64, 0.8, 0.1, 3.0, -2.5];
  let mut naive_ss = 0.0_f64;
  for x in raw {
    naive_ss += x * x;
  }
  let naive_norm = libm::sqrt(naive_ss);
  let naive: Vec<f64> = raw.iter().map(|x| x / naive_norm).collect();

  let embeddings: [&[f64]; 1] = [&raw];
  let got = MeanRenormalized
    .fold(&embeddings, &[1.0], 5)
    .unwrap();
  for (g, n) in got.iter().zip(&naive) {
    assert!(
      (g - n).abs() <= f64::EPSILON * n.abs(),
      "scale-aware {g} is more than one ulp from the naive fold {n}"
    );
  }
  let out_norm = libm::sqrt(got.iter().map(|x| x * x).sum::<f64>());
  assert!(
    (out_norm - 1.0).abs() < 1e-15,
    "expected a unit vector, got norm {out_norm}"
  );

  let cov = CoverageWeightedMean
    .fold(&embeddings, &[1.0], 5)
    .unwrap();
  assert_eq!(cov, got);
}

fn recur(a: &mut [usize], k: usize, out: &mut Vec<Vec<usize>>) {
  if k == 1 {
    out.push(a.to_vec());
    return;
  }
  for i in 0..k {
    recur(a, k - 1, out);
    if k % 2 == 0 {
      a.swap(i, k - 1);
    } else {
      a.swap(0, k - 1);
    }
  }
}

fn permutations(n: usize) -> Vec<Vec<usize>> {
  let mut a: Vec<usize> = (0..n).collect();
  let mut out = Vec::new();
  recur(&mut a, n, &mut out);
  out
}

#[test]
fn exact_cancellation_is_rejected() {
  let raw = [
    94.0_f64 / 512.0,
    2592.0 / 512.0,
    113.0 / 512.0,
    -2799.0 / 512.0,
  ];
  let coverages = [1.0_f64; 4];
  for order in permutations(4) {
    let cols = [
      [raw[order[0]]],
      [raw[order[1]]],
      [raw[order[2]]],
      [raw[order[3]]],
    ];
    let embeddings: [&[f64]; 4] = [&cols[0], &cols[1], &cols[2], &cols[3]];
    let mean = MeanRenormalized.fold(&embeddings, &coverages, 1);
    assert!(
      matches!(mean, Err(WinditError::NonFinite)),
      "MeanRenormalized at order {order:?} must reject exact cancellation, got {mean:?}"
    );
    let cov = CoverageWeightedMean.fold(&embeddings, &coverages, 1);
    assert!(
      matches!(cov, Err(WinditError::NonFinite)),
      "CoverageWeightedMean at order {order:?} must reject exact cancellation, got {cov:?}"
    );
  }
}

fn assert_wide_spread_cancellation_rejected(e: f64, d: f64, domain_rejected: bool) {
  let de = d * e; // exact: the tiny term that rides on `e`
  let values = [e, -e, 48.0 * de, -32.0 * de, -16.0 * de];
  let coverages = [1.0_f64; 5];
  for order in permutations(5) {
    let cols: Vec<[f64; 1]> = order.iter().map(|&i| [values[i]]).collect();
    let embeddings: Vec<&[f64]> = cols.iter().map(|c| c.as_slice()).collect();
    for (name, got) in [
      (
        "MeanRenormalized",
        MeanRenormalized.fold(&embeddings, &coverages, 1),
      ),
      (
        "CoverageWeightedMean",
        CoverageWeightedMean.fold(&embeddings, &coverages, 1),
      ),
    ] {
      let rejected = if domain_rejected {
        matches!(got, Err(WinditError::MagnitudeOutOfRange { .. }))
      } else {
        matches!(got, Err(WinditError::NonFinite))
      };
      assert!(
        rejected,
        "{name} order {order:?} at e={e:e} d={d:e} must reject cancellation, got {got:?}"
      );
    }
  }
}

#[test]
fn wide_spread_cancellation_rejected_at_f32_scale() {
  assert_wide_spread_cancellation_rejected(
    f64::from(f32::from_bits(0x7f00_0000)), // 2^127
    f64::from(f32::from_bits(1)),           // 2^-149
    false,                                  // in-domain: rejected as directionless
  );
}

#[test]
fn wide_spread_cancellation_rejected_at_f64_scale() {
  assert_wide_spread_cancellation_rejected(
    f64::from_bits(0x7fe0_0000_0000_0000), // 2^1023
    f64::from_bits(1),                     // 2^-1074
    true,                                  // out-of-domain: rejected by the input check
  );
}

#[test]
fn ema_subnormal_survives_at_f32_scale() {
  let d = f64::from(f32::from_bits(1)); // 2^-149
  for windows in [[[1.0, d], [-1.0, d]], [[-1.0, d], [1.0, d]]] {
    let embeddings: [&[f64]; 2] = [&windows[0], &windows[1]];
    let got = ema(0.5).fold(&embeddings, &[1.0, 1.0], 2);
    assert!(
      matches!(got, Err(WinditError::NonFinite)),
      "an in-domain subnormal below the floor must be NonFinite, got {got:?}"
    );
  }
}

#[test]
fn ema_subnormal_survives_without_cancellation_at_f32_scale() {
  let d = f64::from(f32::from_bits(1)); // 2^-149
  let windows: [&[f64]; 2] = [&[d, 2.0 * d], &[d, 2.0 * d]];
  let out = ema(0.5)
    .fold(&windows, &[1.0, 1.0], 2)
    .unwrap();
  assert_close_f64(&out, &[0.447_213_595_499_957_9, 0.894_427_190_999_915_9]);
}

#[test]
fn exact_cancellation_across_three_tiers_is_gated() {
  let a = f64::from_bits(0x3c30_0000_0000_0000); // 2^-60
  let d = 3.0 * f64::from_bits(0x3870_0000_0000_0000); // 3 * 2^-120
  let windows = [
    [a, 1.0],
    [-d, 1.0],
    [-1.0, 0.0],
    [-a, -1.0],
    [d, -1.0],
    [1.0, 0.0],
  ];
  let coverages = [1.0_f64; 6];
  let mut orders = 0;
  for order in permutations(6) {
    orders += 1;
    let cols: Vec<[f64; 2]> = order.iter().map(|&i| windows[i]).collect();
    let embeddings: Vec<&[f64]> = cols.iter().map(|c| c.as_slice()).collect();
    for (name, got) in [
      (
        "MeanRenormalized",
        MeanRenormalized.fold(&embeddings, &coverages, 2),
      ),
      (
        "CoverageWeightedMean",
        CoverageWeightedMean.fold(&embeddings, &coverages, 2),
      ),
    ] {
      assert!(
        matches!(got, Err(WinditError::NonFinite)),
        "{name} order {order:?} must refuse the cancelling sum, got {got:?}"
      );
    }
  }
  assert_eq!(orders, 720, "every permutation must be checked");
}

#[test]
fn determinacy_gate_rejects_opposite_units_and_admits_a_real_residual() {
  let opposite: [&[f64]; 2] = [&[1.0, 0.0], &[-1.0, 0.0]];
  for (name, got) in [
    (
      "MeanRenormalized",
      MeanRenormalized.fold(&opposite, &[1.0, 1.0], 2),
    ),
    (
      "CoverageWeightedMean",
      CoverageWeightedMean.fold(&opposite, &[1.0, 1.0], 2),
    ),
  ] {
    assert!(
      matches!(got, Err(WinditError::NonFinite)),
      "{name} must refuse exactly-opposite units, got {got:?}"
    );
  }

  let near: [&[f64]; 2] = [&[1.0, 0.0], &[-1.0, 1e-8]];
  let out = MeanRenormalized
    .fold(&near, &[1.0, 1.0], 2)
    .unwrap();
  assert_close_f64(&out, &[0.0, 1.0]);
}

#[test]
fn ema_subnormal_product_cancellation_family_a_is_gated() {
  let two_m40 = libm::ldexp(1.0, -40);
  let e1 = libm::ldexp(1.0 + 19600.0 * two_m40, -350);
  let e2 = libm::ldexp(1.0 + 9800.0 * two_m40, -350);
  let e0 = -(e1 + 2.0 * e2);
  let mut cols: Vec<[f64; 2]> = vec![[e0, 0.0], [e1, 0.0], [e2, 0.0]];
  cols.resize(700, [0.0, 0.0]);
  let embeddings: Vec<&[f64]> = cols.iter().map(|c| c.as_slice()).collect();
  let coverages = vec![1.0_f64; 700];
  let got = ema(0.5).fold(&embeddings, &coverages, 2);
  assert!(
    matches!(got, Err(WinditError::NonFinite)),
    "family A exact cancellation must be refused, got {got:?}"
  );
}

#[test]
fn ema_subnormal_product_cancellation_family_b_is_gated() {
  let alpha = 255.0 / 256.0; // 0.996_093_75
  let two_m30 = libm::ldexp(1.0, -30);
  let e1 = libm::ldexp(1.0 + 7.0 * two_m30, -392);
  let e2 = libm::ldexp(1.0 + 9.0 * two_m30, -392);
  let e0 = -255.0 * (e1 + 256.0 * e2);
  let mut cols: Vec<[f64; 2]> = vec![[e0, 0.0], [e1, 0.0], [e2, 0.0]];
  cols.resize(84, [0.0, 0.0]);
  let embeddings: Vec<&[f64]> = cols.iter().map(|c| c.as_slice()).collect();
  let coverages = vec![1.0_f64; 84];
  let got = ema(alpha).fold(&embeddings, &coverages, 2);
  assert!(
    matches!(got, Err(WinditError::NonFinite)),
    "family B exact cancellation must be refused, got {got:?}"
  );
}

#[test]
fn ema_single_subnormal_product_term_is_gated() {
  let e = (libm::ldexp(1.0, 53) - 1.0) * libm::ldexp(1.0, -423); // (2^53 - 1) * 2^-423 ~ 2^-370
  let mut cols: Vec<[f64; 2]> = vec![[e, 0.0]];
  cols.resize(701, [0.0, 0.0]);
  let embeddings: Vec<&[f64]> = cols.iter().map(|c| c.as_slice()).collect();
  let coverages = vec![1.0_f64; 701];
  let got = ema(0.5).fold(&embeddings, &coverages, 2);
  assert!(
    matches!(got, Err(WinditError::NonFinite)),
    "a single in-domain subnormal-product term must be refused, got {got:?}"
  );
}

#[test]
fn determinacy_gate_floor_boundary_is_monotone() {
  let above = libm::ldexp(1.0, -390);
  let mut cols_above: Vec<[f64; 2]> = vec![[above, 2.0 * above]];
  cols_above.resize(606, [0.0, 0.0]);
  let e_above: Vec<&[f64]> = cols_above.iter().map(|c| c.as_slice()).collect();
  let out = ema(0.5)
    .fold(&e_above, &vec![1.0_f64; 606], 2)
    .unwrap();
  assert_close_f64(&out, &[0.447_213_595_499_957_9, 0.894_427_190_999_915_9]);

  let below = libm::ldexp(1.0, -400);
  let mut cols_below: Vec<[f64; 2]> = vec![[below, 2.0 * below]];
  cols_below.resize(606, [0.0, 0.0]);
  let e_below: Vec<&[f64]> = cols_below.iter().map(|c| c.as_slice()).collect();
  let got = ema(0.5).fold(&e_below, &vec![1.0_f64; 606], 2);
  assert!(
    matches!(got, Err(WinditError::NonFinite)),
    "sub-floor mass must be NonFinite, got {got:?}"
  );
}

#[test]
fn ema_subnormal_survives_at_f64_scale() {
  let d = f64::from_bits(2); // 2^-1073
  for windows in [[[1.0, d], [-1.0, d]], [[-1.0, d], [1.0, d]]] {
    let embeddings: [&[f64]; 2] = [&windows[0], &windows[1]];
    let got = ema(0.5).fold(&embeddings, &[1.0, 1.0], 2);
    assert!(
      matches!(got, Err(WinditError::MagnitudeOutOfRange { .. })),
      "out-of-domain EMA subnormal must be rejected, got {got:?}"
    );
  }
}

#[test]
fn domain_corners_are_accepted_at_the_boundary_and_rejected_beyond() {
  let max = f64::from_bits(0x58F0_0000_0000_0000); // 2^400
  let min = f64::from_bits(0x26F0_0000_0000_0000); // 2^-400
  for (value, want) in [
    (max, [1.0, 0.0]),
    (-max, [-1.0, 0.0]),
    (min, [1.0, 0.0]),
    (-min, [-1.0, 0.0]),
  ] {
    let embeddings: [&[f64]; 1] = [&[value, 0.0]];
    for (name, run) in builtin_policies() {
      let got = run(&embeddings, &[1.0], 2)
        .unwrap_or_else(|e| panic!("{name} rejected boundary {value:e}: {e:?}"));
      assert_close_f64(&got, &want);
    }
  }

  for beyond in [2.0 * max, min / 2.0] {
    let embeddings: [&[f64]; 2] = [&[1.0, 0.0], &[0.0, beyond]];
    for (name, run) in builtin_policies() {
      let got = run(&embeddings, &[1.0, 1.0], 2);
      assert!(
        matches!(
          got,
          Err(WinditError::MagnitudeOutOfRange {
            window: 1,
            component: 1
          })
        ),
        "{name} must reject {beyond:e} at window 1 component 1, got {got:?}"
      );
    }
  }
}

#[test]
fn a_coverage_scale_is_not_a_loss_of_precision_but_a_ratio_can_be() {
  let subnormal = f64::from_bits(1); // 2^-1074, unrepresentable as a nonzero f32
  assert!(subnormal.is_finite() && subnormal > 0.0 && subnormal < 1.0);
  assert_eq!(subnormal as f32, 0.0, "no f32 carries this coverage");

  let embeddings: [&[f64]; 2] = [&[1.0, 0.0], &[0.0, 1.0]];
  let at_subnormal = CoverageWeightedMean
    .fold(&embeddings, &[subnormal; 2], 2)
    .expect("a uniform coverage resolves whatever its scale");
  assert_close_f64(&at_subnormal, &[std::f64::consts::FRAC_1_SQRT_2; 2]);
  let at_one = CoverageWeightedMean
    .fold(&embeddings, &[1.0; 2], 2)
    .expect("the same fold at coverage 1.0");
  assert_eq!(
    at_subnormal, at_one,
    "the smallest positive coverage is a scale of the largest, not a degradation of it"
  );

  let ratio: [&[f64]; 2] = [&[0.0, 0.0], &[1.0, 0.0]];
  let tiny = libm::ldexp(1.0, -1000);
  let got = CoverageWeightedMean.fold(&ratio, &[1.0, tiny], 2);
  assert!(
    matches!(got, Err(WinditError::NonFinite)),
    "a fold whose whole mass sits at the floor has no direction, got {got:?}"
  );
  let scaled = CoverageWeightedMean.fold(&ratio, &[0.5, tiny / 2.0], 2);
  assert!(
    matches!(scaled, Err(WinditError::NonFinite)),
    "the ratio regime must not depend on the scale either, got {scaled:?}"
  );

  let above = libm::ldexp(1.0, -900);
  let out = CoverageWeightedMean
    .fold(&ratio, &[1.0, above], 2)
    .expect("mass well above the floor must resolve");
  assert_close_f64(&out, &[1.0, 0.0]);
}

#[test]
fn a_coverage_slice_that_does_not_match_the_windows_is_rejected() {
  let embeddings: [&[f64]; 2] = [&[1.0, 0.0], &[0.0, 1.0]];
  for (label, coverages) in [("short", &[1.0][..]), ("long", &[1.0, 1.0, 1.0][..])] {
    for (name, run) in builtin_policies() {
      let got = run(&embeddings, coverages, 2);
      assert!(
        matches!(
          got,
          Err(WinditError::DimMismatch {
            got: g,
            expected: 2
          }) if g == coverages.len()
        ),
        "{name} must reject a {label} coverage slice, got {got:?}"
      );
    }
  }
}

#[test]
fn out_of_range_coverage_is_rejected() {
  let embeddings: [&[f64]; 1] = [&[1.0, 0.0]];
  for bad in [f64::NAN, 1.5, -0.1] {
    for (name, run) in builtin_policies() {
      let got = run(&embeddings, &[bad], 2);
      assert!(
        matches!(got, Err(WinditError::CoverageOutOfRange { window: 0 })),
        "{name} must reject coverage {bad} at window 0, got {got:?}"
      );
    }
  }
}

#[test]
fn out_of_domain_saliency_coverage_and_ema_inputs_are_rejected() {
  let m = f64::from_bits(1); // 2^-1074, below the domain floor

  let f2a: [&[f64]; 2] = [&[1e154, 0.0], &[1e154, 0.0]];
  assert!(matches!(
    SaliencyWeighted.fold(&f2a, &[1.0, 1.0], 2),
    Err(WinditError::MagnitudeOutOfRange { .. })
  ));

  let f2b: [&[f64]; 2] = [&[1.0, m], &[-1.0, m]];
  assert!(matches!(
    CoverageWeightedMean.fold(&f2b, &[0.5, 0.5], 2),
    Err(WinditError::MagnitudeOutOfRange { .. })
  ));

  let f3: [&[f64]; 2] = [&[1.0, m], &[-1.0, m]];
  assert!(matches!(
    ema(0.5).fold(&f3, &[1.0, 1.0], 2),
    Err(WinditError::MagnitudeOutOfRange { .. })
  ));
}

#[test]
fn keep_separate_returns_all_windows() {
  let windows = vec![
    win(&[1.0, 0.0], 4, 4),
    win(&[0.0, 1.0], 4, 4),
    win(&[1.0, 1.0], 2, 4),
  ];
  let spans: Vec<Span> = windows.iter().map(|w| w.span).collect();
  let kept = keep_separate(windows);
  assert_eq!(kept.len(), 3);
  assert_eq!(kept.iter().map(|w| w.span).collect::<Vec<_>>(), spans);
}

#[test]
fn empty_windows_errors() {
  let windows: [WindowEmbedding<TestVec>; 0] = [];
  assert!(matches!(
    aggregate(&CoverageWeightedMean, &windows),
    Err(WinditError::Empty)
  ));
  let empty: [&[f64]; 0] = [];
  assert!(matches!(
    CoverageWeightedMean.fold(&empty, &[], 2),
    Err(WinditError::Empty)
  ));
}

#[test]
fn dim_mismatch_errors() {
  let windows = [win(&[1.0, 0.0], 4, 4), win(&[0.0, 0.0, 1.0], 4, 4)];
  assert!(matches!(
    aggregate(&CoverageWeightedMean, &windows),
    Err(WinditError::DimMismatch { .. })
  ));
}

#[test]
fn kind_into_policy_matches_builtin() {
  let windows = [win(&[1.0, 0.0], 4, 4), win(&[0.0, 1.0], 2, 4)];
  let via_kind = aggregate(
    AggregatePolicyKind::CoverageWeightedMean
      .into_policy()
      .as_ref(),
    &windows,
  )
  .unwrap();
  let via_builtin = aggregate(&CoverageWeightedMean, &windows).unwrap();
  assert_close(&via_kind.floats(), &via_builtin.floats());

  let windows3 = [
    win(&[1.0, 0.0, 0.0], 4, 4),
    win(&[0.0, 1.0, 0.0], 4, 4),
    win(&[0.0, 0.0, 1.0], 4, 4),
  ];
  let via_kind = aggregate(
    AggregatePolicyKind::Ema { alpha: bits(0.5) }
      .into_policy()
      .as_ref(),
    &windows3,
  )
  .unwrap();
  let via_builtin = aggregate(&ema(0.5), &windows3).unwrap();
  assert_close(&via_kind.floats(), &via_builtin.floats());

  let fine = 1.0 - libm::ldexp(1.0, -30);
  assert_eq!(fine as f32, 1.0, "no f32 is nearer to this alpha than 1.0");
  let raw: [&[f64]; 3] = [&[0.0, 1.0], &[0.0, 1.0], &[1.0, 0.0]];
  let cov = [1.0f64; 3];
  let via_kind = AggregatePolicyKind::Ema { alpha: bits(fine) }
    .into_policy()
    .fold(&raw, &cov, 2)
    .unwrap();
  let via_builtin = ema(fine)
    .fold(&raw, &cov, 2)
    .unwrap();
  assert_eq!(
    via_kind, via_builtin,
    "the wire value must reach the fold unrounded"
  );
  let collapsed = ema(1.0)
    .fold(&raw, &cov, 2)
    .unwrap();
  assert_ne!(
    via_kind, collapsed,
    "and it must not be the alpha an f32 field would have stored"
  );

  let p64 = AggregatePolicyKind::CoverageWeightedMean.into_policy::<Binary64>();
  let embeddings: [&[f64]; 2] = [&[1.0, 0.0], &[0.0, 1.0]];
  let out = p64.fold(&embeddings, &[1.0, 0.5], 2).unwrap();
  assert_close_f64(&out, &[0.894_427_190_999_915_9, 0.447_213_595_499_957_9]);
}

const CODES: [[i8; 8]; 3] = [
  [40, -12, 5, 60, -30, 18, -7, 25],
  [15, 50, -20, -8, 33, -45, 10, 22],
  [-25, 30, 12, -40, 8, 19, -33, 5],
];
const SCALES: [f64; 3] = [0.011, 0.0125, 0.02];
const ZPS: [i8; 3] = [0, -3, 5];
const LENS: [usize; 3] = [4, 3, 2];
const WINDOW: usize = 4;

fn dequant(codes: &[i8], scale: f64, zp: i8) -> Vec<f64> {
  codes
    .iter()
    .map(|&q| scale * f64::from(i16::from(q) - i16::from(zp)))
    .collect()
}

fn quant_windows() -> Vec<WindowEmbedding<QuantEmb>> {
  (0..3)
    .map(|i| {
      Windowed::new(
        QuantEmb {
          codes: CODES[i].to_vec(),
          scale: SCALES[i],
          zero_point: ZPS[i],
          captured: Vec::new(),
        },
        Span::new(0, LENS[i], WINDOW),
      )
    })
    .collect()
}

fn raw_windows() -> Vec<WindowEmbedding<RawF64Emb>> {
  (0..3)
    .map(|i| {
      Windowed::new(
        raw_emb(dequant(&CODES[i], SCALES[i], ZPS[i])),
        Span::new(0, LENS[i], WINDOW),
      )
    })
    .collect()
}

fn r2_windows() -> Vec<WindowEmbedding<TestVec>> {
  (0..3)
    .map(|i| {
      let data: Vec<Binary32> = CODES[i]
        .iter()
        .map(|&q| (SCALES[i] * f64::from(i16::from(q) - i16::from(ZPS[i]))) as f32)
        .map(|x| Binary32::from_bits(x.to_bits()))
        .collect();
      Windowed::new(TestVec(data), Span::new(0, LENS[i], WINDOW))
    })
    .collect()
}

fn assert_bitwise_identical<P: AggregatePolicy<Binary64>>(policy: &P, name: &str) {
  let q = aggregate(policy, &quant_windows()).unwrap();
  let r = aggregate(policy, &raw_windows()).unwrap();
  assert_eq!(q.captured.len(), 8, "{name}: unexpected dim");
  assert_eq!(q.captured.len(), r.captured.len(), "{name}: length");
  for (a, b) in q.captured.iter().zip(&r.captured) {
    assert_eq!(
      a.to_bits(),
      b.to_bits(),
      "{name}: {a} vs {b} not bitwise-equal"
    );
  }
}

#[test]
fn quantized_projection_matches_hand_dequantized_f64_bitwise() {
  assert_bitwise_identical(&CoverageWeightedMean, "CoverageWeightedMean");
  assert_bitwise_identical(&MeanRenormalized, "MeanRenormalized");
  assert_bitwise_identical(&ema(0.3), "EmaRenormalized");
  assert_bitwise_identical(&SaliencyWeighted, "SaliencyWeighted");
}

#[test]
fn quantized_projection_tracks_f32_dequant_reference() {
  let q = aggregate(&CoverageWeightedMean, &quant_windows()).unwrap();
  let r2 = aggregate(&CoverageWeightedMean, &r2_windows()).unwrap();
  let dot: f64 = q
    .captured
    .iter()
    .zip(r2.floats())
    .map(|(a, b)| *a * f64::from(b))
    .sum();
  assert!(dot >= 1.0 - 1e-6, "direction cosine {dot} below 1 - 1e-6");
}

#[test]
fn per_row_scale_feeds_true_magnitudes_to_saliency() {
  let windows = vec![
    Windowed::new(
      QuantEmb {
        codes: vec![100, 3, 0, 0],
        scale: 1e-3,
        zero_point: 0,
        captured: Vec::new(),
      },
      Span::new(0, 4, 4),
    ),
    Windowed::new(
      QuantEmb {
        codes: vec![0, 2, 100, 0],
        scale: 1e-2,
        zero_point: 0,
        captured: Vec::new(),
      },
      Span::new(0, 4, 4),
    ),
  ];
  let sal = aggregate(&SaliencyWeighted, &windows).unwrap();
  let r = &sal.captured;
  assert!(
    r[2] > 0.99,
    "B's true magnitude must dominate saliency, got {r:?}"
  );
  assert!(
    r[0] < 0.2,
    "a scale-blind fold would put ~0.707 here, got {r:?}"
  );

  let mean = aggregate(&MeanRenormalized, &windows).unwrap();
  let m = &mean.captured;
  assert!(
    m[2] > 9.0 * m[0],
    "the 10x scale ratio must survive the mean, got {m:?}"
  );
}

#[test]
fn asymmetric_zero_point_shifts_direction() {
  let codes = vec![10i8, -5, 30, 0, -20, 15];
  let scale = 0.01;
  let zp = -20i8;
  let out = aggregate(
    &MeanRenormalized,
    &[Windowed::new(
      QuantEmb {
        codes: codes.clone(),
        scale,
        zero_point: zp,
        captured: Vec::new(),
      },
      Span::new(0, 4, 4),
    )],
  )
  .unwrap();

  let raw = aggregate(
    &MeanRenormalized,
    &[Windowed::new(
      raw_emb(dequant(&codes, scale, zp)),
      Span::new(0, 4, 4),
    )],
  )
  .unwrap();
  for (a, b) in out.captured.iter().zip(&raw.captured) {
    assert_eq!(a.to_bits(), b.to_bits(), "override must match hand-dequant");
  }

  let raw_norm: Vec<f64> = {
    let ss: f64 = codes.iter().map(|&q| f64::from(q) * f64::from(q)).sum();
    let n = libm::sqrt(ss);
    codes.iter().map(|&q| f64::from(q) / n).collect()
  };
  let mut max_diff = 0.0_f64;
  for (a, b) in out.captured.iter().zip(&raw_norm) {
    let d = libm::fabs(a - b);
    if d > max_diff {
      max_diff = d;
    }
  }
  assert!(
    max_diff > 1e-2,
    "dropping the zero point must shift the direction, max diff {max_diff}"
  );
}

#[test]
fn i8_without_projection_is_refused() {
  let windows = vec![Windowed::new(
    BareI8Emb(vec![1, 2, 3, 4]),
    Span::new(0, 4, 4),
  )];
  assert!(matches!(
    aggregate(&MeanRenormalized, &windows),
    Err(WinditError::MissingDequantization)
  ));
  assert!(matches!(
    aggregate(&SaliencyWeighted, &windows),
    Err(WinditError::MissingDequantization)
  ));
}

#[test]
fn poisoned_or_out_of_domain_quant_params_fail_closed() {
  let span = Span::new(0, 4, 4);
  let mk = |codes: Vec<i8>, scale: f64, zp: i8| -> Vec<WindowEmbedding<QuantEmb>> {
    vec![Windowed::new(
      QuantEmb {
        codes,
        scale,
        zero_point: zp,
        captured: Vec::new(),
      },
      span,
    )]
  };
  assert!(matches!(
    aggregate(&MeanRenormalized, &mk(vec![10, -3, 5, 7], f64::NAN, 0)),
    Err(WinditError::NonFinite)
  ));
  assert!(matches!(
    aggregate(&MeanRenormalized, &mk(vec![10, -3, 5, 7], f64::INFINITY, 0)),
    Err(WinditError::NonFinite)
  ));
  assert!(matches!(
    aggregate(&MeanRenormalized, &mk(vec![10, -3, 5, 7], 0.0, 0)),
    Err(WinditError::NonFinite)
  ));
  assert!(matches!(
    aggregate(&MeanRenormalized, &mk(vec![100, 0, 0, 0], 1e200, 0)),
    Err(WinditError::MagnitudeOutOfRange {
      window: 0,
      component: 0
    })
  ));
  assert!(aggregate(&MeanRenormalized, &mk(vec![100, -50, 30, 7], 1.2e-3, 0)).is_ok());
}

#[test]
fn half_projection_matches_hand_widened_f64_bitwise() {
  let w0 = [0.5f32, -0.25, 1.5, 0.75];
  let w1 = [-1.0f32, 0.125, 0.5, -2.0];

  let f16_windows = [
    Windowed::new(
      HalfEmb {
        data: w0.iter().map(|&x| half_bits(f16::from_f32(x))).collect(),
        captured: Vec::new(),
      },
      Span::new(0, 4, 4),
    ),
    Windowed::new(
      HalfEmb {
        data: w1.iter().map(|&x| half_bits(f16::from_f32(x))).collect(),
        captured: Vec::new(),
      },
      Span::new(0, 3, 4),
    ),
  ];
  let f16_reference = [
    Windowed::new(
      raw_emb(w0.iter().map(|&x| f64::from(f16::from_f32(x))).collect()),
      Span::new(0, 4, 4),
    ),
    Windowed::new(
      raw_emb(w1.iter().map(|&x| f64::from(f16::from_f32(x))).collect()),
      Span::new(0, 3, 4),
    ),
  ];
  let h = aggregate(&CoverageWeightedMean, &f16_windows).unwrap();
  let r = aggregate(&CoverageWeightedMean, &f16_reference).unwrap();
  assert_eq!(h.captured.len(), r.captured.len());
  for (a, b) in h.captured.iter().zip(&r.captured) {
    assert_eq!(
      a.to_bits(),
      b.to_bits(),
      "f16 projection must match hand-widened f64 bitwise"
    );
  }

  let bf16_windows = [
    Windowed::new(
      Bf16Emb {
        data: w0.iter().map(|&x| bf16_bits(bf16::from_f32(x))).collect(),
        captured: Vec::new(),
      },
      Span::new(0, 4, 4),
    ),
    Windowed::new(
      Bf16Emb {
        data: w1.iter().map(|&x| bf16_bits(bf16::from_f32(x))).collect(),
        captured: Vec::new(),
      },
      Span::new(0, 3, 4),
    ),
  ];
  let bf16_reference = [
    Windowed::new(
      raw_emb(w0.iter().map(|&x| f64::from(bf16::from_f32(x))).collect()),
      Span::new(0, 4, 4),
    ),
    Windowed::new(
      raw_emb(w1.iter().map(|&x| f64::from(bf16::from_f32(x))).collect()),
      Span::new(0, 3, 4),
    ),
  ];
  let hb = aggregate(&CoverageWeightedMean, &bf16_windows).unwrap();
  let rb = aggregate(&CoverageWeightedMean, &bf16_reference).unwrap();
  assert_eq!(hb.captured.len(), rb.captured.len());
  for (a, b) in hb.captured.iter().zip(&rb.captured) {
    assert_eq!(
      a.to_bits(),
      b.to_bits(),
      "bf16 projection must match hand-widened f64 bitwise"
    );
  }
}

#[test]
fn half_stored_non_finite_is_rejected() {
  let span = Span::new(0, 4, 4);
  for bad in [f16::NAN, f16::INFINITY, f16::NEG_INFINITY] {
    let windows = vec![Windowed::new(
      HalfEmb {
        data: vec![
          half_bits(f16::from_f32(0.5)),
          half_bits(bad),
          half_bits(f16::from_f32(-0.25)),
          half_bits(f16::from_f32(1.0)),
        ],
        captured: Vec::new(),
      },
      span,
    )];
    assert!(matches!(
      aggregate(&MeanRenormalized, &windows),
      Err(WinditError::NonFinite)
    ));
  }
  for bad in [bf16::NAN, bf16::INFINITY, bf16::NEG_INFINITY] {
    let windows = vec![Windowed::new(
      Bf16Emb {
        data: vec![
          bf16_bits(bf16::from_f32(0.5)),
          bf16_bits(bad),
          bf16_bits(bf16::from_f32(-0.25)),
          bf16_bits(bf16::from_f32(1.0)),
        ],
        captured: Vec::new(),
      },
      span,
    )];
    assert!(matches!(
      aggregate(&MeanRenormalized, &windows),
      Err(WinditError::NonFinite)
    ));
  }
}

/// An EMA fold over one dimension, at full coverage.
fn ema_line(alpha: f64, components: &[f64]) -> Result<Vec<f64>, WinditError> {
  let refs: Vec<&[f64]> = components.iter().map(std::slice::from_ref).collect();
  ema(alpha).fold(&refs, &vec![1.0; components.len()], 1)
}

#[test]
fn ema_weights_below_the_exponent_range_cannot_fabricate_a_direction() {
  // Two ordinary components whose ideal weighted sum is exactly zero, on weights that
  // have left the normal range.
  let alpha = 0.9_f64;
  let b = 1.0 - alpha;
  assert_eq!(libm::ldexp(900_719_925_474_099.0, -53), b);
  let c_lo = libm::ldexp(900_719_925_474_099.0, 30);
  let c_hi = -c_lo / b;
  assert_eq!(c_hi, -libm::ldexp(1.0, 83));
  assert_eq!(c_lo + c_hi * b, 0.0);
  let k1 = 323_usize;
  let n = k1 + 3;
  let w = ema_ladder(alpha, n);
  let (i1, i2) = (n - 1 - k1, n - 1 - (k1 + 1));
  assert!(w[i1] > 0.0 && w[i1] < f64::MIN_POSITIVE);
  assert_eq!(w[i2], 0.0);
  let mut components = vec![0.0_f64; n];
  components[i1] = c_lo;
  components[i2] = c_hi;
  assert!(ema_gate_ratio(&w, &components) > 100.0);
  assert!(matches!(ema_line(alpha, &components), Err(WinditError::NonFinite)));
}

#[test]
fn the_oldest_weights_charge_is_not_damped_by_alpha() {
  // The ladder stalls on the subnormal grid instead of reaching zero, and the oldest
  // window carries the stalled weight.
  let n = 20_000_usize;
  let w = ema_ladder(0.05, n);
  assert_eq!(w[0], f64::from_bits(9));
  let mut components = vec![0.0_f64; n];
  components[0] = libm::ldexp(1.0, 400);
  assert!(matches!(ema_line(0.05, &components), Err(WinditError::NonFinite)));
}

#[test]
fn the_underflow_slack_does_not_charge_1_over_alpha() {
  // A flushed window that could at most reverse a small part of the live one does not
  // decide the verdict.
  let n = 14_471_usize;
  let w = ema_ladder(0.05, n);
  let flushed = (1..n).find(|&i| w[i] > 0.0).unwrap() - 1;
  assert_eq!(w[flushed], 0.0);
  let live = n - 1;
  let mut components = vec![0.0_f64; n];
  components[flushed] = libm::ldexp(1.0, 400);
  components[live] = libm::ldexp(1.0, -400);
  assert_eq!(ema_line(0.05, &components).unwrap(), vec![1.0]);
}

#[test]
fn an_ordinary_long_ema_still_answers_past_the_underflow_point() {
  let n = 400_usize;
  let w = ema_ladder(0.9, n);
  assert!(w.iter().filter(|&&x| x < f64::MIN_POSITIVE).count() > 90);
  assert_eq!(ema_line(0.9, &vec![1.0; n]).unwrap(), vec![1.0]);
}

#[test]
fn coverages_and_components_are_collected_in_order() {
  let windows = [win(&[3.0, 4.0], 4, 4), win(&[0.0, 1.0], 2, 4)];
  assert_eq!(all_floats(&push_coverages(&windows, Vec::new())), vec![1.0, 0.5]);
  let components = push_components(&windows, Vec::new()).unwrap();
  let floats: Vec<Vec<f64>> = components.iter().map(|c| all_floats(c)).collect();
  let (a, b) = (f64::from(0.6f32), f64::from(0.8f32));
  assert_eq!(floats, vec![vec![a, b], vec![0.0, 1.0]]);
}

#[test]
fn the_first_window_without_components_is_reported() {
  let windows = [
    Windowed::new(BareI8Emb(vec![1, 2]), Span::new(0, 4, 4)),
    Windowed::new(BareI8Emb(vec![3]), Span::new(0, 4, 4)),
  ];
  assert_eq!(push_components(&windows, Vec::new()), Err(WinditError::MissingDequantization));
}

#[test]
fn combining_rebuilds_the_embedding() {
  let components = [all_bits(&[3.0, 0.0]), all_bits(&[0.0, 8.0])];
  let coverages = all_bits(&[1.0, 0.5]);
  let out: RawF64Emb =
    combine(&CoverageWeightedMean, &components, &coverages, 2, Vec::new()).unwrap();
  assert_eq!(out.captured, vec![0.6, 0.8]);
  let out: Result<RawF64Emb, WinditError> =
    combine(&CoverageWeightedMean, &components, &coverages, 3, Vec::new());
  assert_eq!(out.err(), Some(WinditError::DimMismatch { expected: 3, got: 2 }));
}
