use windit::aggregate::ema::fill_ladder;
use windit::aggregate::fold::{fold_into, neumaier_add, weighted_sum_renorm, Weighting};
use windit::aggregate::norm::{l2_norm, l2_renorm, max_magnitude, min_positive_magnitude};
use windit::aggregate::policy::{normalizing_shift, push_norms};
use windit::aggregate::{
    AggregatePolicy, CoverageWeightedMean, EmaRenormalized, MeanRenormalized, SaliencyWeighted,
};
use windit::binary::{Binary32, Binary64};
use windit::ratio::ratio_to_f64;
use windit::windowed::{project, widen_into};
use windit::WinditError;

fn bits(x: f64) -> Binary64 {
    Binary64::from_bits(x.to_bits())
}

fn float(x: Binary64) -> f64 {
    f64::from_bits(x.to_bits())
}

fn all(v: &[f64]) -> Vec<Binary64> {
    v.iter().map(|&x| bits(x)).collect()
}

fn run<P: AggregatePolicy<Binary64>>(
    policy: &P,
    windows: &[Vec<f64>],
    coverages: &[f64],
) -> Result<Vec<f64>, WinditError> {
    let owned: Vec<Vec<Binary64>> = windows.iter().map(|w| all(w)).collect();
    let slices: Vec<&[Binary64]> = owned.iter().map(|w| w.as_slice()).collect();
    let dim = windows.first().map_or(0, |w| w.len());
    let out = policy.aggregate_values(&slices, &all(coverages), dim)?;
    Ok(out.into_iter().map(float).collect())
}

/// A stream of numbers.
struct Numbers(u64);

impl Numbers {
    fn next(&mut self) -> u64 {
        self.0 ^= self.0 << 13;
        self.0 ^= self.0 >> 7;
        self.0 ^= self.0 << 17;
        self.0
    }

    fn small(&mut self) -> f64 {
        (self.next() % 2001) as f64 / 8.0 - 125.0
    }

    fn wide(&mut self) -> f64 {
        let x = (self.next() % 1_000_003) as f64 - 500_001.0;
        x * 2f64.powi((self.next() % 400) as i32 - 200)
    }
}

#[test]
fn a_sum_and_its_compensation_are_exact() {
    let mut numbers = Numbers(0x5eed_5eed_5eed_5eed);
    for _ in 0..2000 {
        // Integers of up to 2^80, so that the exact sum fits in an `i128`.
        let a = ((numbers.next() >> 11) as i64 - (1 << 52)) as i128 * (1i128 << (numbers.next() % 28));
        let b = ((numbers.next() >> 11) as i64 - (1 << 52)) as i128 * (1i128 << (numbers.next() % 28));
        let mut acc = bits(a as f64);
        let mut comp = bits(0.0);
        neumaier_add(&mut acc, &mut comp, bits(b as f64));
        assert_eq!(float(acc) as i128 + float(comp) as i128, a + b);
    }
}

#[test]
fn cancelling_windows_are_refused_in_any_order() {
    let mut numbers = Numbers(0x1234_5678_9abc_def1);
    for _ in 0..50 {
        let mut windows: Vec<Vec<f64>> = Vec::new();
        for _ in 0..20 {
            let w: Vec<f64> = (0..3).map(|_| numbers.wide()).collect();
            windows.push(w.iter().map(|x| -x).collect());
            windows.push(w);
        }
        for i in (1..windows.len()).rev() {
            let j = (numbers.next() % (i as u64 + 1)) as usize;
            windows.swap(i, j);
        }
        let coverages = vec![1.0; windows.len()];
        assert_eq!(run(&MeanRenormalized, &windows, &coverages), Err(WinditError::NonFinite));
        assert_eq!(run(&CoverageWeightedMean, &windows, &coverages), Err(WinditError::NonFinite));
    }
}

#[test]
fn an_ema_of_one_keeps_the_newest_window_and_of_zero_the_oldest() {
    let mut numbers = Numbers(0xabcd_ef01_2345_6789);
    for n in 1..6 {
        let windows: Vec<Vec<f64>> =
            (0..n).map(|_| (0..4).map(|_| numbers.small()).collect()).collect();
        let ones = vec![1.0; n];
        let newest = run(&MeanRenormalized, &windows[n - 1..], &[1.0]);
        let oldest = run(&MeanRenormalized, &windows[..1], &[1.0]);
        assert_eq!(run(&EmaRenormalized::new(bits(1.0)), &windows, &ones), newest);
        assert_eq!(run(&EmaRenormalized::new(bits(0.0)), &windows, &ones), oldest);
    }
}

#[test]
fn equal_coverages_fold_as_a_mean() {
    let mut numbers = Numbers(0x0f0f_0f0f_1234_4321);
    for c in [1.0, 0.7, 1.0 / 3.0, 1e-300, f64::from_bits(1)] {
        let windows: Vec<Vec<f64>> =
            (0..5).map(|_| (0..3).map(|_| numbers.small()).collect()).collect();
        assert_eq!(
            run(&CoverageWeightedMean, &windows, &[c; 5]),
            run(&MeanRenormalized, &windows, &[1.0; 5])
        );
    }
}

#[test]
fn exactly_scaled_coverages_fold_alike() {
    let mut numbers = Numbers(0x7777_1111_3333_9999);
    let base = [1.0, 0.5, 0.75, 0.0, 0.125];
    for factor in [0.5, 0.75, 0.625, 2f64.powi(-1000), 2f64.powi(-1071)] {
        let windows: Vec<Vec<f64>> =
            (0..5).map(|_| (0..3).map(|_| numbers.small()).collect()).collect();
        let scaled: Vec<f64> = base.iter().map(|c| c * factor).collect();
        assert_eq!(
            run(&CoverageWeightedMean, &windows, &scaled),
            run(&CoverageWeightedMean, &windows, &base)
        );
    }
}

#[test]
fn only_the_coverage_policy_weighs_by_coverage() {
    let windows = vec![vec![3.0, 0.0], vec![0.0, 1.0]];
    for policy_outcomes in [
        (run(&MeanRenormalized, &windows, &[1.0, 1.0]), run(&MeanRenormalized, &windows, &[0.0, 0.3])),
        (run(&SaliencyWeighted, &windows, &[1.0, 1.0]), run(&SaliencyWeighted, &windows, &[0.0, 0.3])),
        (
            run(&EmaRenormalized::new(bits(0.5)), &windows, &[1.0, 1.0]),
            run(&EmaRenormalized::new(bits(0.5)), &windows, &[0.0, 0.3]),
        ),
    ] {
        assert_eq!(policy_outcomes.0, policy_outcomes.1);
    }
    assert_ne!(
        run(&CoverageWeightedMean, &windows, &[1.0, 1.0]),
        run(&CoverageWeightedMean, &windows, &[0.0, 0.3])
    );
}

#[test]
fn zero_weights_and_zero_coverages_have_no_direction() {
    let windows = vec![vec![1.0, 2.0], vec![3.0, 4.0]];
    assert_eq!(run(&CoverageWeightedMean, &windows, &[0.0, 0.0]), Err(WinditError::NonFinite));
    let owned: Vec<Vec<Binary64>> = windows.iter().map(|w| all(w)).collect();
    let slices: Vec<&[Binary64]> = owned.iter().map(|w| w.as_slice()).collect();
    let out = weighted_sum_renorm(
        &slices,
        &all(&[1.0, 1.0]),
        2,
        Weighting::Given(&all(&[0.0, -0.0])),
        bits(0.0),
    );
    assert_eq!(out, Err(WinditError::NonFinite));
}

#[test]
fn the_first_problem_of_an_input_is_reported() {
    let ok = vec![1.0, 2.0];
    assert_eq!(run(&MeanRenormalized, &[], &[]), Err(WinditError::Empty));
    assert_eq!(
        run(&MeanRenormalized, &[ok.clone()], &[1.0, 1.0]),
        Err(WinditError::DimMismatch { got: 2, expected: 1 })
    );
    assert_eq!(
        run(&MeanRenormalized, &[ok.clone(), vec![1.0]], &[1.0, 2.0]),
        Err(WinditError::DimMismatch { got: 1, expected: 2 })
    );
    assert_eq!(
        run(&MeanRenormalized, &[ok.clone(), vec![f64::NAN, 1.0]], &[1.0, 2.0]),
        Err(WinditError::CoverageOutOfRange { window: 1 })
    );
    assert_eq!(
        run(&MeanRenormalized, &[vec![1e200, f64::NAN], ok.clone()], &[1.0, 2.0]),
        Err(WinditError::MagnitudeOutOfRange { window: 0, component: 0 })
    );
    assert_eq!(
        run(&MeanRenormalized, &[vec![1.0, f64::INFINITY], ok], &[1.0, 1.0]),
        Err(WinditError::NonFinite)
    );
    assert_eq!(
        run(&EmaRenormalized::new(bits(2.0)), &[], &[]),
        Err(WinditError::AlphaOutOfRange)
    );
}

#[test]
fn norms_follow_the_scale_of_their_vector() {
    for (v, want) in [
        (vec![3.0, 4.0], 5.0),
        (vec![], 0.0),
        (vec![0.0, -0.0], 0.0),
        (vec![f64::MAX, 0.0], f64::MAX),
        (vec![3e300, 4e300], 5e300),
        (vec![f64::from_bits(1), 0.0], f64::from_bits(1)),
        (vec![f64::INFINITY, 1.0], f64::INFINITY),
        (vec![f64::MAX, f64::MAX], f64::INFINITY),
    ] {
        assert_eq!(float(l2_norm(&all(&v))), want, "{v:?}");
    }
    assert!(float(l2_norm(&all(&[f64::NAN, 1.0]))).is_nan());
}

#[test]
fn renormalizing_leaves_a_refused_vector_alone() {
    let mut v = all(&[0.0, 0.0]);
    assert_eq!(l2_renorm(&mut v), Err(WinditError::NonFinite));
    assert_eq!(v, all(&[0.0, 0.0]));
    let mut v = all(&[1.0, f64::INFINITY]);
    assert_eq!(l2_renorm(&mut v), Err(WinditError::NonFinite));
    assert_eq!(v, all(&[1.0, f64::INFINITY]));
    let mut v = all(&[f64::MAX, f64::MAX]);
    assert_eq!(l2_renorm(&mut v), Ok(()));
    let r = f64::MAX / 2f64.powi(1023);
    let unit = (r * r + r * r).sqrt();
    assert_eq!(v, all(&[r / unit; 2]));
}

#[test]
fn extreme_magnitudes_ignore_what_is_not_a_number() {
    let v = all(&[0.0, -3.0, f64::NAN, 0.5, 2.0]);
    assert_eq!(float(max_magnitude(&v)), 3.0);
    assert_eq!(float(min_positive_magnitude(&v)), 0.5);
    assert_eq!(float(max_magnitude(&all(&[]))), 0.0);
    assert_eq!(float(min_positive_magnitude(&all(&[0.0, f64::NAN]))), 0.0);
}

#[test]
fn projections_widen_values_and_refuse_codes() {
    let narrow: Vec<Binary32> = [1.5f32, -0.25, f32::MIN_POSITIVE]
        .iter()
        .map(|x| Binary32::from_bits(x.to_bits()))
        .collect();
    let wide = project(&narrow).unwrap();
    assert_eq!(wide, all(&[1.5, -0.25, f64::from(f32::MIN_POSITIVE)]));
    assert_eq!(project(&all(&[0.5, 2.0])).unwrap(), all(&[0.5, 2.0]));
    assert_eq!(project(&[1i8, 2]), Err(WinditError::MissingDequantization));
}

#[test]
fn comparisons_of_patterns_compare_values() {
    let xs = [f32::NEG_INFINITY, -2.0, -f32::MIN_POSITIVE, -0.0, 0.0, f32::from_bits(1), 1.0, f32::INFINITY, f32::NAN];
    for x in xs {
        for y in xs {
            let (a, b) = (Binary32::from_bits(x.to_bits()), Binary32::from_bits(y.to_bits()));
            assert_eq!(a.at_least(b), x >= y);
            assert_eq!(a.below(b), x < y);
        }
        let a = Binary32::from_bits(x.to_bits());
        assert_eq!(a.is_nan(), x.is_nan());
        assert_eq!(a.is_finite(), x.is_finite());
    }
}

#[test]
fn ratios_are_one_only_for_equal_counts_and_grow() {
    assert_eq!(float(ratio_to_f64(3, 3)), 1.0);
    assert!(float(ratio_to_f64(usize::MAX - 1, usize::MAX)) < 1.0);
    assert_eq!(float(ratio_to_f64(1, 3)), 1.0 / 3.0);
    let mut last = 0.0;
    for n in 1..=1000 {
        let r = float(ratio_to_f64(n, 1000));
        assert!(r > last);
        assert_eq!(r, n as f64 / 1000.0);
        last = r;
    }
}

/// Windows of small integers whose sum is nothing.
fn cancelling(numbers: &mut Numbers, n: usize, dim: usize) -> Vec<Vec<f64>> {
    let mut windows: Vec<Vec<f64>> = Vec::new();
    let mut total = vec![0.0; dim];
    for _ in 1..n {
        let w: Vec<f64> = (0..dim).map(|_| numbers.small()).collect();
        for (t, x) in total.iter_mut().zip(&w) {
            *t += x;
        }
        windows.push(w);
    }
    windows.push(total.iter().map(|t| -t).collect());
    windows
}

#[test]
fn cancelling_windows_are_refused_by_every_policy() {
    let mut numbers = Numbers(0x1234_5678_9abc_def1);
    for n in 2..40 {
        let windows = cancelling(&mut numbers, n, 3);
        let full = vec![1.0; n];
        assert_eq!(run(&MeanRenormalized, &windows, &full), Err(WinditError::NonFinite));
        // A coverage of a third, rounded, weighs every window alike.
        let thirds = vec![1.0 / 3.0; n];
        assert_eq!(run(&CoverageWeightedMean, &windows, &thirds), Err(WinditError::NonFinite));
        // Opposite windows have equal norms.
        let pairs: Vec<Vec<f64>> = windows
            .iter()
            .flat_map(|w| [w.clone(), w.iter().map(|x| -x).collect()])
            .collect();
        let twice = vec![1.0; 2 * n];
        assert_eq!(run(&SaliencyWeighted, &pairs, &twice), Err(WinditError::NonFinite));
    }
    // The coverages weigh two windows as two to one.
    let windows = [vec![1.5, -2.0], vec![-3.0, 4.0]];
    assert_eq!(run(&CoverageWeightedMean, &windows, &[0.5, 0.25]), Err(WinditError::NonFinite));
    assert_eq!(run(&CoverageWeightedMean, &windows, &[2.0 / 3.0, 1.0 / 3.0]), Err(WinditError::NonFinite));
}

#[test]
fn cancelling_windows_have_no_recency_average() {
    // Weights of a quarter, a quarter, and a half.
    let windows = [vec![1.5, -2.0], vec![1.5, -2.0], vec![-1.5, 2.0]];
    let full = [1.0; 3];
    let half = EmaRenormalized::new(bits(0.5));
    assert_eq!(run(&half, &windows, &full), Err(WinditError::NonFinite));
    // The last window undoes what the recurrence has reached: `9/16`, `3/16` and `1/4`.
    let quarter = EmaRenormalized::new(bits(0.25));
    let windows = [vec![4.0, 16.0], vec![-8.0, 32.0], vec![-3.0, -60.0]];
    assert_eq!(run(&quarter, &windows, &full), Err(WinditError::NonFinite));
    // One more unit in the last place is a direction.
    let windows = [vec![4.0, 16.0], vec![-8.0, 32.0], vec![-3.0, -59.0]];
    assert_eq!(run(&quarter, &windows, &full), Ok(vec![0.0, 1.0]));
}

#[test]
fn sums_are_accurate() {
    let mut numbers = Numbers(0xfeed_0bad_cafe_0001);
    for n in [1usize, 2, 7, 200] {
        // Integers of up to 2^80, so that the exact sum fits in an `i128`.
        let mut windows = Vec::new();
        let mut exact = [0i128; 4];
        for _ in 0..n {
            let mut w = Vec::new();
            for e in exact.iter_mut() {
                let k = (numbers.next() % 28) as i32;
                let x = (numbers.next() as i64 >> 12) as f64 * 2f64.powi(k);
                *e += x as i128;
                w.push(x);
            }
            windows.push(w);
        }
        let out = run(&MeanRenormalized, &windows, &vec![1.0; n]).unwrap();
        let norm = exact.iter().map(|&e| (e as f64) * (e as f64)).sum::<f64>().sqrt();
        for (x, &e) in out.iter().zip(&exact) {
            assert!((x - e as f64 / norm).abs() <= 1e-15, "{out:?}");
        }
    }
}

#[test]
fn aggregates_have_unit_length() {
    let mut numbers = Numbers(0x0123_4567_89ab_cdef);
    for n in 1..30usize {
        let windows: Vec<Vec<f64>> =
            (0..n).map(|_| (0..5).map(|_| numbers.wide()).collect()).collect();
        let coverages: Vec<f64> = (1..=n).map(|i| i as f64 / n as f64).collect();
        for out in [
            run(&MeanRenormalized, &windows, &coverages),
            run(&CoverageWeightedMean, &windows, &coverages),
            run(&SaliencyWeighted, &windows, &coverages),
            run(&EmaRenormalized::new(bits(0.3)), &windows, &coverages),
        ] {
            let energy: f64 = out.unwrap().iter().map(|x| x * x).sum();
            assert!((energy - 1.0).abs() <= 2f64.powi(-50), "{energy}");
        }
    }
}

#[test]
fn recency_weights_unroll_the_recurrence() {
    let mut weights = all(&[0.0; 3]);
    fill_ladder(&mut weights, bits(0.25));
    assert_eq!(weights, all(&[0.5625, 0.1875, 0.25]));
    let mut weights = all(&[9.0]);
    fill_ladder(&mut weights, bits(0.25));
    assert_eq!(weights, all(&[1.0]));
    let mut weights: Vec<Binary64> = Vec::new();
    fill_ladder(&mut weights, bits(0.25));
    assert_eq!(weights, all(&[]));
    // Powers of two are exact, and so is their sum.
    let mut weights = all(&[0.0; 40]);
    fill_ladder(&mut weights, bits(0.5));
    assert_eq!(weights.iter().map(|&w| float(w)).sum::<f64>(), 1.0);
    // The weighted sum is what the recurrence gives.
    let xs: [f64; 5] = [3.0, -1.0, 4.0, 1.0, -5.0];
    let alpha = 0.125;
    let mut weights = all(&[0.0; 5]);
    fill_ladder(&mut weights, bits(alpha));
    let folded: f64 = weights.iter().zip(&xs).map(|(&w, x)| float(w) * x).sum();
    let recurred = xs[1..].iter().fold(xs[0], |s, x| (1.0 - alpha) * s + alpha * x);
    assert_eq!(folded, recurred);
}

#[test]
fn folding_starts_from_zeros() {
    let a = all(&[3.0, 0.0]);
    let b = all(&[0.0, 4.0]);
    let windows: [&[Binary64]; 2] = [&a, &b];
    let zeros = || all(&[0.0; 2]);
    let out = fold_into(&windows, 2, Weighting::Uniform, bits(0.0), zeros(), zeros(), zeros());
    assert_eq!(out, Ok(all(&[0.6, 0.8])));
    let out = fold_into(&windows, 2, Weighting::Uniform, bits(0.0), zeros(), zeros(), zeros());
    let coverages = all(&[1.0; 2]);
    assert_eq!(out, weighted_sum_renorm(&windows, &coverages, 2, Weighting::Uniform, bits(0.0)));
    // A slack above the norm of the sum leaves nothing determined.
    let out = fold_into(&windows, 2, Weighting::Uniform, bits(5.0), zeros(), zeros(), zeros());
    assert_eq!(out, Err(WinditError::NonFinite));
}

#[test]
fn norms_are_appended() {
    let a = all(&[3.0, 4.0]);
    let b = all(&[]);
    let c = all(&[5.0, 12.0]);
    let windows: [&[Binary64]; 3] = [&a, &b, &c];
    let mut weights = all(&[1.0]);
    push_norms(&mut weights, &windows);
    assert_eq!(weights, all(&[1.0, 5.0, 0.0, 13.0]));
}

#[test]
fn scalars_are_widened_in_order() {
    let narrow = [0.1f32, -0.0, f32::MAX].map(|x| Binary32::from_bits(x.to_bits()));
    let mut out = Vec::new();
    widen_into(&narrow, &mut out);
    assert_eq!(out, all(&[f64::from(0.1f32), -0.0, f64::from(f32::MAX)]));
    let mut out = Vec::new();
    widen_into(&all(&[0.5, f64::MIN_POSITIVE]), &mut out);
    assert_eq!(out, all(&[0.5, f64::MIN_POSITIVE]));
}

#[test]
fn single_precision_windows_are_inside_the_domain() {
    for x in [f32::from_bits(1), f32::MIN_POSITIVE, 1.0, f32::MAX] {
        for y in [x, -x] {
            let wide = Binary32::from_bits(y.to_bits()).widened();
            let out = run(&MeanRenormalized, &[vec![float(wide)]], &[1.0]);
            assert_eq!(out, Ok(vec![f64::from(y.signum())]));
        }
    }
}

#[test]
fn planned_coverages_are_never_lifted() {
    for window in [1usize, 2, 3, 1000, usize::MAX] {
        for len in [1, window / 2 + 1, window] {
            let coverages = [ratio_to_f64(len, window), ratio_to_f64(1, usize::MAX), bits(1.0)];
            assert_eq!(normalizing_shift(&coverages, bits(1.0)), 0);
        }
    }
}

#[test]
fn norms_are_the_textbook_ones() {
    let mut numbers = Numbers(0x7777_1234_0000_0001);
    for n in 0..50usize {
        let v: Vec<f64> = (0..n).map(|_| numbers.wide()).collect();
        let mut sum = 0.0;
        for x in &v {
            sum += x * x;
        }
        assert_eq!(float(l2_norm(&all(&v))), sum.sqrt(), "{v:?}");
        if n > 0 {
            let mut w = all(&v);
            l2_renorm(&mut w).unwrap();
            let direct: Vec<f64> = v.iter().map(|x| x / sum.sqrt()).collect();
            assert_eq!(w, all(&direct));
        }
    }
    // Where the squares cannot be formed, the norm still can.
    let big = 2f64.powi(700);
    assert_eq!(float(l2_norm(&all(&[3.0 * big, 4.0 * big]))), 5.0 * big);
    assert_eq!((9.0 * big * big + 16.0 * big * big).sqrt(), f64::INFINITY);
}

#[test]
fn scaling_is_exact_where_it_can_be() {
    for x in [1.0, -0.0, f64::from_bits(1), f64::MIN_POSITIVE, f64::MAX, f64::INFINITY] {
        assert_eq!(bits(x).scaled(0), bits(x));
    }
    assert_eq!(float(bits(f64::MIN_POSITIVE).scaled(-52)), f64::from_bits(1));
    assert_eq!(float(bits(3.0).scaled(-1)), 1.5);
    assert_eq!(float(bits(f64::from_bits(3)).scaled(1073)), 1.5);
    assert_eq!(float(bits(1.0).scaled(1024)), f64::INFINITY);
    // Half of the least positive number is a tie, and rounds to the even zero.
    assert_eq!(float(bits(f64::from_bits(1)).scaled(-1)), 0.0);
}

#[test]
fn exact_ladders_are_exact() {
    // A complement of 2^-43: the weights are exact down to the normal range.
    let alpha = 1.0 - 2f64.powi(-43);
    let mut weights = all(&[0.0; 20]);
    fill_ladder(&mut weights, bits(alpha));
    for (i, &w) in weights.iter().enumerate().skip(1) {
        assert_eq!(float(w), alpha * 2f64.powi(-43 * (19 - i as i32)));
    }
    assert_eq!(float(weights[0]), 2f64.powi(-43 * 19));
}

#[test]
fn folds_at_the_corners_of_the_domain_stay_finite() {
    let (low, high) = (2f64.powi(-400), 2f64.powi(400));
    let windows = vec![vec![high, low, -high], vec![low, high, -low], vec![high, -low, high]];
    let coverages = [f64::from_bits(1), 1.0, 0.5];
    for out in [
        run(&MeanRenormalized, &windows, &coverages),
        run(&CoverageWeightedMean, &windows, &coverages),
        run(&SaliencyWeighted, &windows, &coverages),
        run(&EmaRenormalized::new(bits(0.999)), &windows, &coverages),
    ] {
        assert!(out.unwrap().iter().all(|x| x.is_finite()));
    }
}

#[test]
fn span_coverages_are_positive_fractions() {
    for (len, window) in [(1, usize::MAX), (usize::MAX - 1, usize::MAX), (7, 7), (1, 2)] {
        let c = float(ratio_to_f64(len, window));
        assert!(2f64.powi(-64) <= c && c <= 1.0);
        assert_eq!(c == 1.0, len == window);
    }
}

#[test]
fn no_windows_are_reported_as_empty_by_every_policy() {
    let empty: Result<Vec<f64>, WinditError> = Err(WinditError::Empty);
    assert_eq!(run(&MeanRenormalized, &[], &[]), empty);
    assert_eq!(run(&SaliencyWeighted, &[], &[]), empty);
    assert_eq!(run(&CoverageWeightedMean, &[], &[]), empty);
    assert_eq!(run(&EmaRenormalized::new(bits(0.25)), &[], &[]), empty);
}

#[test]
fn every_finite_vector_normalizes_to_unit_length() {
    let tiny = f64::from_bits(1);
    for v in [
        vec![f64::MAX, f64::MAX],
        vec![f64::MAX, -f64::MAX, f64::MAX / 2.0, 1.0],
        vec![f64::MAX; 1000],
        vec![tiny],
        vec![tiny, 0.0, -tiny],
        vec![f64::MIN_POSITIVE, tiny],
        vec![3e-310, -4e-310],
        vec![0.1; 777],
        vec![1e300, 1e-300],
    ] {
        let mut unit = all(&v);
        assert_eq!(l2_renorm(&mut unit), Ok(()));
        let energy: f64 = unit.iter().map(|&x| float(x) * float(x)).sum();
        let bound = (3 * v.len() + 42) as f64 * f64::EPSILON;
        assert!((energy - 1.0).abs() <= bound, "{energy} of {} components", v.len());
    }
    // The norm of the first overflows all the same.
    assert_eq!(float(l2_norm(&all(&[f64::MAX, f64::MAX]))), f64::INFINITY);
    // No direction: nothing, or what is not finite.
    for v in [vec![], vec![0.0, -0.0], vec![1.0, f64::INFINITY], vec![f64::NAN, 1.0]] {
        let mut unit = all(&v);
        assert_eq!(l2_renorm(&mut unit), Err(WinditError::NonFinite));
    }
}

#[test]
fn norms_are_within_their_roundings() {
    for n in [1usize, 2, 3, 10, 500] {
        for x in [1.0, 3.0, 2f64.powi(-500), 2f64.powi(900)] {
            // The exact sum of the squares is `n * x^2`.
            let norm = float(l2_norm(&all(&vec![x; n]))) / x;
            let bound = (2 * n + 32) as f64 * f64::EPSILON * n as f64;
            assert!((norm * norm - n as f64).abs() <= bound, "{norm} for {n} of {x:e}");
        }
    }
}

#[test]
fn no_scalars_need_no_allocation() {
    let values: [Binary64; 0] = [];
    assert_eq!(project(&values), Ok(Vec::new()));
    let codes: [i8; 0] = [];
    assert_eq!(project(&codes), Err(WinditError::MissingDequantization));
}
