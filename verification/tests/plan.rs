use windit::plan::{Span, TailPolicy, WindowOptions, WindowPlan};
use windit::ratio::{ratio_to_f64, NEAREST_BELOW_ONE};
use windit::WinditError;

/// The coverage of a span as an `f64`.
fn coverage(span: Span) -> f64 {
  f64::from_bits(span.coverage().to_bits())
}

/// The ratio of two counts as an `f64`.
fn ratio(numer: usize, denom: usize) -> f64 {
  f64::from_bits(ratio_to_f64(numer, denom).to_bits())
}

#[test]
fn exact_windows_no_overlap() {
  let o = WindowOptions::new(4);
  let s = WindowPlan::spans(&o, 12).unwrap();
  assert_eq!(s.len(), 3);
  assert_eq!((s[0].start(), s[0].len()), (0, 4));
  assert_eq!((s[2].start(), s[2].len()), (8, 4));
  assert_eq!(coverage(s[0]), 1.0);
}

#[test]
fn ragged_tail_keeps_partial_with_coverage() {
  let o = WindowOptions::new(4); // 10 elems -> [0..4],[4..8],[8..10 len2 cov .5]
  let s = WindowPlan::spans(&o, 10).unwrap();
  assert_eq!(s.len(), 3);
  assert_eq!((s[2].start(), s[2].len()), (8, 2));
  assert!((coverage(s[2]) - 0.5).abs() < 1e-6);
}

#[test]
fn overlap_hops_correctly() {
  let o = WindowOptions::new(4).with_overlap(2); // hop 2
  let s = WindowPlan::spans(&o, 8).unwrap(); // [0..4],[2..6],[4..8]
  assert_eq!(
    s.iter().map(|x| x.start()).collect::<Vec<_>>(),
    vec![0, 2, 4]
  );
}

#[test]
fn drop_below_min_drops_short_tail() {
  let o = WindowOptions::new(4).with_tail(TailPolicy::DropBelowMin(2));
  let s = WindowPlan::spans(&o, 9).unwrap(); // tail len 1 < 2 -> dropped
  assert_eq!(s.last().map(|x| (x.start(), x.len())), Some((4, 4)));
}

#[test]
fn fits_in_one_window_is_single_span() {
  let o = WindowOptions::new(512);
  let s = WindowPlan::spans(&o, 40).unwrap();
  assert_eq!(s.len(), 1);
  assert_eq!((s[0].start(), s[0].len()), (0, 40));
}

#[test]
fn max_windows_errors() {
  let o = WindowOptions::new(4).with_max_windows(2);
  assert!(matches!(
    WindowPlan::spans(&o, 100),
    Err(WinditError::TooManyWindows { .. })
  ));
}

#[test]
fn spans_no_overflow_near_usize_max() {
  // `input_len` within `window` of usize::MAX must not overflow the tail check
  // (a debug panic) nor wrap into an unbounded loop (release). The tail is
  // detected on the second window and packing stops.
  let opts = WindowOptions::new(usize::MAX - 10).with_hop(100);
  let s = WindowPlan::spans(&opts, usize::MAX - 5).unwrap();
  assert_eq!(s.len(), 2);
  assert_eq!((s[0].start(), s[1].start()), (0, 100));

  // A hop whose advance would overflow `start + hop` breaks cleanly instead of
  // panicking: two windows are placed, then the advance saturates and stops.
  let hop = usize::MAX / 2 + 1;
  let s = WindowPlan::spans(&WindowOptions::new(10).with_hop(hop), usize::MAX).unwrap();
  assert_eq!(s.len(), 2);
  assert_eq!((s[0].start(), s[1].start()), (0, hop));
}

#[test]
fn zero_window_and_bad_overlap_error() {
  assert!(matches!(
    WindowOptions::new(0).validate(),
    Err(WinditError::ZeroWindow)
  ));
}

#[test]
fn zero_window_span_is_unconstructible_so_coverage_stays_finite() {
  // A zero window is ruled out by `0 < len <= window` rather than by a separate
  // check, which is what lets `coverage` divide unguarded.
  assert!(matches!(
    Span::try_new(0, 5, 0),
    Err(WinditError::InvalidSpan {
      start: 0,
      len: 5,
      window: 0
    })
  ));
  assert!(matches!(
    Span::try_new(0, 0, 0),
    Err(WinditError::InvalidSpan { .. })
  ));

  let cov = coverage(Span::new(0, 1, 4));
  assert!(cov.is_finite() && cov > 0.0 && cov <= 1.0);
}

#[test]
fn span_new_exposes_geometry_through_accessors() {
  let span = Span::new(8, 3, 4);
  assert_eq!((span.start(), span.len(), span.window()), (8, 3, 4));
  assert!((coverage(span) - 0.75).abs() < 1e-6);
}

#[test]
fn coverage_past_f32_integer_range_is_the_exact_ratio() {
  let s = WindowPlan::spans(&WindowOptions::new(16_777_217), 16_777_216).unwrap();
  assert_eq!(s.len(), 1);
  assert_eq!((s[0].len(), s[0].window()), (16_777_216, 16_777_217));

  let cov = coverage(s[0]);
  assert!(
    cov < 1.0,
    "a tail one element short of the window must not report full coverage, got {cov:?}"
  );
  assert_eq!(
    cov,
    16_777_216.0 / 16_777_217.0,
    "coverage must be the exact ratio, not a ratio of rounded operands"
  );
}

#[test]
fn coverage_past_f64_integer_range_is_below_one_for_a_ragged_tail() {
  let len = 1_usize << 53;
  let window = len + 1;
  assert_eq!(
    len as f64, window as f64,
    "the premise: both operands cast to one f64"
  );

  let s = WindowPlan::spans(&WindowOptions::new(window), len).unwrap();
  assert_eq!(s.len(), 1);
  assert_eq!((s[0].len(), s[0].window()), (len, window));

  let cov = coverage(s[0]);
  assert!(
    cov < 1.0,
    "a tail one element short of a 2^53 + 1 window must not report full coverage, got {cov:?}"
  );
  assert_eq!(
    cov,
    f64::from_bits(0x3fef_ffff_ffff_ffff),
    "coverage must be the correctly rounded 2^53 / (2^53 + 1)"
  );
}

#[test]
fn coverage_past_f64_integer_range_is_correctly_rounded() {
  const ORACLE: [(usize, usize, u64); 10] = [
    (1, usize::MAX, 0x3bf0_0000_0000_0000),
    (1, (1 << 63) + 1, 0x3c00_0000_0000_0000),
    (3, (1 << 54) + 1, 0x3ca8_0000_0000_0000),
    (7, 1 << 60, 0x3c5c_0000_0000_0000),
    (usize::MAX / 3, usize::MAX, 0x3fd5_5555_5555_5555),
    ((1 << 53) - 1, (1 << 54) + 1, 0x3fdf_ffff_ffff_ffff),
    ((1 << 62) + 12_345, (1 << 63) - 7, 0x3fe0_0000_0000_000c),
    (1 << 55, (1 << 55) + 1024, 0x3fef_ffff_ffff_ff00),
    ((1 << 53) + 1, (1 << 53) + 3, 0x3fef_ffff_ffff_fffe),
    (1 << 53, (1 << 53) + 1, 0x3fef_ffff_ffff_ffff),
  ];
  for (len, window, bits) in ORACLE {
    let got = coverage(Span::new(0, len, window));
    assert_eq!(
      got.to_bits(),
      bits,
      "{len}/{window}: got {got:?} ({:#018x}), oracle {:?}",
      got.to_bits(),
      f64::from_bits(bits)
    );
  }
}

#[test]
fn the_integer_path_agrees_with_exact_operand_division() {
  let (mut checked, mut on_the_integer_path) = (0_u32, 0_u32);
  for window in 1_usize..=70 {
    for len in 1..=window {
      let direct = ratio(len, window);
      assert_eq!(
        direct,
        len as f64 / window as f64,
        "{len}/{window} must be the exact-operand quotient"
      );
      for k in [10, 50, 56] {
        let (l, w) = (len << k, window << k);
        let scaled = ratio(l, w);
        assert_eq!(
          scaled, direct,
          "{len}/{window} scaled by 2^{k} changed the ratio: {scaled:?} vs {direct:?}"
        );
        if w > 1 << 53 {
          on_the_integer_path += 1;
        }
      }
      checked += 1;
    }
  }
  assert_eq!(
    checked, 2485,
    "the sweep must cover every len <= window <= 70"
  );
  assert!(
    on_the_integer_path >= checked,
    "every geometry must reach the integer path at least once, got \
     {on_the_integer_path} integer-path checks over {checked} geometries"
  );
}

#[test]
fn a_ragged_span_never_reports_full_coverage() {
  for (len, window) in [
    ((1_usize << 54) - 1, 1_usize << 54),
    ((1 << 63) - 1, 1 << 63),
    (1 << 63, (1 << 63) + 1),
    (usize::MAX - 1, usize::MAX),
  ] {
    let cov = coverage(Span::new(0, len, window));
    assert_eq!(
      cov,
      f64::from_bits(NEAREST_BELOW_ONE),
      "{len}/{window} must saturate below one, got {cov:?}"
    );
    assert!(cov < 1.0);
  }

  // And the equivalence in the other direction, at the same windows: only a full
  // span reports `1.0`.
  for window in [1_usize, 4, (1 << 54) - 1, 1 << 54, usize::MAX] {
    assert_eq!(coverage(Span::new(0, window, window)), 1.0);
  }
}

#[test]
fn coverage_breaks_an_exact_tie_to_even() {
  for (len, window, bits) in [
    ((1_usize << 54) - 3, 1_usize << 54, 0x3fef_ffff_ffff_fffe),
    ((1 << 54) - 5, 1 << 54, 0x3fef_ffff_ffff_fffe),
    (14_001_415_880_023_897, 1 << 54, 0x3fe8_df1b_55f0_cfac),
  ] {
    let got = coverage(Span::new(0, len, window));
    assert_eq!(
      got.to_bits(),
      bits,
      "{len}/{window} is an exact tie and must round to even: got {got:?} ({:#018x})",
      got.to_bits()
    );
  }
}

#[test]
fn span_try_new_reports_the_same_invariant_as_a_typed_error() {
  for (start, len, window) in [(0, 2, 1), (0, 0, 4), (usize::MAX, 1, 1)] {
    assert_eq!(
      Span::try_new(start, len, window),
      Err(WinditError::InvalidSpan { start, len, window })
    );
  }

  let span = Span::try_new(8, 3, 4).unwrap();
  assert_eq!((span.start(), span.len(), span.window()), (8, 3, 4));
}

#[test]
fn span_end_is_exact_at_the_usize_boundary() {
  // The largest constructible span: its end is exactly `usize::MAX`, so `end`
  // neither wraps nor saturates away a real element.
  let span = Span::try_new(usize::MAX - 1, 1, 1).unwrap();
  assert_eq!(span.end(), usize::MAX);
  assert_eq!(Span::new(8, 3, 4).end(), 11);
}

#[test]
fn tail_policy_default_is_keep_with_coverage() {
  // The planner keeps a ragged tail rather than dropping or padding it.
  assert_eq!(TailPolicy::default(), TailPolicy::KeepWithCoverage);
}

#[test]
fn validation_reports_the_overlap_that_was_asked_for() {
  let stuck = WindowOptions::new(4).with_overlap(9);
  assert_eq!(stuck.hop(), 0);
  assert_eq!(stuck.overlap(), 4);
  assert_eq!(stuck.requested_overlap(), 9);
  let refusal = WinditError::OverlapGeWindow {
    overlap: 9,
    window: 4,
  };
  assert_eq!(stuck.validate(), Err(refusal));
  assert_eq!(WindowPlan::spans(&stuck, 10), Err(refusal));
  // The request survives the other builders.
  let dressed = stuck.with_tail(TailPolicy::PadFull).with_max_windows(3);
  assert_eq!(dressed.validate(), Err(refusal));

  // A hop takes the place of the request.
  let tiled = stuck.with_hop(4);
  assert_eq!(tiled.validate(), Ok(()));
  assert_eq!(tiled.requested_overlap(), 0);
  let whole = WinditError::OverlapGeWindow {
    overlap: 4,
    window: 4,
  };
  assert_eq!(stuck.with_hop(0).validate(), Err(whole));
  assert_eq!(WindowOptions::new(4).with_hop(0).validate(), Err(whole));
  assert_eq!(WindowOptions::new(4).with_overlap(4).validate(), Err(whole));

  // Two roads to one geometry are equal.
  assert_eq!(
    WindowOptions::new(4).with_overlap(3),
    WindowOptions::new(4).with_hop(1)
  );
  // So are two that plan alike, whatever overlap was asked for.
  assert_eq!(
    WindowOptions::new(4).with_overlap(4),
    WindowOptions::new(4).with_overlap(9)
  );
  assert_ne!(
    WindowOptions::new(4).with_overlap(4),
    WindowOptions::new(5).with_overlap(5)
  );
  assert_ne!(
    WindowOptions::new(4),
    WindowOptions::new(4).with_tail(TailPolicy::PadFull)
  );
  assert_ne!(
    WindowOptions::new(4),
    WindowOptions::new(4).with_max_windows(1)
  );
  // A zero window is reported ahead of the zero hop it implies.
  assert_eq!(
    WindowPlan::spans(&WindowOptions::new(0), 10),
    Err(WinditError::ZeroWindow)
  );
}

#[test]
fn builders_set_one_field_each() {
  let o = WindowOptions::new(8)
    .with_hop(3)
    .with_tail(TailPolicy::PadFull)
    .with_max_windows(7);
  assert_eq!((o.window(), o.hop(), o.overlap()), (8, 3, 5));
  assert_eq!(*o.tail(), TailPolicy::PadFull);
  assert_eq!(o.max_windows(), Some(7));
  assert_eq!(o.validate(), Ok(()));
  assert_eq!(WindowOptions::new(4).with_hop(9).overlap(), 0);
}

#[test]
fn empty_input_plans_nothing() {
  assert_eq!(WindowPlan::spans(&WindowOptions::new(4), 0), Ok(Vec::new()));
  // A sole window below the minimum leaves nothing either.
  let o = WindowOptions::new(4).with_tail(TailPolicy::DropBelowMin(3));
  assert_eq!(WindowPlan::spans(&o, 2), Ok(Vec::new()));
  // A full window is kept whatever the minimum.
  let o = WindowOptions::new(4).with_tail(TailPolicy::DropBelowMin(9));
  assert_eq!(WindowPlan::spans(&o, 4), Ok(vec![Span::new(0, 4, 4)]));
}

#[test]
fn the_cap_reports_one_past_itself() {
  let o = WindowOptions::new(4).with_max_windows(2);
  assert_eq!(
    WindowPlan::spans(&o, 100),
    Err(WinditError::TooManyWindows { got: 3, max: 2 })
  );
  assert_eq!(WindowPlan::spans(&o, 8).unwrap().len(), 2);
  // A dropped tail does not count against the cap.
  let o = o.with_tail(TailPolicy::DropBelowMin(2));
  assert_eq!(WindowPlan::spans(&o, 9).unwrap().len(), 2);
}

#[test]
fn an_unservable_plan_is_an_allocation_failure() {
  let o = WindowOptions::new(1);
  assert_eq!(
    WindowPlan::spans(&o, usize::MAX),
    Err(WinditError::AllocFailed {
      elements: usize::MAX
    })
  );
  // A cap keeps the reservation, and so the answer, at the cap.
  let capped = o.with_max_windows(5);
  assert_eq!(
    WindowPlan::spans(&capped, usize::MAX),
    Err(WinditError::TooManyWindows { got: 6, max: 5 })
  );
  assert_eq!(
    WindowPlan::spans_into(&capped, 100, None),
    Err(WinditError::AllocFailed { elements: 6 })
  );
  assert_eq!(
    WindowPlan::spans_into(&WindowOptions::new(4), 10, None),
    Err(WinditError::AllocFailed { elements: 3 })
  );
  // Whatever is in the buffer is replaced by the plan.
  let buffer = vec![Span::new(7, 1, 1)];
  assert_eq!(
    WindowPlan::spans_into(&WindowOptions::new(4), 4, Some(buffer)),
    Ok(vec![Span::new(0, 4, 4)])
  );
}

#[test]
fn every_element_is_covered_when_the_hop_fits_the_window() {
  for window in 1..=6usize {
    for hop in 1..=window {
      for input_len in 0..=25usize {
        let spans = WindowPlan::spans(&WindowOptions::new(window).with_hop(hop), input_len).unwrap();
        for x in 0..input_len {
          assert!(
            spans.iter().any(|s| s.start() <= x && x < s.end()),
            "window {window} hop {hop} input {input_len} misses {x}"
          );
        }
        for (k, s) in spans.iter().enumerate() {
          assert_eq!(s.start(), k * hop);
          assert!(s.end() <= input_len);
          assert!(k + 1 == spans.len() || s.len() == window);
        }
      }
    }
  }
}

#[test]
fn a_wide_hop_leaves_gaps() {
  let spans = WindowPlan::spans(&WindowOptions::new(2).with_hop(5), 12).unwrap();
  let starts: Vec<usize> = spans.iter().map(|s| s.start()).collect();
  assert_eq!(starts, vec![0, 5, 10]);
  for x in [2usize, 3, 4, 7, 8, 9] {
    assert!(spans.iter().all(|s| x < s.start() || s.end() <= x));
  }
}

#[test]
fn padding_and_keeping_plan_the_same_spans() {
  let keep = WindowOptions::new(4);
  let pad = keep.with_tail(TailPolicy::PadFull);
  for input_len in 0..20usize {
    assert_eq!(
      WindowPlan::spans(&keep, input_len),
      WindowPlan::spans(&pad, input_len)
    );
  }
}

#[test]
fn coverage_grows_with_the_real_length() {
  for window in [7usize, 1000, (1 << 54) + 3, usize::MAX] {
    let mut last = 0.0;
    for len in 1..=7usize {
      let cov = coverage(Span::new(0, len, window));
      assert!(cov > last && cov <= 1.0);
      last = cov;
    }
    let near = coverage(Span::new(0, window - 1, window));
    assert!(near < 1.0 && near >= last - 1e-9 || window == 7);
  }
}

#[test]
fn the_constructors_of_a_span_agree() {
  for (start, len, window) in [(0, 1, 1), (8, 3, 4), (usize::MAX - 1, 1, 1), (5, 4, usize::MAX)] {
    assert_eq!(
      Span::try_new(start, len, window),
      Ok(Span::new(start, len, window))
    );
  }
  for (start, len, window) in [(0, 2, 1), (0, 0, 4), (usize::MAX, 1, 1)] {
    assert_eq!(
      Span::try_new(start, len, window),
      Err(WinditError::InvalidSpan { start, len, window })
    );
  }
}
