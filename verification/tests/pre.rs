use windit::plan::{Span, WindowOptions, WindowPlan};
use windit::pre::{slice_pad_mask, slice_pad_mask_into, try_slice_pad_mask};
use windit::WinditError;

#[test]
fn full_window_all_real() {
  let s = Span::new(0, 4, 4);
  let (w, m) = slice_pad_mask(&[1, 2, 3, 4, 5], &s, 0);
  assert_eq!(w, vec![1, 2, 3, 4]);
  assert_eq!(m, vec![1, 1, 1, 1]);
}

#[test]
fn partial_window_right_padded_masked() {
  let s = Span::new(8, 2, 4);
  let (w, m) = slice_pad_mask(&[0; 10], &s, 7);
  assert_eq!(w.len(), 4);
  assert_eq!(m, vec![1, 1, 0, 0]);
  assert_eq!(&w[2..], &[7, 7]);
}

#[test]
fn try_variant_errors_on_oob() {
  let s = Span::new(9, 4, 4);
  assert!(try_slice_pad_mask(&[0; 10], &s, 0i32).is_err());
}

#[test]
fn unrepresentable_span_end_never_reaches_the_slice() {
  // This geometry would wrap `start + len`; it is rejected where it is built.
  assert!(matches!(
    Span::try_new(usize::MAX, 1, 1),
    Err(WinditError::InvalidSpan { .. })
  ));

  // The largest span that does exist runs past any real slice, so the checked
  // entry point reports the mismatch with the exact required length rather than
  // wrapping into a length that would appear to fit.
  let s = Span::try_new(usize::MAX - 1, 1, 1).unwrap();
  assert_eq!(
    try_slice_pad_mask(&[0u8; 4], &s, 0),
    Err(WinditError::DimMismatch {
      got: 4,
      expected: usize::MAX
    })
  );
}

#[test]
fn try_variant_ok_matches_unchecked() {
  let s = Span::new(8, 2, 4);
  let checked = try_slice_pad_mask(&[0; 10], &s, 7).unwrap();
  let unchecked = slice_pad_mask(&[0; 10], &s, 7);
  assert_eq!(checked, unchecked);
}

#[test]
fn values_and_mask_line_up() {
  let s = Span::new(1, 2, 5);
  let (w, m) = slice_pad_mask(&[10, 11, 12, 13], &s, 9);
  assert_eq!(w, vec![11, 12, 9, 9, 9]);
  assert_eq!(m, vec![1, 1, 0, 0, 0]);
  assert_eq!(
    try_slice_pad_mask(&[10, 11], &s, 9),
    Err(WinditError::DimMismatch {
      got: 2,
      expected: 3
    })
  );
}

#[test]
fn a_window_that_cannot_be_buffered_is_reported() {
  // Well formed and in bounds, but no mask of that many bytes exists.
  let s = Span::new(0, 4, usize::MAX);
  assert_eq!(
    try_slice_pad_mask(&[0u8; 4], &s, 0),
    Err(WinditError::AllocFailed {
      elements: usize::MAX
    })
  );
  // The values, eight bytes each, do not fit where the mask alone might.
  let window = usize::MAX / 2;
  assert_eq!(
    try_slice_pad_mask(&[0u64; 4], &Span::new(0, 4, window), 0),
    Err(WinditError::AllocFailed { elements: window })
  );
  // Running past the elements is reported first.
  assert_eq!(
    try_slice_pad_mask(&[0u8; 3], &s, 0),
    Err(WinditError::DimMismatch {
      got: 3,
      expected: 4
    })
  );
}

#[test]
fn padding_answers_for_the_buffers_it_is_given() {
  let s = Span::new(1, 2, 4);
  let elements = [5, 6, 7];
  assert_eq!(
    slice_pad_mask_into(&elements, &s, 9, Some(vec![1, 2]), Some(vec![3])),
    Ok((vec![6, 7, 9, 9], vec![1, 1, 0, 0]))
  );
  let refused = Err(WinditError::AllocFailed { elements: 4 });
  assert_eq!(
    slice_pad_mask_into(&elements, &s, 9, None, Some(Vec::new())),
    refused
  );
  assert_eq!(
    slice_pad_mask_into(&elements, &s, 9, Some(Vec::new()), None),
    refused
  );
  assert_eq!(
    slice_pad_mask_into(&elements, &Span::new(2, 2, 4), 9, None, None),
    Err(WinditError::DimMismatch {
      got: 3,
      expected: 4
    })
  );
}

#[test]
fn tiled_windows_give_the_input_back() {
  for len in 0..20usize {
    let elements: Vec<usize> = (100..100 + len).collect();
    for window in 1..8 {
      let spans = WindowPlan::spans(&WindowOptions::new(window), len).unwrap();
      let mut back = Vec::new();
      for s in &spans {
        let (values, mask) = slice_pad_mask(&elements, s, 7);
        assert!(mask.iter().all(|&m| m == 0 || m == 1));
        back.extend(values.iter().zip(&mask).filter(|p| *p.1 == 1).map(|p| *p.0));
      }
      assert_eq!(back, elements, "window {window} over {len}");
    }
  }
}
