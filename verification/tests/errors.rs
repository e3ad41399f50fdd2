use windit::WinditError;

#[test]
fn every_error_has_its_message() {
    for (error, text) in [
        (WinditError::ZeroWindow, "window size must be non-zero"),
        (
            WinditError::OverlapGeWindow { overlap: 7, window: 4 },
            "overlap 7 must be less than the window size 4",
        ),
        (
            WinditError::TooManyWindows { got: 11, max: 10 },
            "produced 11 windows, exceeding the maximum of 10",
        ),
        (
            WinditError::InvalidSpan { start: 1, len: 0, window: 3 },
            "span (start 1, len 0, window 3) must satisfy 0 < len <= window with a representable start + len",
        ),
        (
            WinditError::InvalidRange { start: 9, end: 8 },
            "range start 9 must not exceed its end 8",
        ),
        (
            WinditError::NonMonotonicSpan { prev_start: 5, start: 4 },
            "span start 4 precedes the previous span start 5",
        ),
        (
            WinditError::InvalidVote { need: 3, of: 2 },
            "vote counts (need 3, of 2) must satisfy 1 <= need <= of <= 64",
        ),
        (
            WinditError::DimMismatch { got: 2, expected: 3 },
            "dimension 2 does not match the expected 3",
        ),
        (
            WinditError::NonFinite,
            "embedding could not be normalized to a finite unit vector",
        ),
        (
            WinditError::MagnitudeOutOfRange { window: 1, component: 2 },
            "component 2 of window 1 is outside the supported magnitude range",
        ),
        (
            WinditError::CoverageOutOfRange { window: 6 },
            "coverage of window 6 must be a finite fraction in [0, 1]",
        ),
        (
            WinditError::MissingDequantization,
            "quantization codes need a dequantizing projection",
        ),
        (
            WinditError::AlphaOutOfRange,
            "EMA smoothing factor alpha must be in [0, 1]",
        ),
        (WinditError::Empty, "input sequence was empty"),
        (
            WinditError::AllocFailed { elements: usize::MAX },
            "could not allocate a buffer of 18446744073709551615 elements",
        ),
    ] {
        assert_eq!(error.message(), text);
    }
}

#[test]
fn counts_are_written_in_decimal() {
    for n in [0usize, 1, 9, 10, 99, 100, 12345, usize::MAX] {
        let text = WinditError::AllocFailed { elements: n }.message();
        assert_eq!(text, format!("could not allocate a buffer of {n} elements"));
    }
}
