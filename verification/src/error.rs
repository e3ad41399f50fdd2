//! The crate-wide error type and its messages.
use vstd::prelude::*;

verus! {

/// An error produced by window planning, pre-processing, embedding
/// normalization, aggregation, or segmentation.
///
/// Every fallible operation in the crate returns this type. Variants carry the
/// offending values so callers can report or recover without re-deriving them.
///
/// The enum is `#[non_exhaustive]`: callers outside this crate must match with a
/// wildcard arm.
#[derive(Clone, Copy, Debug, PartialEq, Eq, Structural)]
#[non_exhaustive]
pub enum WinditError {
    /// The configured window size was zero, so no geometry can be produced.
    ZeroWindow,
    /// The requested overlap was greater than or equal to the window size, which
    /// would leave the hop at zero and never advance the plan.
    OverlapGeWindow {
        /// The requested overlap, in elements.
        overlap: usize,
        /// The window size the overlap must stay strictly below, in elements.
        window: usize,
    },
    /// Planning produced more windows than the configured `max_windows` cap.
    TooManyWindows {
        /// The window count at which planning aborted: always the configured
        /// maximum plus one, not the size of the full (unbounded) plan.
        got: usize,
        /// The configured maximum.
        max: usize,
    },
    /// A span was not well formed: it covered no real element, covered more than
    /// its window, or its end (`start + len`) was not representable as a `usize`.
    InvalidSpan {
        /// The rejected start, in input elements.
        start: usize,
        /// The rejected count of real elements.
        len: usize,
        /// The window the length must stay within, in elements.
        window: usize,
    },
    /// A range was inverted: its start lay past its end.
    InvalidRange {
        /// The rejected start, in input elements.
        start: usize,
        /// The rejected end, in input elements.
        end: usize,
    },
    /// A span started strictly before the span pushed ahead of it.
    NonMonotonicSpan {
        /// The start of the previous span, in input elements.
        prev_start: usize,
        /// The offending start, in input elements.
        start: usize,
    },
    /// The counts of a voting gate did not satisfy `1 <= need <= of <= 64`.
    InvalidVote {
        /// The rejected required-true count.
        need: usize,
        /// The rejected vote window length.
        of: usize,
    },
    /// Two quantities that had to share a dimension did not: for example an
    /// embedding whose length differed from its peers, or a span that ran past
    /// the elements it was applied to.
    DimMismatch {
        /// The dimension (or length) that was found.
        got: usize,
        /// The dimension (or length) that was expected.
        expected: usize,
    },
    /// An embedding could not be normalized to a finite unit vector: a component
    /// was not finite, or the vector had zero norm.
    NonFinite,
    /// A nonzero embedding component was too small or too large in magnitude for
    /// the aggregation arithmetic.
    MagnitudeOutOfRange {
        /// The index of the window the component belongs to.
        window: usize,
        /// The index of the component in its embedding.
        component: usize,
    },
    /// A coverage was not a finite fraction in `[0, 1]`.
    CoverageOutOfRange {
        /// The index of the window the coverage belongs to.
        window: usize,
    },
    /// A vector of quantization codes was projected into the compute domain
    /// without the scale that turns a code into a value.
    MissingDequantization,
    /// An exponential-moving-average smoothing factor (`alpha`) was outside the
    /// valid `[0, 1]` range, or was not a number.
    AlphaOutOfRange,
    /// The input sequence was empty where at least one element was required.
    Empty,
    /// A buffer whose size is set by the caller's geometry could not be allocated:
    /// the requested element count exceeded what the allocator can address, or the
    /// allocation was refused.
    ///
    /// A window size and a planned input length are both caller-controlled counts
    /// that need not correspond to memory that exists, so a geometry can be entirely
    /// well formed, with every span in bounds, and still name more elements than can
    /// be buffered. The `try_` entry points report that here rather than panicking on
    /// a capacity overflow; the infallible ones document the panic instead.
    AllocFailed {
        /// The number of elements the buffer would have held.
        elements: usize,
    },
}

/// The character of the decimal digit `d`.
pub open spec fn digit_char(d: nat) -> char {
    ('0' as nat + d) as char
}

/// `n` in decimal, without leading zeros.
pub open spec fn decimal(n: nat) -> Seq<char>
    decreases n,
{
    if n < 10 {
        seq![digit_char(n)]
    } else {
        decimal(n / 10).push(digit_char(n % 10))
    }
}

/// The number that a sequence of decimal digits denotes.
pub open spec fn decimal_value(s: Seq<char>) -> nat
    decreases s.len(),
{
    if s.len() == 0 {
        0
    } else {
        10 * decimal_value(s.drop_last()) + (s.last() as nat - '0' as nat) as nat
    }
}

/// Reading a decimal rendering back gives the number that was rendered, so two
/// numbers never share a rendering.
pub proof fn decimal_reads_back(n: nat)
    ensures
        decimal_value(decimal(n)) == n,
    decreases n,
{
    reveal_with_fuel(decimal_value, 2);
    if n < 10 {
        assert(decimal(n).drop_last() =~= Seq::<char>::empty());
    } else {
        decimal_reads_back(n / 10);
        assert(decimal(n).drop_last() =~= decimal(n / 10));
    }
}

/// The one-character string of the digit `d`.
fn digit_str(d: usize) -> (s: &'static str)
    requires
        d < 10,
    ensures
        s@ == seq![digit_char(d as nat)],
{
    proof {
        reveal_strlit("0");
        reveal_strlit("1");
        reveal_strlit("2");
        reveal_strlit("3");
        reveal_strlit("4");
        reveal_strlit("5");
        reveal_strlit("6");
        reveal_strlit("7");
        reveal_strlit("8");
        reveal_strlit("9");
    }
    if d == 0 {
        "0"
    } else if d == 1 {
        "1"
    } else if d == 2 {
        "2"
    } else if d == 3 {
        "3"
    } else if d == 4 {
        "4"
    } else if d == 5 {
        "5"
    } else if d == 6 {
        "6"
    } else if d == 7 {
        "7"
    } else if d == 8 {
        "8"
    } else {
        "9"
    }
}

/// Append `n` in decimal.
fn append_decimal(out: &mut String, n: usize)
    ensures
        final(out)@ == old(out)@ + decimal(n as nat),
    decreases n,
{
    if n >= 10 {
        append_decimal(out, n / 10);
    }
    out.append(digit_str(n % 10));
    assert(out@ =~= old(out)@ + decimal(n as nat));
}

impl WinditError {
    /// The human-readable message of the error.
    pub open spec fn text(self) -> Seq<char> {
        match self {
            WinditError::ZeroWindow => "window size must be non-zero"@,
            WinditError::OverlapGeWindow { overlap, window } => "overlap "@ + decimal(
                overlap as nat,
            ) + " must be less than the window size "@ + decimal(window as nat),
            WinditError::TooManyWindows { got, max } => "produced "@ + decimal(got as nat)
                + " windows, exceeding the maximum of "@ + decimal(max as nat),
            WinditError::InvalidSpan { start, len, window } => "span (start "@ + decimal(
                start as nat,
            ) + ", len "@ + decimal(len as nat) + ", window "@ + decimal(window as nat)
                + ") must satisfy 0 < len <= window with a representable start + len"@,
            WinditError::InvalidRange { start, end } => "range start "@ + decimal(start as nat)
                + " must not exceed its end "@ + decimal(end as nat),
            WinditError::NonMonotonicSpan { prev_start, start } => "span start "@ + decimal(
                start as nat,
            ) + " precedes the previous span start "@ + decimal(prev_start as nat),
            WinditError::InvalidVote { need, of } => "vote counts (need "@ + decimal(need as nat)
                + ", of "@ + decimal(of as nat) + ") must satisfy 1 <= need <= of <= 64"@,
            WinditError::DimMismatch { got, expected } => "dimension "@ + decimal(got as nat)
                + " does not match the expected "@ + decimal(expected as nat),
            WinditError::NonFinite =>
                "embedding could not be normalized to a finite unit vector"@,
            WinditError::MagnitudeOutOfRange { window, component } => "component "@ + decimal(
                component as nat,
            ) + " of window "@ + decimal(window as nat)
                + " is outside the supported magnitude range"@,
            WinditError::CoverageOutOfRange { window } => "coverage of window "@ + decimal(
                window as nat,
            ) + " must be a finite fraction in [0, 1]"@,
            WinditError::MissingDequantization =>
                "quantization codes need a dequantizing projection"@,
            WinditError::AlphaOutOfRange => "EMA smoothing factor alpha must be in [0, 1]"@,
            WinditError::Empty => "input sequence was empty"@,
            WinditError::AllocFailed { elements } => "could not allocate a buffer of "@ + decimal(
                elements as nat,
            ) + " elements"@,
        }
    }

    /// The human-readable message of the error.
    pub fn message(&self) -> (out: String)
        ensures
            out@ == self.text(),
    {
        let mut out = String::new();
        match self {
            WinditError::ZeroWindow => out.append("window size must be non-zero"),
            WinditError::OverlapGeWindow { overlap, window } => {
                out.append("overlap ");
                append_decimal(&mut out, *overlap);
                out.append(" must be less than the window size ");
                append_decimal(&mut out, *window);
            },
            WinditError::TooManyWindows { got, max } => {
                out.append("produced ");
                append_decimal(&mut out, *got);
                out.append(" windows, exceeding the maximum of ");
                append_decimal(&mut out, *max);
            },
            WinditError::InvalidSpan { start, len, window } => {
                out.append("span (start ");
                append_decimal(&mut out, *start);
                out.append(", len ");
                append_decimal(&mut out, *len);
                out.append(", window ");
                append_decimal(&mut out, *window);
                out.append(") must satisfy 0 < len <= window with a representable start + len");
            },
            WinditError::InvalidRange { start, end } => {
                out.append("range start ");
                append_decimal(&mut out, *start);
                out.append(" must not exceed its end ");
                append_decimal(&mut out, *end);
            },
            WinditError::NonMonotonicSpan { prev_start, start } => {
                out.append("span start ");
                append_decimal(&mut out, *start);
                out.append(" precedes the previous span start ");
                append_decimal(&mut out, *prev_start);
            },
            WinditError::InvalidVote { need, of } => {
                out.append("vote counts (need ");
                append_decimal(&mut out, *need);
                out.append(", of ");
                append_decimal(&mut out, *of);
                out.append(") must satisfy 1 <= need <= of <= 64");
            },
            WinditError::DimMismatch { got, expected } => {
                out.append("dimension ");
                append_decimal(&mut out, *got);
                out.append(" does not match the expected ");
                append_decimal(&mut out, *expected);
            },
            WinditError::NonFinite => out.append(
                "embedding could not be normalized to a finite unit vector",
            ),
            WinditError::MagnitudeOutOfRange { window, component } => {
                out.append("component ");
                append_decimal(&mut out, *component);
                out.append(" of window ");
                append_decimal(&mut out, *window);
                out.append(" is outside the supported magnitude range");
            },
            WinditError::CoverageOutOfRange { window } => {
                out.append("coverage of window ");
                append_decimal(&mut out, *window);
                out.append(" must be a finite fraction in [0, 1]");
            },
            WinditError::MissingDequantization => out.append(
                "quantization codes need a dequantizing projection",
            ),
            WinditError::AlphaOutOfRange => out.append(
                "EMA smoothing factor alpha must be in [0, 1]",
            ),
            WinditError::Empty => out.append("input sequence was empty"),
            WinditError::AllocFailed { elements } => {
                out.append("could not allocate a buffer of ");
                append_decimal(&mut out, *elements);
                out.append(" elements");
            },
        }
        assert(out@ =~= self.text());
        out
    }
}

/// A decimal rendering has no leading zero but for zero itself, and is made of digits.
pub proof fn decimals_are_plain(n: nat)
    ensures
        decimal(n).len() > 0,
        n > 0 ==> decimal(n)[0] != '0',
        n == 0 ==> decimal(n) == seq!['0'],
        forall|i: int| 0 <= i < decimal(n).len() ==> '0' <= #[trigger] decimal(n)[i] <= '9',
    decreases n,
{
    if n >= 10 {
        decimals_are_plain(n / 10);
    }
}

/// What the messages with numbers say: which number stands where.
pub proof fn messages_name_their_numbers(a: usize, b: usize, c: usize)
    ensures
        (WinditError::OverlapGeWindow { overlap: a, window: b }).text() == "overlap "@ + decimal(
            a as nat,
        ) + " must be less than the window size "@ + decimal(b as nat),
        (WinditError::TooManyWindows { got: a, max: b }).text() == "produced "@ + decimal(a as nat)
            + " windows, exceeding the maximum of "@ + decimal(b as nat),
        (WinditError::InvalidSpan { start: a, len: b, window: c }).text() == "span (start "@
            + decimal(a as nat) + ", len "@ + decimal(b as nat) + ", window "@ + decimal(c as nat)
            + ") must satisfy 0 < len <= window with a representable start + len"@,
        (WinditError::InvalidRange { start: a, end: b }).text() == "range start "@ + decimal(
            a as nat,
        ) + " must not exceed its end "@ + decimal(b as nat),
        (WinditError::NonMonotonicSpan { prev_start: a, start: b }).text() == "span start "@
            + decimal(b as nat) + " precedes the previous span start "@ + decimal(a as nat),
        (WinditError::InvalidVote { need: a, of: b }).text() == "vote counts (need "@ + decimal(
            a as nat,
        ) + ", of "@ + decimal(b as nat) + ") must satisfy 1 <= need <= of <= 64"@,
        (WinditError::DimMismatch { got: a, expected: b }).text() == "dimension "@ + decimal(
            a as nat,
        ) + " does not match the expected "@ + decimal(b as nat),
        (WinditError::MagnitudeOutOfRange { window: a, component: b }).text() == "component "@
            + decimal(b as nat) + " of window "@ + decimal(a as nat)
            + " is outside the supported magnitude range"@,
        (WinditError::CoverageOutOfRange { window: a }).text() == "coverage of window "@ + decimal(
            a as nat,
        ) + " must be a finite fraction in [0, 1]"@,
        (WinditError::AllocFailed { elements: a }).text() == "could not allocate a buffer of "@
            + decimal(a as nat) + " elements"@,
{
}

} // verus!
