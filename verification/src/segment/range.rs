//! Element ranges and the morphology options that shape them.
use vstd::prelude::*;

use crate::error::WinditError;

verus! {

/// A half-open range of input elements, `[start, end)`.
///
/// Units are input elements (samples, tokens, patches, frames), the same units as
/// [`Span`](crate::plan::Span), so a range is independent of the window geometry
/// that produced it. A well-formed range has `start <= end`.
#[derive(Clone, Copy, Debug, PartialEq, Eq, Hash, Structural)]
pub struct Range {
    start: usize,
    end: usize,
}

impl Range {
    /// The range invariant: the bounds are in order.
    #[verifier::type_invariant]
    pub open spec fn wf(self) -> bool {
        self.start() <= self.end()
    }

    /// The range with the given bounds.
    pub closed spec fn of(start: usize, end: usize) -> Range {
        Range { start, end }
    }

    /// The first element.
    pub closed spec fn spec_start(&self) -> usize {
        self.start
    }

    /// One past the last element.
    pub closed spec fn spec_end(&self) -> usize {
        self.end
    }

    /// The number of elements the range covers.
    pub open spec fn spec_len(&self) -> usize {
        if self.start() <= self.end() {
            (self.end() - self.start()) as usize
        } else {
            0
        }
    }

    /// Whether the range covers input element `x`.
    pub open spec fn covers(self, x: int) -> bool {
        self.start() <= x < self.end()
    }

    /// The half-open range covering the elements from `start` up to (but not
    /// including) `end`.
    ///
    /// Use [`try_new`](Range::try_new) to handle untrusted bounds instead.
    #[must_use]
    pub fn new(start: usize, end: usize) -> (r: Range)
        requires
            start <= end,
        ensures
            r == Range::of(start, end),
            r.start() == start,
            r.end() == end,
    {
        Range { start, end }
    }

    /// The checked counterpart of [`new`](Range::new): validate the bounds.
    ///
    /// Returns [`WinditError::InvalidRange`] if `start > end`.
    pub fn try_new(start: usize, end: usize) -> (r: Result<Range, WinditError>)
        ensures
            r == (if start <= end {
                Ok::<Range, WinditError>(Range::of(start, end))
            } else {
                Err::<Range, WinditError>(WinditError::InvalidRange { start, end })
            }),
            r matches Ok(range) ==> range.start() == start && range.end() == end,
    {
        if start > end {
            return Err(WinditError::InvalidRange { start, end });
        }
        Ok(Range { start, end })
    }

    /// The first element in the range.
    #[verifier::when_used_as_spec(spec_start)]
    #[must_use]
    pub fn start(&self) -> (r: usize)
        ensures
            r == self.start(),
    {
        self.start
    }

    /// One past the last element in the range.
    #[verifier::when_used_as_spec(spec_end)]
    #[must_use]
    pub fn end(&self) -> (r: usize)
        ensures
            r == self.end(),
    {
        self.end
    }

    /// The number of elements the range covers: `end - start`.
    #[verifier::when_used_as_spec(spec_len)]
    #[must_use]
    pub fn len(&self) -> (r: usize)
        ensures
            r == self.len(),
            r == self.end() - self.start(),
    {
        proof {
            use_type_invariant(self);
        }
        self.end.saturating_sub(self.start)
    }

    /// Whether the range covers no elements (`start >= end`).
    #[must_use]
    pub fn is_empty(&self) -> (r: bool)
        ensures
            r == (self.start() >= self.end()),
            r == (self.len() == 0),
    {
        self.start >= self.end
    }
}

/// A range has the bounds it was given.
pub broadcast proof fn ranges_have_their_bounds(start: usize, end: usize)
    ensures
        (#[trigger] Range::of(start, end)).start() == start,
        Range::of(start, end).end() == end,
{
}

/// The two constructors agree: what [`Range::try_new`] accepts, [`Range::new`] may be given, and
/// both make the same range of it; what it rejects is not well formed, so no range is made.
pub proof fn range_constructors_agree(
    start: usize,
    end: usize,
    checked: Result<Range, WinditError>,
    range: Range,
)
    requires
        call_ensures(Range::try_new, (start, end), checked),
    ensures
        checked is Ok ==> call_requires(Range::new, (start, end)),
        checked is Ok && call_ensures(Range::new, (start, end), range) ==> checked == Ok::<
            Range,
            WinditError,
        >(range),
        checked is Err ==> (range.start() != start || range.end() != end || !range.wf()),
{
}

/// Post-processing applied to raw runs: gap merging and minimum length.
///
/// Both values are in input elements. Construct with [`SegmentOptions::new`]
/// (keep everything, merge only touching runs) and refine with the `with_*`
/// builders.
#[derive(Clone, Copy, Debug, PartialEq, Eq, Hash)]
pub struct SegmentOptions {
    min_len: usize,
    merge_gap: usize,
}

impl SegmentOptions {
    /// The minimum kept run length.
    pub closed spec fn spec_min_len(&self) -> usize {
        self.min_len
    }

    /// The largest inter-run gap to bridge.
    pub closed spec fn spec_merge_gap(&self) -> usize {
        self.merge_gap
    }

    /// Options that keep every run and merge only touching or overlapping runs
    /// (`min_len == 0`, `merge_gap == 0`).
    #[must_use]
    pub fn new() -> (r: SegmentOptions)
        ensures
            r.min_len() == 0,
            r.merge_gap() == 0,
    {
        SegmentOptions { min_len: 0, merge_gap: 0 }
    }

    /// Set the minimum kept run length, in input elements.
    #[must_use]
    pub fn with_min_len(self, min_len: usize) -> (r: SegmentOptions)
        ensures
            r.min_len() == min_len,
            r.merge_gap() == self.merge_gap(),
    {
        SegmentOptions { min_len, ..self }
    }

    /// Set the largest inter-run gap to bridge, in input elements.
    #[must_use]
    pub fn with_merge_gap(self, merge_gap: usize) -> (r: SegmentOptions)
        ensures
            r.min_len() == self.min_len(),
            r.merge_gap() == merge_gap,
    {
        SegmentOptions { merge_gap, ..self }
    }

    /// The minimum kept run length, in input elements.
    #[verifier::when_used_as_spec(spec_min_len)]
    #[must_use]
    pub fn min_len(&self) -> (r: usize)
        ensures
            r == self.min_len(),
    {
        self.min_len
    }

    /// The largest inter-run gap to bridge, in input elements.
    #[verifier::when_used_as_spec(spec_merge_gap)]
    #[must_use]
    pub fn merge_gap(&self) -> (r: usize)
        ensures
            r == self.merge_gap(),
    {
        self.merge_gap
    }
}

impl Default for SegmentOptions {
    fn default() -> (r: Self)
        ensures
            r.min_len() == 0,
            r.merge_gap() == 0,
    {
        SegmentOptions::new()
    }
}

/// The options hold what they are given, and the ones not given stay as they were.
pub proof fn segment_options_are_kept(
    opts: SegmentOptions,
    n: usize,
    plain: SegmentOptions,
    by_len: SegmentOptions,
    by_gap: SegmentOptions,
)
    requires
        call_ensures(SegmentOptions::new, (), plain),
        call_ensures(SegmentOptions::with_min_len, (opts, n), by_len),
        call_ensures(SegmentOptions::with_merge_gap, (opts, n), by_gap),
    ensures
        plain.min_len() == 0 && plain.merge_gap() == 0,
        by_len.min_len() == n && by_len.merge_gap() == opts.merge_gap(),
        by_gap.merge_gap() == n && by_gap.min_len() == opts.min_len(),
{
}

} // verus!
