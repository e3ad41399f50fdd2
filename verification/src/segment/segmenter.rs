//! The incremental run builder.
use vstd::prelude::*;

use crate::error::WinditError;
use crate::plan::Span;
use crate::segment::range::{Range, SegmentOptions};
use crate::segment::tail::SegmentTail;

verus! {

broadcast use crate::segment::range::ranges_have_their_bounds;

/// The number of elements between a range that ends at `end` and one that starts
/// at `start`; overlapping and touching ranges have none.
pub open spec fn gap(end: usize, start: usize) -> usize {
    if start > end {
        (start - end) as usize
    } else {
        0
    }
}

/// The larger of two ends.
pub open spec fn later(a: usize, b: usize) -> usize {
    if a >= b {
        a
    } else {
        b
    }
}

/// The state of a [`Segmenter`].
pub struct SegmenterView {
    /// The morphology options.
    pub opts: SegmentOptions,
    /// The run that accepted spans are extending.
    pub open: Option<Range>,
    /// The merged closed runs, waiting for a run that may still merge into them.
    pub pending: Option<Range>,
    /// The start of the last span.
    pub last_start: Option<usize>,
}

impl SegmenterView {
    /// The state before any span.
    pub open spec fn fresh(opts: SegmentOptions) -> SegmenterView {
        SegmenterView { opts, open: None, pending: None, last_start: None }
    }

    /// Well-formed ranges, a last start behind an open run, and an open run that
    /// will merge into what is pending: at most one range is ever outstanding.
    pub open spec fn wf(self) -> bool {
        &&& self.open matches Some(run) ==> run.wf() && self.last_start is Some && run.start()
            <= self.last_start->Some_0
        &&& self.pending matches Some(p) ==> p.wf()
        &&& (self.open matches Some(run) && self.pending matches Some(p)) ==> gap(
            self.pending->Some_0.end(),
            self.open->Some_0.start(),
        ) <= self.opts.merge_gap()
    }

    /// Whether a span may follow: starts never go backward.
    pub open spec fn admits(self, span: Span) -> bool {
        self.last_start matches Some(prev) ==> prev <= span.start()
    }

    /// The finalized form of a range: absent if it is shorter than the minimum.
    pub open spec fn kept(self, r: Range) -> Option<Range> {
        if r.len() >= self.opts.min_len() {
            Some(r)
        } else {
            None
        }
    }

    /// Close the open run: it merges into what is pending if the gap allows, and
    /// otherwise takes its place and finalizes it.
    pub open spec fn closed(self) -> (SegmenterView, Option<Range>) {
        match (self.open, self.pending) {
            (None, _) => (self, None),
            (Some(run), None) => (
                SegmenterView { open: None, pending: Some(run), ..self },
                None,
            ),
            (Some(run), Some(p)) => if gap(p.end(), run.start()) <= self.opts.merge_gap() {
                let merged = Range::of(p.start(), later(p.end(), run.end()));
                (SegmenterView { open: None, pending: Some(merged), ..self }, None)
            } else {
                (SegmenterView { open: None, pending: Some(run), ..self }, self.kept(p))
            },
        }
    }

    /// Finalize what is pending once a span at `start` shows that no later run can
    /// merge into it.
    pub open spec fn settled(self, start: usize) -> (SegmenterView, Option<Range>) {
        match self.pending {
            Some(p) if gap(p.end(), start) > self.opts.merge_gap() => (
                SegmenterView { pending: None, ..self },
                self.kept(p),
            ),
            _ => (self, None),
        }
    }

    /// The state after a decision on an admitted span, and the range it finalizes.
    ///
    /// An accepted span that touches the open run extends it. Any other span closes
    /// the open run and finalizes at most one range, and an accepted one then opens
    /// a run of its own.
    pub open spec fn step(self, active: bool, span: Span) -> (SegmenterView, Option<Range>) {
        let seen = SegmenterView { last_start: Some(span.start()), ..self };
        if active && self.open is Some && span.start() <= self.open->Some_0.end() {
            let run = self.open->Some_0;
            let grown = Range::of(run.start(), later(run.end(), span.end()));
            (SegmenterView { open: Some(grown), ..seen }, None)
        } else {
            let (closed, replaced) = seen.closed();
            let (next, emitted) = if replaced is Some {
                (closed, replaced)
            } else {
                closed.settled(span.start())
            };
            let open = if active {
                Some(Range::of(span.start(), span.end()))
            } else {
                None
            };
            (SegmenterView { open, ..next }, emitted)
        }
    }

    /// The ranges that are finalized when no span follows.
    pub open spec fn finished(self) -> Seq<Range> {
        let (closed, replaced) = self.closed();
        let last = match closed.pending {
            Some(p) => self.kept(p),
            None => None,
        };
        crate::segment::tail::present(replaced, last)
    }
}

/// Incremental run builder and morphology: consume `(active, span)` gate decisions
/// and emit finalized element [`Range`]s with exact batch parity.
///
/// The state is the options, the currently extending run (`open`), the closed and
/// merged candidate awaiting its gap verdict (`pending`), and the last start seen.
/// It is bounded for every configuration, an unbounded `merge_gap` included:
/// `pending` only ever widens, and its emission defers to
/// [`finish`](Segmenter::finish).
///
/// Spans must arrive in ascending `start` order (equal starts admitted); a
/// strictly backward start returns [`WinditError::NonMonotonicSpan`]. A genuine
/// timeline break is declared with [`discontinuity`](Segmenter::discontinuity).
#[derive(Debug, PartialEq, Eq)]
pub struct Segmenter {
    opts: SegmentOptions,
    open: Option<Range>,
    pending: Option<Range>,
    last_start: Option<usize>,
}

impl View for Segmenter {
    type V = SegmenterView;

    closed spec fn view(&self) -> SegmenterView {
        SegmenterView {
            opts: self.opts,
            open: self.open,
            pending: self.pending,
            last_start: self.last_start,
        }
    }
}

impl Clone for Segmenter {
    fn clone(&self) -> (r: Self)
        ensures
            r@ == self@,
    {
        proof {
            use_type_invariant(self);
        }
        Segmenter {
            opts: self.opts,
            open: self.open,
            pending: self.pending,
            last_start: self.last_start,
        }
    }
}

impl Segmenter {
    /// The invariant of a segmenter: its state is well formed.
    #[verifier::type_invariant]
    pub open spec fn inv(self) -> bool {
        self@.wf()
    }

    /// A fresh segmenter that shapes its runs with `opts`.
    #[must_use]
    pub fn new(opts: SegmentOptions) -> (r: Segmenter)
        ensures
            r@ == SegmenterView::fresh(opts),
            r@.wf(),
    {
        Segmenter { opts, open: None, pending: None, last_start: None }
    }

    /// The morphology options this segmenter applies.
    #[must_use]
    pub fn opts(&self) -> (r: SegmentOptions)
        ensures
            r == self@.opts,
    {
        self.opts
    }

    /// Feed one gate decision with the [`Span`] it covers.
    ///
    /// `Ok(Some(range))` is a finalized range that no future input can change;
    /// `Ok(None)` means this decision extended a run, closed one into the merge
    /// fold without finalizing anything, or was rejected with nothing pending.
    ///
    /// Returns [`WinditError::NonMonotonicSpan`] if `span.start()` is strictly less
    /// than the previous pushed span's start, with no intervening
    /// [`discontinuity`](Segmenter::discontinuity) or [`reset`](Segmenter::reset).
    /// The offending push leaves the segmenter unchanged.
    pub fn push(&mut self, active: bool, span: Span) -> (r: Result<Option<Range>, WinditError>)
        ensures
            old(self)@.admits(span) ==> r == Ok::<Option<Range>, WinditError>(
                old(self)@.step(active, span).1,
            ) && final(self)@ == old(self)@.step(active, span).0,
            !old(self)@.admits(span) ==> r == Err::<Option<Range>, WinditError>(
                WinditError::NonMonotonicSpan {
                    prev_start: old(self)@.last_start->Some_0,
                    start: span.start(),
                },
            ) && final(self)@ == old(self)@,
            final(self)@.wf(),
    {
        proof {
            use_type_invariant(&*self);
        }
        let start: usize = span.start();
        let end: usize = span.end();
        if let Some(prev) = self.last_start {
            if start < prev {
                return Err(WinditError::NonMonotonicSpan { prev_start: prev, start });
            }
        }
        self.last_start = Some(start);
        let open = self.open;
        // An accepted span that touches the open run extends it: the run is still
        // growing, so nothing can be finalized yet.
        if active {
            if let Some(run) = open {
                if start <= run.end() {
                    let grown: usize = if run.end() >= end {
                        run.end()
                    } else {
                        end
                    };
                    self.open = Some(Range::new(run.start(), grown));
                    return Ok(None);
                }
            }
        }
        // Otherwise the open run, if any, closes into the merge fold.
        self.open = None;
        let replaced = match open {
            Some(run) => self.feed_raw_run(run),
            None => None,
        };
        // With nothing now open, a span beyond the gap horizon finalizes what is
        // pending.
        let emitted = match replaced {
            Some(_) => replaced,
            None => self.early_finalize(start),
        };
        // An accepted span that did not extend a run opens a fresh one.
        if active {
            self.open = Some(Range::new(start, end));
        }
        Ok(emitted)
    }

    /// Resolve the open run and the merge fold: everything still outstanding.
    fn drain(&mut self) -> (r: SegmentTail)
        ensures
            r@ == old(self)@.finished(),
            r@.len() <= 1,
            final(self)@ == (SegmenterView { open: None, pending: None, ..old(self)@ }),
    {
        proof {
            use_type_invariant(&*self);
        }
        let open = self.open;
        self.open = None;
        let first = match open {
            Some(run) => self.feed_raw_run(run),
            None => None,
        };
        let pending = self.pending;
        self.pending = None;
        let second = match pending {
            Some(p) => self.keep(p),
            None => None,
        };
        SegmentTail::new(first, second)
    }

    /// End of stream: close the open run, resolve the merge fold, and emit
    /// everything pending.
    ///
    /// Consuming `self` makes use after finish unrepresentable; the continue-past
    /// case is [`discontinuity`](Segmenter::discontinuity).
    #[must_use]
    pub fn finish(self) -> (r: SegmentTail)
        ensures
            r@ == self@.finished(),
            r@.len() <= 1,
    {
        let mut seg = self;
        seg.drain()
    }

    /// Declared timeline break: emit as [`finish`](Segmenter::finish) would, never
    /// bridging `merge_gap` across the break, then re-arm fresh state for the next
    /// epoch.
    ///
    /// Span positions may restart after the break; the monotonicity check is
    /// re-armed too.
    #[must_use]
    pub fn discontinuity(&mut self) -> (r: SegmentTail)
        ensures
            r@ == old(self)@.finished(),
            r@.len() <= 1,
            final(self)@ == SegmenterView::fresh(old(self)@.opts),
    {
        let tail = self.drain();
        self.last_start = None;
        tail
    }

    /// Destructive discard: return to the freshly constructed state, dropping any
    /// unemitted pending output.
    pub fn reset(&mut self)
        ensures
            final(self)@ == SegmenterView::fresh(old(self)@.opts),
    {
        *self = Segmenter { opts: self.opts, open: None, pending: None, last_start: None };
    }

    /// Merge a just-closed run into what is pending, returning the range it
    /// finalizes, if any.
    fn feed_raw_run(&mut self, run: Range) -> (r: Option<Range>)
        requires
            old(self)@.open is None,
            run.wf(),
        ensures
            ({
                let (closed, replaced) = (SegmenterView {
                    open: Some(run),
                    ..old(self)@
                }).closed();
                final(self)@ == closed && r == replaced
            }),
    {
        proof {
            use_type_invariant(&*self);
        }
        match self.pending {
            None => {
                self.pending = Some(run);
                None
            },
            Some(p) => if run.start().saturating_sub(p.end()) <= self.opts.merge_gap() {
                let end: usize = if p.end() >= run.end() {
                    p.end()
                } else {
                    run.end()
                };
                self.pending = Some(Range::new(p.start(), end));
                None
            } else {
                self.pending = Some(run);
                self.keep(p)
            },
        }
    }

    /// Finalize what is pending when a span at `start` proves that no future run
    /// can merge into it.
    fn early_finalize(&mut self, start: usize) -> (r: Option<Range>)
        requires
            old(self)@.open is None,
        ensures
            final(self)@ == old(self)@.settled(start).0,
            r == old(self)@.settled(start).1,
    {
        proof {
            use_type_invariant(&*self);
        }
        match self.pending {
            Some(p) => if start.saturating_sub(p.end()) > self.opts.merge_gap() {
                self.pending = None;
                self.keep(p)
            } else {
                None
            },
            None => None,
        }
    }

    /// Emit `r` if it is long enough, otherwise drop it silently.
    fn keep(&self, r: Range) -> (kept: Option<Range>)
        ensures
            kept == self@.kept(r),
    {
        if r.len() >= self.opts.min_len() {
            Some(r)
        } else {
            None
        }
    }
}

/// What the gap between two ranges, and the later of two ends, are.
pub proof fn gaps_and_ends_are_distances(a: usize, b: usize)
    ensures
        a <= b ==> gap(a, b) == b - a && later(a, b) == b,
        a >= b ==> gap(a, b) == 0 && later(a, b) == a,
{
}

} // verus!
