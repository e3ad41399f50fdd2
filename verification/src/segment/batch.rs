//! What segmentation means for a whole sequence of decisions, and that the
//! segmenter computes it incrementally.
use vstd::prelude::*;

use crate::plan::Span;
use crate::segment::range::{Range, SegmentOptions};
use crate::segment::segmenter::SegmenterView;

verus! {

broadcast use crate::segment::range::ranges_have_their_bounds;

/// Whether the spans of the decisions start in ascending order, equal starts
/// admitted.
pub open spec fn ascending(decisions: Seq<(bool, Span)>) -> bool {
    forall|i: int, j: int|
        0 <= i < j < decisions.len() ==> (#[trigger] decisions[i]).1.start() <= (
        #[trigger] decisions[j]).1.start()
}

/// The runs of accepted spans: the closed ones, in order, and the one that the
/// last decision left open.
///
/// A run is a block of consecutive accepted spans, each starting at or before the
/// largest end before it; it reaches from its first span's start to that largest
/// end.
pub open spec fn raw_runs(decisions: Seq<(bool, Span)>) -> (Seq<Range>, Option<Range>)
    decreases decisions.len(),
{
    if decisions.len() == 0 {
        (Seq::empty(), None)
    } else {
        let (closed, open) = raw_runs(decisions.drop_last());
        let (active, span) = decisions.last();
        let alone = if active {
            Some(Range::of(span.start(), span.end()))
        } else {
            None
        };
        match open {
            Some(run) => if active && span.start() <= run.end() {
                let end = crate::segment::segmenter::later(run.end(), span.end());
                (closed, Some(Range::of(run.start(), end)))
            } else {
                (closed.push(run), alone)
            },
            None => (closed, alone),
        }
    }
}

/// All the runs of accepted spans, in order.
pub open spec fn all_runs(decisions: Seq<(bool, Span)>) -> Seq<Range> {
    let (closed, open) = raw_runs(decisions);
    match open {
        Some(run) => closed.push(run),
        None => closed,
    }
}

/// The first morphology pass: runs separated by at most `merge_gap` elements
/// become one range.
pub open spec fn merge_adjacent(runs: Seq<Range>, merge_gap: usize) -> Seq<Range>
    decreases runs.len(),
{
    if runs.len() == 0 {
        Seq::empty()
    } else {
        let merged = merge_adjacent(runs.drop_last(), merge_gap);
        let run = runs.last();
        if merged.len() > 0 && crate::segment::segmenter::gap(merged.last().end(), run.start())
            <= merge_gap {
            let last = merged.last();
            merged.drop_last().push(
                Range::of(last.start(), crate::segment::segmenter::later(last.end(), run.end())),
            )
        } else {
            merged.push(run)
        }
    }
}

/// The second morphology pass: ranges shorter than `min_len` are dropped.
pub open spec fn keep_long(ranges: Seq<Range>, min_len: usize) -> Seq<Range>
    decreases ranges.len(),
{
    if ranges.len() == 0 {
        Seq::empty()
    } else {
        let kept = keep_long(ranges.drop_last(), min_len);
        if ranges.last().len() >= min_len {
            kept.push(ranges.last())
        } else {
            kept
        }
    }
}

/// The segmentation of a whole sequence of decisions: its runs, merged, then
/// filtered by length.
pub open spec fn segmentation(decisions: Seq<(bool, Span)>, opts: SegmentOptions) -> Seq<Range> {
    keep_long(merge_adjacent(all_runs(decisions), opts.merge_gap()), opts.min_len())
}

/// `ranges` with one more range at the end, if there is one.
pub open spec fn appended(ranges: Seq<Range>, more: Option<Range>) -> Seq<Range> {
    match more {
        Some(r) => ranges.push(r),
        None => ranges,
    }
}

/// The state of a segmenter in state `from` after a sequence of decisions, and the
/// ranges it emits on the way.
pub open spec fn stream(from: SegmenterView, decisions: Seq<(bool, Span)>) -> (
    SegmenterView,
    Seq<Range>,
)
    decreases decisions.len(),
{
    if decisions.len() == 0 {
        (from, Seq::empty())
    } else {
        let (state, out) = stream(from, decisions.drop_last());
        let (active, span) = decisions.last();
        let (next, emitted) = state.step(active, span);
        (next, appended(out, emitted))
    }
}

/// What a fresh segmenter's state and emissions are in terms of the runs so far.
spec fn mirrors(
    state: SegmenterView,
    out: Seq<Range>,
    closed: Seq<Range>,
    open: Option<Range>,
    opts: SegmentOptions,
) -> bool {
    let merged = merge_adjacent(closed, opts.merge_gap());
    &&& state.opts == opts
    &&& state.open == open
    &&& state.wf()
    &&& state.pending matches Some(p) ==> {
        &&& merged.len() > 0
        &&& p == merged.last()
        &&& out == keep_long(merged.drop_last(), opts.min_len())
    }
    &&& state.pending is None ==> {
        &&& out == keep_long(merged, opts.min_len())
        &&& merged.len() > 0 ==> {
            &&& state.last_start is Some
            &&& crate::segment::segmenter::gap(merged.last().end(), state.last_start->Some_0)
                > opts.merge_gap()
            &&& open matches Some(run) ==> crate::segment::segmenter::gap(
                merged.last().end(),
                run.start(),
            ) > opts.merge_gap()
        }
    }
}

/// Closing the open run keeps the correspondence.
proof fn lemma_close(
    state: SegmenterView,
    out: Seq<Range>,
    closed: Seq<Range>,
    run: Range,
    opts: SegmentOptions,
)
    requires
        mirrors(state, out, closed, Some(run), opts),
    ensures
        ({
            let (next, emitted) = state.closed();
            let merged = merge_adjacent(closed.push(run), opts.merge_gap());
            &&& emitted is None
            &&& next == (SegmenterView { open: None, pending: next.pending, ..state })
            &&& next.pending == Some(merged.last())
            &&& merged.len() > 0
            &&& merged.last().wf()
            &&& out == keep_long(merged.drop_last(), opts.min_len())
        }),
{
    let merged = merge_adjacent(closed, opts.merge_gap());
    assert(closed.push(run).drop_last() =~= closed);
    let after = merge_adjacent(closed.push(run), opts.merge_gap());
    match state.pending {
        Some(p) => {
            assert(after.drop_last() =~= merged.drop_last());
        },
        None => {
            assert(after.drop_last() =~= merged);
        },
    }
}

/// A stream of decisions mirrors the runs of the batch.
#[verifier::spinoff_prover]
#[verifier::rlimit(30)]
proof fn lemma_mirrors(decisions: Seq<(bool, Span)>, opts: SegmentOptions)
    requires
        ascending(decisions),
        forall|i: int| 0 <= i < decisions.len() ==> (#[trigger] decisions[i]).1.wf(),
    ensures
        ({
            let (state, out) = stream(SegmenterView::fresh(opts), decisions);
            let (closed, open) = raw_runs(decisions);
            &&& mirrors(state, out, closed, open, opts)
            &&& decisions.len() > 0 ==> state.last_start == Some(decisions.last().1.start())
            &&& decisions.len() == 0 ==> state.last_start is None
        }),
    decreases decisions.len(),
{
    if decisions.len() > 0 {
        let before = decisions.drop_last();
        let (active, span) = decisions.last();
        assert(decisions.last() == decisions[decisions.len() - 1]);
        assert forall|i: int, j: int| 0 <= i < j < before.len() implies (
        #[trigger] before[i]).1.start() <= (#[trigger] before[j]).1.start() by {
            assert(before[i] == decisions[i] && before[j] == decisions[j]);
        }
        assert forall|i: int| 0 <= i < before.len() implies (#[trigger] before[i]).1.wf() by {
            assert(before[i] == decisions[i]);
        }
        lemma_mirrors(before, opts);
        let (state, out) = stream(SegmenterView::fresh(opts), before);
        let (closed, open) = raw_runs(before);
        if before.len() > 0 {
            assert(before.last() == decisions[before.len() - 1]);
        }
        assert(state.admits(span));
        let touching = active && open is Some && span.start() <= open->Some_0.end();
        if !touching {
            let seen = SegmenterView { last_start: Some(span.start()), ..state };
            let (rested, _) = seen.closed();
            let runs = match open {
                Some(run) => closed.push(run),
                None => closed,
            };
            let merged = merge_adjacent(runs, opts.merge_gap());
            if let Some(run) = open {
                assert(mirrors(seen, out, closed, Some(run), opts));
                lemma_close(seen, out, closed, run, opts);
            }
            if rested.pending is Some {
                assert(appended(out, seen.kept(merged.last())) == keep_long(
                    merged,
                    opts.min_len(),
                ));
            }
        }
    }
}

/// The last morphology pass commutes with taking off the last range.
proof fn lemma_finish(
    state: SegmenterView,
    out: Seq<Range>,
    closed: Seq<Range>,
    open: Option<Range>,
    opts: SegmentOptions,
)
    requires
        mirrors(state, out, closed, open, opts),
    ensures
        ({
            let runs = match open {
                Some(run) => closed.push(run),
                None => closed,
            };
            out + state.finished() == keep_long(
                merge_adjacent(runs, opts.merge_gap()),
                opts.min_len(),
            )
        }),
{
    let runs = match open {
        Some(run) => closed.push(run),
        None => closed,
    };
    let merged = merge_adjacent(runs, opts.merge_gap());
    if let Some(run) = open {
        lemma_close(state, out, closed, run, opts);
    }
    if open is Some || state.pending is Some {
        assert(out + state.finished() =~= keep_long(merged, opts.min_len()));
    } else {
        assert(out + state.finished() =~= out);
    }
}

/// Streaming and batch agree: what a fresh segmenter emits over a sequence of
/// decisions in span order, followed by what it emits at the end, is exactly the
/// segmentation of the sequence.
pub proof fn streaming_equals_batch(decisions: Seq<(bool, Span)>, opts: SegmentOptions)
    requires
        ascending(decisions),
        forall|i: int| 0 <= i < decisions.len() ==> (#[trigger] decisions[i]).1.wf(),
    ensures
        ({
            let (state, out) = stream(SegmenterView::fresh(opts), decisions);
            out + state.finished() == segmentation(decisions, opts)
        }),
{
    lemma_mirrors(decisions, opts);
    let (state, out) = stream(SegmenterView::fresh(opts), decisions);
    let (closed, open) = raw_runs(decisions);
    lemma_finish(state, out, closed, open, opts);
}

/// Feeding a sequence of decisions in two parts is feeding it whole: the state
/// carries over, and the emissions of the parts follow each other.
pub proof fn streaming_splits(
    from: SegmenterView,
    first: Seq<(bool, Span)>,
    second: Seq<(bool, Span)>,
)
    ensures
        ({
            let (mid, out_first) = stream(from, first);
            let (end, out_second) = stream(mid, second);
            stream(from, first + second) == (end, out_first + out_second)
        }),
    decreases second.len(),
{
    let (mid, out_first) = stream(from, first);
    if second.len() == 0 {
        assert(first + second =~= first);
        assert(out_first + Seq::<Range>::empty() =~= out_first);
    } else {
        let shorter = second.drop_last();
        streaming_splits(from, first, shorter);
        assert((first + second).drop_last() =~= first + shorter);
        assert((first + second).last() == second.last());
        let (state, out) = stream(mid, shorter);
        let emitted = state.step(second.last().0, second.last().1).1;
        assert(appended(out_first + out, emitted) =~= out_first + appended(out, emitted));
    }
}

/// Finalized ranges are final: what has been emitted after a first part of a
/// sequence of decisions is a prefix of the segmentation of the whole sequence,
/// whatever the rest is.
pub proof fn emitted_ranges_never_change(
    first: Seq<(bool, Span)>,
    second: Seq<(bool, Span)>,
    opts: SegmentOptions,
)
    requires
        ascending(first + second),
        forall|i: int|
            0 <= i < (first + second).len() ==> (#[trigger] (first + second)[i]).1.wf(),
    ensures
        stream(SegmenterView::fresh(opts), first).1.is_prefix_of(
            segmentation(first + second, opts),
        ),
{
    streaming_equals_batch(first + second, opts);
    streaming_splits(SegmenterView::fresh(opts), first, second);
}

/// Accepted spans folded one by one: a span at most `merge_gap` elements after what is merged
/// so far widens it, and any other begins a range of its own.
pub open spec fn folded(decisions: Seq<(bool, Span)>, merge_gap: usize) -> Seq<Range>
    decreases decisions.len(),
{
    if decisions.len() == 0 {
        Seq::empty()
    } else {
        let merged = folded(decisions.drop_last(), merge_gap);
        let (active, span) = decisions.last();
        if !active {
            merged
        } else if merged.len() > 0 && crate::segment::segmenter::gap(
            merged.last().end(),
            span.start(),
        ) <= merge_gap {
            let last = merged.last();
            merged.drop_last().push(
                Range::of(
                    last.start(),
                    crate::segment::segmenter::later(last.end(), span.end()),
                ),
            )
        } else {
            merged.push(Range::of(span.start(), span.end()))
        }
    }
}

/// Merging the runs of decisions is folding their accepted spans: what a rejection takes
/// apart without leaving a gap, merging puts together again.
pub(crate) proof fn lemma_merged_runs(decisions: Seq<(bool, Span)>, merge_gap: usize)
    ensures
        merge_adjacent(all_runs(decisions), merge_gap) == folded(decisions, merge_gap),
    decreases decisions.len(),
{
    if decisions.len() > 0 {
        let before = decisions.drop_last();
        let (active, span) = decisions.last();
        lemma_merged_runs(before, merge_gap);
        let (closed, open) = raw_runs(before);
        let runs = all_runs(before);
        if !active {
            assert(all_runs(decisions) =~= runs);
        } else if open is Some && span.start() <= open->Some_0.end() {
            let run = open->Some_0;
            let grown = Range::of(
                run.start(),
                crate::segment::segmenter::later(run.end(), span.end()),
            );
            assert(closed.push(run).drop_last() =~= closed);
            assert(closed.push(grown).drop_last() =~= closed);
            assert(merge_adjacent(closed.push(grown), merge_gap) =~= folded(decisions, merge_gap));
        } else {
            let alone = Range::of(span.start(), span.end());
            assert(all_runs(decisions) =~= runs.push(alone));
            assert(runs.push(alone).drop_last() =~= runs);
        }
    }
}

/// The decisions that accept their span.
pub open spec fn accepting(decisions: Seq<(bool, Span)>) -> Seq<(bool, Span)> {
    decisions.filter(|d: (bool, Span)| d.0)
}

/// Folding skips what is rejected.
proof fn lemma_folding_skips(decisions: Seq<(bool, Span)>, merge_gap: usize)
    ensures
        folded(accepting(decisions), merge_gap) == folded(decisions, merge_gap),
    decreases decisions.len(),
{
    reveal(Seq::filter);
    if decisions.len() > 0 {
        let before = decisions.drop_last();
        lemma_folding_skips(before, merge_gap);
        if decisions.last().0 {
            assert(accepting(decisions).drop_last() =~= accepting(before));
        }
    }
}

/// A rejected window never changes the segmentation: it is that of the accepted ones alone,
/// since two runs that overlap or touch are joined at every gap.
pub proof fn rejected_windows_do_not_count(decisions: Seq<(bool, Span)>, opts: SegmentOptions)
    ensures
        segmentation(decisions, opts) == segmentation(accepting(decisions), opts),
{
    lemma_merged_runs(decisions, opts.merge_gap());
    lemma_merged_runs(accepting(decisions), opts.merge_gap());
    lemma_folding_skips(decisions, opts.merge_gap());
}

/// A stream of decisions in span order leaves a well-formed state behind its last span.
pub(crate) proof fn lemma_stream_is_well_formed(
    decisions: Seq<(bool, Span)>,
    opts: SegmentOptions,
)
    requires
        ascending(decisions),
        forall|i: int| 0 <= i < decisions.len() ==> (#[trigger] decisions[i]).1.wf(),
    ensures
        ({
            let state = stream(SegmenterView::fresh(opts), decisions).0;
            &&& state.wf()
            &&& decisions.len() > 0 ==> state.last_start == Some(decisions.last().1.start())
            &&& decisions.len() == 0 ==> state.last_start is None
        }),
{
    lemma_mirrors(decisions, opts);
}

} // verus!
