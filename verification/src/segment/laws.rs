//! What every segmentation satisfies.
use vstd::prelude::*;

use crate::plan::Span;
use crate::segment::batch;
use crate::segment::range::{Range, SegmentOptions};
use crate::segment::segmenter::SegmenterView;

verus! {

broadcast use crate::segment::range::ranges_have_their_bounds;

/// Whether every range covers an element and lies more than `merge_gap` elements
/// before each later one.
pub open spec fn separated(ranges: Seq<Range>, merge_gap: usize) -> bool {
    &&& forall|i: int| 0 <= i < ranges.len() ==> (#[trigger] ranges[i]).start() < ranges[i].end()
    &&& forall|i: int, j: int|
        0 <= i < j < ranges.len() ==> (#[trigger] ranges[i]).end() + merge_gap < (
        #[trigger] ranges[j]).start()
}

/// Whether every span is well formed.
pub open spec fn well_formed(decisions: Seq<(bool, Span)>) -> bool {
    forall|i: int| 0 <= i < decisions.len() ==> (#[trigger] decisions[i]).1.wf()
}

/// Whether an accepted span covers element `x`.
pub open spec fn accepted(decisions: Seq<(bool, Span)>, x: int) -> bool {
    exists|i: int| 0 <= i < decisions.len() && (#[trigger] decisions[i]).0 && decisions[i].1.covers(x)
}

/// Whether one of the ranges covers element `x`.
pub open spec fn covered(ranges: Seq<Range>, x: int) -> bool {
    exists|i: int| 0 <= i < ranges.len() && (#[trigger] ranges[i]).covers(x)
}

/// Every run holds an element.
proof fn lemma_runs_are_nonempty(decisions: Seq<(bool, Span)>)
    requires
        well_formed(decisions),
    ensures
        forall|i: int|
            0 <= i < batch::raw_runs(decisions).0.len() ==> (#[trigger] batch::raw_runs(
                decisions,
            ).0[i]).start() < batch::raw_runs(decisions).0[i].end(),
        batch::raw_runs(decisions).1 matches Some(run) ==> run.start() < run.end(),
    decreases decisions.len(),
{
    if decisions.len() > 0 {
        let before = decisions.drop_last();
        assert(forall|i: int| 0 <= i < before.len() ==> before[i] == decisions[i]);
        assert(decisions.last() == decisions[decisions.len() - 1]);
        lemma_runs_are_nonempty(before);
    }
}

/// Merged runs are farther apart than the gap.
proof fn lemma_merged_are_separated(runs: Seq<Range>, merge_gap: usize)
    requires
        forall|i: int| 0 <= i < runs.len() ==> (#[trigger] runs[i]).start() < runs[i].end(),
    ensures
        separated(batch::merge_adjacent(runs, merge_gap), merge_gap),
    decreases runs.len(),
{
    if runs.len() > 0 {
        let before = runs.drop_last();
        assert(forall|i: int| 0 <= i < before.len() ==> before[i] == runs[i]);
        lemma_merged_are_separated(before, merge_gap);
        let merged = batch::merge_adjacent(before, merge_gap);
        let after = batch::merge_adjacent(runs, merge_gap);
        let run = runs.last();
        assert(run == runs[runs.len() - 1]);
        if merged.len() > 0 {
            assert(merged.last() == merged[merged.len() - 1]);
        }
        assert(forall|i: int| 0 <= i < after.len() - 1 ==> after[i] == merged[i]);
    }
}

/// Dropping short ranges keeps the others apart.
proof fn lemma_kept_are_separated(ranges: Seq<Range>, merge_gap: usize, min_len: usize)
    requires
        separated(ranges, merge_gap),
    ensures
        separated(batch::keep_long(ranges, min_len), merge_gap),
        forall|i: int|
            0 <= i < batch::keep_long(ranges, min_len).len() ==> {
                let kept = #[trigger] batch::keep_long(ranges, min_len)[i];
                kept.len() >= min_len && kept.end() <= ranges.last().end()
            },
    decreases ranges.len(),
{
    if ranges.len() > 0 {
        let before = ranges.drop_last();
        assert(forall|i: int| 0 <= i < before.len() ==> before[i] == ranges[i]);
        lemma_kept_are_separated(before, merge_gap, min_len);
        let kept = batch::keep_long(before, min_len);
        assert(ranges.last() == ranges[ranges.len() - 1]);
        if before.len() > 0 {
            assert(before.last() == ranges[ranges.len() - 2]);
        } else {
            assert(kept.len() == 0);
        }
    }
}

/// The ranges of a segmentation are in ascending order, cover at least one element
/// and `min_len` elements each, and are separated by more than `merge_gap`
/// elements.
pub proof fn segmentation_is_separated(decisions: Seq<(bool, Span)>, opts: SegmentOptions)
    requires
        well_formed(decisions),
    ensures
        separated(batch::segmentation(decisions, opts), opts.merge_gap()),
        forall|i: int|
            0 <= i < batch::segmentation(decisions, opts).len() ==> (
            #[trigger] batch::segmentation(decisions, opts)[i]).len() >= opts.min_len(),
{
    lemma_runs_are_nonempty(decisions);
    let runs = batch::all_runs(decisions);
    lemma_merged_are_separated(runs, opts.merge_gap());
    lemma_kept_are_separated(
        batch::merge_adjacent(runs, opts.merge_gap()),
        opts.merge_gap(),
        opts.min_len(),
    );
}

/// What one more range covers.
proof fn lemma_covered_push(ranges: Seq<Range>, r: Range, x: int)
    ensures
        covered(ranges.push(r), x) == (covered(ranges, x) || r.covers(x)),
{
    let pushed = ranges.push(r);
    if covered(ranges, x) {
        let i = choose|i: int| 0 <= i < ranges.len() && (#[trigger] ranges[i]).covers(x);
        assert(pushed[i].covers(x));
    }
    if r.covers(x) {
        assert(pushed[ranges.len() as int].covers(x));
    }
    if covered(pushed, x) {
        let i = choose|i: int| 0 <= i < pushed.len() && (#[trigger] pushed[i]).covers(x);
        if i < ranges.len() {
            assert(ranges[i].covers(x));
        }
    }
}

/// What one more decision accepts.
proof fn lemma_accepted_last(decisions: Seq<(bool, Span)>, x: int)
    requires
        decisions.len() > 0,
    ensures
        accepted(decisions, x) == (accepted(decisions.drop_last(), x) || (decisions.last().0
            && decisions.last().1.covers(x))),
{
    let before = decisions.drop_last();
    if accepted(before, x) {
        let i = choose|i: int|
            0 <= i < before.len() && (#[trigger] before[i]).0 && before[i].1.covers(x);
        assert(decisions[i].0);
    }
    if decisions.last().0 && decisions.last().1.covers(x) {
        assert(decisions[decisions.len() - 1].0);
    }
    if accepted(decisions, x) {
        let i = choose|i: int|
            0 <= i < decisions.len() && (#[trigger] decisions[i]).0 && decisions[i].1.covers(x);
        if i < before.len() {
            assert(before[i].0);
        }
    }
}

/// The runs cover exactly the accepted elements, and start in ascending order, no
/// later than the last span.
proof fn lemma_runs_cover(decisions: Seq<(bool, Span)>, x: int)
    requires
        batch::ascending(decisions),
        well_formed(decisions),
    ensures
        covered(batch::all_runs(decisions), x) == accepted(decisions, x),
        ({
            let (closed, open) = batch::raw_runs(decisions);
            &&& forall|i: int, j: int|
                0 <= i < j < closed.len() ==> (#[trigger] closed[i]).start() <= (
                #[trigger] closed[j]).start()
            &&& open matches Some(run) ==> run.start() <= decisions.last().1.start() && forall|i: int|
                0 <= i < closed.len() ==> (#[trigger] closed[i]).start() <= run.start()
            &&& forall|i: int|
                0 <= i < closed.len() ==> (#[trigger] closed[i]).start()
                    <= decisions.last().1.start()
        }),
    decreases decisions.len(),
{
    if decisions.len() == 0 {
        assert(batch::all_runs(decisions) =~= Seq::<Range>::empty());
    } else {
        let before = decisions.drop_last();
        assert(forall|i: int| 0 <= i < before.len() ==> before[i] == decisions[i]);
        let (active, span) = decisions.last();
        assert(decisions.last() == decisions[decisions.len() - 1]);
        if before.len() > 0 {
            assert(before.last() == decisions[decisions.len() - 2]);
        }
        lemma_runs_cover(before, x);
        lemma_accepted_last(decisions, x);
        let (closed, open) = batch::raw_runs(before);
        let (closed_after, open_after) = batch::raw_runs(decisions);
        if let Some(run) = open {
            lemma_covered_push(closed, run, x);
            assert(before.len() > 0);
        }
        if let Some(run) = open_after {
            lemma_covered_push(closed_after, run, x);
        }
    }
}

/// Merging covers what the runs cover, and no more where only touching runs are merged.
proof fn lemma_merged_cover(runs: Seq<Range>, merge_gap: usize, x: int)
    requires
        forall|i: int, j: int|
            0 <= i < j < runs.len() ==> (#[trigger] runs[i]).start() <= (#[trigger] runs[j]).start(),
    ensures
        covered(runs, x) ==> covered(batch::merge_adjacent(runs, merge_gap), x),
        merge_gap == 0 ==> (covered(batch::merge_adjacent(runs, merge_gap), x) ==> covered(
            runs,
            x,
        )),
        batch::merge_adjacent(runs, merge_gap).len() > 0 ==> runs.len() > 0
            && batch::merge_adjacent(runs, merge_gap).last().start() <= runs.last().start(),
    decreases runs.len(),
{
    if runs.len() > 0 {
        let before = runs.drop_last();
        assert(forall|i: int| 0 <= i < before.len() ==> before[i] == runs[i]);
        lemma_merged_cover(before, merge_gap, x);
        let merged = batch::merge_adjacent(before, merge_gap);
        let run = runs.last();
        assert(before.push(run) =~= runs);
        lemma_covered_push(before, run, x);
        if before.len() > 0 {
            assert(before.last() == runs[runs.len() - 2]);
            assert(run == runs[runs.len() - 1]);
        }
        if merged.len() > 0 {
            let last = merged.last();
            assert(merged.drop_last().push(last) =~= merged);
            lemma_covered_push(merged.drop_last(), last, x);
            let grown = Range::of(
                last.start(),
                crate::segment::segmenter::later(last.end(), run.end()),
            );
            lemma_covered_push(merged.drop_last(), grown, x);
        }
        lemma_covered_push(merged, run, x);
    }
}

/// A minimum length of zero keeps every range.
proof fn lemma_keep_all(ranges: Seq<Range>)
    ensures
        batch::keep_long(ranges, 0) == ranges,
    decreases ranges.len(),
{
    if ranges.len() > 0 {
        lemma_keep_all(ranges.drop_last());
        assert(ranges.drop_last().push(ranges.last()) =~= ranges);
    } else {
        assert(ranges =~= Seq::<Range>::empty());
    }
}

/// Without a minimum length, no accepted element is lost: every element of an
/// accepted span lies in a range.
pub proof fn segmentation_keeps_accepted_elements(
    decisions: Seq<(bool, Span)>,
    opts: SegmentOptions,
    x: int,
)
    requires
        batch::ascending(decisions),
        well_formed(decisions),
        opts.min_len() == 0,
        accepted(decisions, x),
    ensures
        covered(batch::segmentation(decisions, opts), x),
{
    lemma_runs_cover(decisions, x);
    let runs = batch::all_runs(decisions);
    lemma_merged_cover(runs, opts.merge_gap(), x);
    lemma_keep_all(batch::merge_adjacent(runs, opts.merge_gap()));
}

/// Without morphology, a segmentation covers exactly the accepted elements: a run
/// never claims an element that no accepted span covers.
pub proof fn segmentation_covers_the_accepted_elements(
    decisions: Seq<(bool, Span)>,
    opts: SegmentOptions,
    x: int,
)
    requires
        batch::ascending(decisions),
        well_formed(decisions),
        opts.min_len() == 0,
        opts.merge_gap() == 0,
    ensures
        covered(batch::segmentation(decisions, opts), x) == accepted(decisions, x),
{
    lemma_runs_cover(decisions, x);
    let runs = batch::all_runs(decisions);
    lemma_merged_cover(runs, opts.merge_gap(), x);
    lemma_keep_all(batch::merge_adjacent(runs, opts.merge_gap()));
}

/// At most one range is ever outstanding, however many decisions have been made:
/// ending the stream emits no more than that one.
pub proof fn at_most_one_range_is_outstanding(state: SegmenterView)
    requires
        state.wf(),
    ensures
        state.finished().len() <= 1,
{
}

/// Every decision keeps the segmenter's state well formed.
pub proof fn steps_keep_the_state_well_formed(state: SegmenterView, active: bool, span: Span)
    requires
        state.wf(),
        span.wf(),
        state.admits(span),
    ensures
        state.step(active, span).0.wf(),
{
}

/// Epochs are independent: a timeline break emits the segmentation of the decisions
/// before it, and what follows is segmented as if nothing had come before, wherever
/// its spans start.
pub proof fn epochs_are_independent(
    before: Seq<(bool, Span)>,
    after: Seq<(bool, Span)>,
    opts: SegmentOptions,
)
    requires
        batch::ascending(before),
        batch::ascending(after),
        well_formed(before),
        well_formed(after),
    ensures
        ({
            let (state, out) = batch::stream(SegmenterView::fresh(opts), before);
            let (next, out_next) = batch::stream(SegmenterView::fresh(state.opts), after);
            (out + state.finished()) + (out_next + next.finished()) == batch::segmentation(
                before,
                opts,
            ) + batch::segmentation(after, opts)
        }),
{
    batch::streaming_equals_batch(before, opts);
    batch::streaming_equals_batch(after, opts);
    lemma_stream_keeps_options(SegmenterView::fresh(opts), before);
}

/// A stream keeps its options.
pub(crate) proof fn lemma_stream_keeps_options(from: SegmenterView, decisions: Seq<(bool, Span)>)
    ensures
        batch::stream(from, decisions).0.opts == from.opts,
    decreases decisions.len(),
{
    if decisions.len() > 0 {
        lemma_stream_keeps_options(from, decisions.drop_last());
    }
}

/// Keeping the long ranges is filtering by the number of elements between the bounds.
proof fn lemma_keep_long_filters(ranges: Seq<Range>, min_len: usize)
    ensures
        batch::keep_long(ranges, min_len) == ranges.filter(
            |r: Range| r.len() >= min_len,
        ),
    decreases ranges.len(),
{
    reveal(Seq::filter);
    if ranges.len() > 0 {
        lemma_keep_long_filters(ranges.drop_last(), min_len);
    } else {
        assert(ranges.filter(|r: Range| r.len() >= min_len) =~= Seq::<Range>::empty());
    }
}

/// Filters that agree on what they are given keep the same.
proof fn lemma_same_filter<T>(seq: Seq<T>, p: spec_fn(T) -> bool, q: spec_fn(T) -> bool)
    requires
        forall|i: int| 0 <= i < seq.len() ==> p(#[trigger] seq[i]) == q(seq[i]),
    ensures
        seq.filter(p) == seq.filter(q),
    decreases seq.len(),
{
    reveal(Seq::filter);
    if seq.len() > 0 {
        let before = seq.drop_last();
        assert forall|i: int| 0 <= i < before.len() implies p(#[trigger] before[i]) == q(
            before[i],
        ) by {
            assert(before[i] == seq[i]);
        }
        lemma_same_filter(before, p, q);
        assert(seq.last() == seq[seq.len() - 1]);
    }
}

/// What the minimum length does: the segmentation is, in order, exactly those ranges of the one
/// without a minimum that hold at least that many elements.
pub proof fn minimum_length_keeps_exactly_the_long_ranges(
    decisions: Seq<(bool, Span)>,
    opts: SegmentOptions,
    all: SegmentOptions,
)
    requires
        well_formed(decisions),
        all.merge_gap() == opts.merge_gap(),
        all.min_len() == 0,
    ensures
        batch::segmentation(decisions, opts) == batch::segmentation(decisions, all).filter(
            |r: Range| r.end() - r.start() >= opts.min_len(),
        ),
        forall|i: int|
            0 <= i < batch::segmentation(decisions, all).len() && (#[trigger] batch::segmentation(
                decisions,
                all,
            )[i]).end() - batch::segmentation(decisions, all)[i].start() >= opts.min_len()
                ==> batch::segmentation(decisions, opts).contains(
                batch::segmentation(decisions, all)[i],
            ),
{
    let whole = batch::segmentation(decisions, all);
    segmentation_is_separated(decisions, all);
    lemma_keep_all(batch::merge_adjacent(batch::all_runs(decisions), opts.merge_gap()));
    lemma_keep_long_filters(whole, opts.min_len());
    let long = |r: Range| r.end() - r.start() >= opts.min_len();
    lemma_same_filter(whole, |r: Range| r.len() >= opts.min_len(), long);
    assert forall|i: int|
        0 <= i < whole.len() && (#[trigger] whole[i]).end() - whole[i].start()
            >= opts.min_len() implies batch::segmentation(decisions, opts).contains(whole[i]) by {
        assert(long(whole[i]));
        lemma_filter_keeps(whole, long, i);
    }
}

/// What passes a filter is in what is left.
proof fn lemma_filter_keeps<T>(seq: Seq<T>, p: spec_fn(T) -> bool, i: int)
    requires
        0 <= i < seq.len(),
        p(seq[i]),
    ensures
        seq.filter(p).contains(seq[i]),
    decreases seq.len(),
{
    reveal(Seq::filter);
    let before = seq.drop_last();
    let kept = before.filter(p);
    if i == seq.len() - 1 {
        assert(seq.filter(p) == kept.push(seq.last()));
        assert(seq.filter(p).last() == seq[i]);
    } else {
        lemma_filter_keeps(before, p, i);
        let k = choose|k: int| 0 <= k < kept.len() && kept[k] == before[i];
        assert(seq.filter(p)[k] == seq[i]);
    }
}

/// Whether two accepted elements with at most `merge_gap` elements between them enclose `x`.
pub open spec fn bridged(decisions: Seq<(bool, Span)>, merge_gap: usize, x: int) -> bool {
    exists|a: int, b: int|
        #![trigger accepted(decisions, a), accepted(decisions, b)]
        accepted(decisions, a) && accepted(decisions, b) && a <= x <= b && b - a - 1 <= merge_gap
}

/// What is bridged stays so when more is decided.
proof fn lemma_bridged_push(decisions: Seq<(bool, Span)>, merge_gap: usize, x: int)
    requires
        decisions.len() > 0,
        bridged(decisions.drop_last(), merge_gap, x),
    ensures
        bridged(decisions, merge_gap, x),
{
    let before = decisions.drop_last();
    let (a, b) = choose|a: int, b: int|
        #![trigger accepted(before, a), accepted(before, b)]
        accepted(before, a) && accepted(before, b) && a <= x <= b && b - a - 1 <= merge_gap;
    lemma_accepted_last(decisions, a);
    lemma_accepted_last(decisions, b);
}

/// Folding the accepted spans covers only what is bridged, and every range ends with an accepted
/// element.
proof fn lemma_folded_bridges(decisions: Seq<(bool, Span)>, merge_gap: usize, x: int)
    requires
        well_formed(decisions),
    ensures
        covered(batch::folded(decisions, merge_gap), x) ==> bridged(decisions, merge_gap, x),
        forall|i: int|
            0 <= i < batch::folded(decisions, merge_gap).len() ==> accepted(
                decisions,
                (#[trigger] batch::folded(decisions, merge_gap)[i]).end() - 1,
            ),
    decreases decisions.len(),
{
    let now = batch::folded(decisions, merge_gap);
    if decisions.len() > 0 {
        let before = decisions.drop_last();
        assert(forall|i: int| 0 <= i < before.len() ==> before[i] == decisions[i]);
        let (active, span) = decisions.last();
        assert(decisions.last() == decisions[decisions.len() - 1]);
        lemma_folded_bridges(before, merge_gap, x);
        let merged = batch::folded(before, merge_gap);
        if bridged(before, merge_gap, x) {
            lemma_bridged_push(decisions, merge_gap, x);
        }
        assert forall|i: int| 0 <= i < merged.len() implies accepted(
            decisions,
            (#[trigger] merged[i]).end() - 1,
        ) by {
            lemma_accepted_last(decisions, merged[i].end() - 1);
        }
        if active {
            assert(span.covers(span.start() as int) && span.covers(span.end() - 1));
            assert(accepted(decisions, span.start() as int));
            assert(accepted(decisions, span.end() - 1));
            if span.covers(x) {
                assert(accepted(decisions, x));
                assert(bridged(decisions, merge_gap, x));
            }
            if now.len() == merged.len() {
                let last = merged.last();
                assert(merged[merged.len() - 1] == last);
                assert(accepted(decisions, last.end() - 1));
                let grown = now.last();
                assert(merged.drop_last().push(last) =~= merged);
                assert(now =~= merged.drop_last().push(grown));
                lemma_covered_push(merged.drop_last(), last, x);
                lemma_covered_push(merged.drop_last(), grown, x);
                if last.end() <= x < span.start() {
                    let (a, b) = (last.end() - 1, span.start() as int);
                    assert(accepted(decisions, a) && accepted(decisions, b) && a <= x <= b && b - a
                        - 1 <= merge_gap);
                    assert(bridged(decisions, merge_gap, x));
                }
                assert forall|i: int| 0 <= i < now.len() implies accepted(
                    decisions,
                    (#[trigger] now[i]).end() - 1,
                ) by {
                    if i < now.len() - 1 {
                        assert(now[i] == merged[i]);
                    }
                }
            } else {
                lemma_covered_push(merged, Range::of(span.start(), span.end()), x);
                assert forall|i: int| 0 <= i < now.len() implies accepted(
                    decisions,
                    (#[trigger] now[i]).end() - 1,
                ) by {
                    if i < now.len() - 1 {
                        assert(now[i] == merged[i]);
                    }
                }
            }
        }
    }
}

/// What merging does, element by element: without a minimum length, an element is covered exactly
/// where it is accepted, or lies between two accepted elements with at most `merge_gap` elements
/// between them. With [`segmentation_is_separated`], this fixes every range.
pub proof fn segmentation_closes_exactly_the_short_gaps(
    decisions: Seq<(bool, Span)>,
    opts: SegmentOptions,
    x: int,
)
    requires
        batch::ascending(decisions),
        well_formed(decisions),
        opts.min_len() == 0,
    ensures
        covered(batch::segmentation(decisions, opts), x) <==> exists|a: int, b: int|
            #![trigger accepted(decisions, a), accepted(decisions, b)]
            accepted(decisions, a) && accepted(decisions, b) && a <= x <= b && b - a - 1
                <= opts.merge_gap(),
{
    let ranges = batch::segmentation(decisions, opts);
    batch::lemma_merged_runs(decisions, opts.merge_gap());
    lemma_keep_all(batch::merge_adjacent(batch::all_runs(decisions), opts.merge_gap()));
    lemma_folded_bridges(decisions, opts.merge_gap(), x);
    segmentation_is_separated(decisions, opts);
    if bridged(decisions, opts.merge_gap(), x) {
        let (a, b) = choose|a: int, b: int|
            #![trigger accepted(decisions, a), accepted(decisions, b)]
            accepted(decisions, a) && accepted(decisions, b) && a <= x <= b && b - a - 1
                <= opts.merge_gap();
        segmentation_keeps_accepted_elements(decisions, opts, a);
        segmentation_keeps_accepted_elements(decisions, opts, b);
        let i = choose|i: int| 0 <= i < ranges.len() && (#[trigger] ranges[i]).covers(a);
        let j = choose|j: int| 0 <= j < ranges.len() && (#[trigger] ranges[j]).covers(b);
        assert(ranges[i].covers(a) && ranges[j].covers(b));
        assert(i == j);
        assert(ranges[i].covers(x));
    }
}

/// Nothing waits longer than it must: what ending the stream would still emit reaches to within
/// `merge_gap` elements of the start of the last span, so that a later span could still join it.
pub proof fn outstanding_ranges_can_still_grow(decisions: Seq<(bool, Span)>, opts: SegmentOptions)
    requires
        batch::ascending(decisions),
        well_formed(decisions),
        decisions.len() > 0,
    ensures
        ({
            let left = batch::stream(SegmenterView::fresh(opts), decisions).0.finished();
            forall|i: int|
                0 <= i < left.len() ==> (#[trigger] left[i]).end() + opts.merge_gap()
                    >= decisions.last().1.start()
        }),
{
    let before = decisions.drop_last();
    assert forall|i: int, j: int| 0 <= i < j < before.len() implies (
    #[trigger] before[i]).1.start() <= (#[trigger] before[j]).1.start() by {
        assert(before[i] == decisions[i] && before[j] == decisions[j]);
    }
    assert(forall|i: int| 0 <= i < before.len() ==> before[i] == decisions[i]);
    assert(decisions.last() == decisions[decisions.len() - 1]);
    batch::lemma_stream_is_well_formed(before, opts);
    lemma_stream_keeps_options(SegmenterView::fresh(opts), before);
}

/// Which spans a segmenter takes next, and what it does with others: those that start no earlier
/// than the last one it was given, and any span at first.
pub proof fn spans_are_taken_in_order(
    decisions: Seq<(bool, Span)>,
    opts: SegmentOptions,
    span: Span,
)
    requires
        batch::ascending(decisions),
        well_formed(decisions),
    ensures
        ({
            let state = batch::stream(SegmenterView::fresh(opts), decisions).0;
            &&& state.admits(span) <==> (decisions.len() == 0 || decisions.last().1.start()
                <= span.start())
            &&& decisions.len() > 0 ==> state.last_start == Some(decisions.last().1.start())
        }),
{
    batch::lemma_stream_is_well_formed(decisions, opts);
}

} // verus!
