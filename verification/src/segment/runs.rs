//! The predicate-driven batch drivers.
use vstd::prelude::*;

use crate::error::WinditError;
use crate::plan::Span;
use crate::segment::batch;
use crate::segment::laws;
use crate::segment::range::{Range, SegmentOptions};
use crate::segment::segmenter::{Segmenter, SegmenterView};
use crate::windowed::Windowed;

verus! {

/// Whether the windows are in span order: starts never go backward.
pub open spec fn in_span_order<V>(seq: Seq<Windowed<V>>) -> bool {
    forall|i: int, j: int|
        0 <= i < j < seq.len() ==> (#[trigger] seq[i]).span.start() <= (
        #[trigger] seq[j]).span.start()
}

/// Whether window `k` is the first one that starts before its predecessor.
pub open spec fn first_descent<V>(seq: Seq<Windowed<V>>, k: int) -> bool {
    &&& 0 < k < seq.len()
    &&& in_span_order(seq.take(k))
    &&& seq[k].span.start() < seq[k - 1].span.start()
}

/// The error of a first descent at window `k`.
pub open spec fn descent_error<V>(seq: Seq<Windowed<V>>, k: int) -> WinditError {
    WinditError::NonMonotonicSpan {
        prev_start: seq[k - 1].span.start(),
        start: seq[k].span.start(),
    }
}

/// The decisions that flag the leading windows of a sequence.
pub open spec fn decisions<V>(seq: Seq<Windowed<V>>, flags: Seq<bool>) -> Seq<(bool, Span)> {
    Seq::new(flags.len(), |i: int| (flags[i], seq[i].span))
}

/// Whether `flags` are answers of `predicate` on the leading windows of a sequence.
pub open spec fn answers<V, F: Fn(&V) -> bool>(
    predicate: F,
    seq: Seq<Windowed<V>>,
    flags: Seq<bool>,
) -> bool {
    &&& flags.len() <= seq.len()
    &&& forall|i: int|
        0 <= i < flags.len() ==> call_ensures(predicate, (&seq[i].value,), #[trigger] flags[i])
}

/// Whether `ranges` is the segmentation of the windows that `predicate` accepts.
pub open spec fn is_runs<V, F: Fn(&V) -> bool>(
    predicate: F,
    seq: Seq<Windowed<V>>,
    opts: SegmentOptions,
    ranges: Seq<Range>,
) -> bool {
    in_span_order(seq) && exists|flags: Seq<bool>|
        flags.len() == seq.len() && #[trigger] answers(predicate, seq, flags) && ranges
            == batch::segmentation(decisions(seq, flags), opts)
}

/// Whether the batch drivers may report `e`: the first descent of the sequence, or
/// an output of at least one range, from the leading windows that are in span order, that
/// the allocator could not hold.
pub open spec fn is_runs_error<V, F: Fn(&V) -> bool>(
    predicate: F,
    seq: Seq<Windowed<V>>,
    opts: SegmentOptions,
    e: WinditError,
) -> bool {
    ||| exists|k: int| #[trigger] first_descent(seq, k) && e == descent_error(seq, k)
    ||| e matches WinditError::AllocFailed { elements } && exists|flags: Seq<bool>| #[trigger]
        answers(predicate, seq, flags) && in_span_order(seq.take(flags.len() as int)) && 1
            <= elements <= batch::segmentation(
            decisions(seq, flags),
            opts,
        ).len()
}

/// Push a finalized range onto the output, where `reserved` says whether the
/// allocator granted the room for it.
pub fn push_reserved(out: &mut Vec<Range>, r: Range, reserved: bool) -> (res: Result<
    (),
    WinditError,
>)
    ensures
        reserved ==> res == Ok::<(), WinditError>(()) && final(out)@ == old(out)@.push(r),
        !reserved ==> final(out)@ == old(out)@ && res == Err::<(), WinditError>(
            WinditError::AllocFailed {
                elements: if old(out)@.len() < usize::MAX {
                    (old(out)@.len() + 1) as usize
                } else {
                    usize::MAX
                },
            },
        ),
{
    if !reserved {
        return Err(WinditError::AllocFailed { elements: out.len().saturating_add(1) });
    }
    out.push(r);
    Ok(())
}

/// Push a finalized range onto the output, surfacing an allocation failure as
/// [`WinditError::AllocFailed`].
pub fn push_checked(out: &mut Vec<Range>, r: Range) -> (res: Result<(), WinditError>)
    ensures
        res is Ok ==> final(out)@ == old(out)@.push(r),
        res matches Err(e) ==> final(out)@ == old(out)@ && e == (WinditError::AllocFailed {
            elements: if old(out)@.len() < usize::MAX {
                (old(out)@.len() + 1) as usize
            } else {
                usize::MAX
            },
        }),
{
    let reserved = out.try_reserve(1).is_ok();
    push_reserved(out, r, reserved)
}

/// What the streaming state and output are after the decisions on the leading
/// windows.
pub(crate) open spec fn streamed<V>(
    seg: SegmenterView,
    out: Seq<Range>,
    seq: Seq<Windowed<V>>,
    flags: Seq<bool>,
    opts: SegmentOptions,
) -> bool {
    &&& flags.len() <= seq.len()
    &&& in_span_order(seq.take(flags.len() as int))
    &&& batch::stream(SegmenterView::fresh(opts), decisions(seq, flags)) == (seg, out)
    &&& flags.len() == 0 ==> seg.last_start is None
    &&& flags.len() > 0 ==> seg.last_start == Some(seq[flags.len() - 1].span.start())
    &&& forall|i: int| 0 <= i < flags.len() ==> (#[trigger] seq[i]).span.wf()
}

/// A further admitted window extends the correspondence.
pub(crate) proof fn lemma_streamed_push<V>(
    seg: SegmenterView,
    out: Seq<Range>,
    seq: Seq<Windowed<V>>,
    flags: Seq<bool>,
    opts: SegmentOptions,
    active: bool,
)
    requires
        streamed(seg, out, seq, flags, opts),
        flags.len() < seq.len(),
        seq[flags.len() as int].span.wf(),
    ensures
        ({
            let k = flags.len() as int;
            let (next, emitted) = seg.step(active, seq[k].span);
            &&& seg.admits(seq[k].span) ==> streamed(
                next,
                batch::appended(out, emitted),
                seq,
                flags.push(active),
                opts,
            )
            &&& !seg.admits(seq[k].span) ==> first_descent(seq, k) && descent_error(seq, k) == (
            WinditError::NonMonotonicSpan {
                prev_start: seg.last_start->Some_0,
                start: seq[k].span.start(),
            })
        }),
{
    let k = flags.len() as int;
    let longer = decisions(seq, flags.push(active));
    assert(longer.drop_last() =~= decisions(seq, flags));
    assert(longer.last() == (active, seq[k].span));
    if seg.admits(seq[k].span) {
        let taken = seq.take(k + 1);
        assert forall|i: int, j: int| 0 <= i < j < taken.len() implies (
        #[trigger] taken[i]).span.start() <= (#[trigger] taken[j]).span.start() by {
            let shorter = seq.take(k);
            if j < k {
                assert(shorter[i].span.start() <= shorter[j].span.start());
            } else if i < k - 1 {
                assert(shorter[i].span.start() <= shorter[k - 1].span.start());
            }
        }
    }
}

/// The ranges streamed so far, and those outstanding, are the segmentation of the
/// decisions so far.
pub(crate) proof fn lemma_streamed_segmentation<V>(
    seg: SegmenterView,
    out: Seq<Range>,
    seq: Seq<Windowed<V>>,
    flags: Seq<bool>,
    opts: SegmentOptions,
)
    requires
        streamed(seg, out, seq, flags, opts),
    ensures
        out + seg.finished() == batch::segmentation(decisions(seq, flags), opts),
        flags.len() == seq.len() ==> in_span_order(seq),
{
    let d = decisions(seq, flags);
    let taken = seq.take(flags.len() as int);
    assert forall|i: int, j: int| 0 <= i < j < d.len() implies (#[trigger] d[i]).1.start() <= (
    #[trigger] d[j]).1.start() by {
        assert(taken[i].span.start() <= taken[j].span.start());
    }
    assert forall|i: int| 0 <= i < d.len() implies (#[trigger] d[i]).1.wf() by {
        assert(seq[i].span.wf());
    }
    batch::streaming_equals_batch(d, opts);
    if flags.len() == seq.len() {
        assert(taken =~= seq);
    }
}

/// Group the windows `predicate` accepts into merged, length-filtered element
/// ranges, in input order.
///
/// A run is a maximal block of accepted windows that is also *geometrically
/// continuous*: a window is added to the open run only when its span starts at or
/// before the run's current end. Each run becomes the [`Range`] from its first
/// window's start to the largest end among its windows. The runs are then merged
/// when separated by at most [`SegmentOptions::merge_gap`] elements, and any run
/// shorter than [`SegmentOptions::min_len`] is dropped.
///
/// Returns [`WinditError::NonMonotonicSpan`] if a span starts strictly before its
/// predecessor, and [`WinditError::AllocFailed`] if the allocator refuses room for
/// the output.
pub fn runs<V, F>(seq: &[Windowed<V>], predicate: F, opts: &SegmentOptions) -> (r: Result<
    Vec<Range>,
    WinditError,
>) where F: Fn(&V) -> bool
    requires
        forall|i: int|
            0 <= i < seq@.len() ==> call_requires(predicate, (&(#[trigger] seq@[i]).value,)),
    ensures
        match r {
            Ok(ranges) => is_runs(predicate, seq@, *opts, ranges@),
            Err(e) => is_runs_error(predicate, seq@, *opts, e),
        },
{
    let mut seg = Segmenter::new(*opts);
    let mut out: Vec<Range> = Vec::new();
    let ghost mut flags: Seq<bool> = Seq::empty();
    let mut i: usize = 0;
    assert(streamed(seg@, out@, seq@, flags, *opts));
    while i < seq.len()
        invariant
            i <= seq.len(),
            flags.len() == i,
            answers(predicate, seq@, flags),
            streamed(seg@, out@, seq@, flags, *opts),
            forall|j: int|
                0 <= j < seq@.len() ==> call_requires(predicate, (&(#[trigger] seq@[j]).value,)),
        decreases seq.len() - i,
    {
        let w = &seq[i];
        let active = predicate(w.value());
        let span = w.span();
        proof {
            lemma_streamed_push(seg@, out@, seq@, flags, *opts, active);
        }
        match seg.push(active, span) {
            Err(e) => {
                assert(first_descent(seq@, i as int));
                return Err(e);
            },
            Ok(emitted) => {
                proof {
                    flags = flags.push(active);
                }
                if let Some(range) = emitted {
                    let ghost before = out@;
                    match push_checked(&mut out, range) {
                        Ok(()) => {},
                        Err(e) => {
                            proof {
                                lemma_streamed_segmentation(
                                    seg@,
                                    batch::appended(before, emitted),
                                    seq@,
                                    flags,
                                    *opts,
                                );
                                assert(answers(predicate, seq@, flags));
                                assert(out.len() <= usize::MAX);
                            }
                            return Err(e);
                        },
                    }
                }
            },
        }
        i = i + 1;
    }
    proof {
        lemma_streamed_segmentation(seg@, out@, seq@, flags, *opts);
    }
    let ghost whole = out@ + seg@.finished();
    let mut tail = seg.finish();
    loop
        invariant
            flags.len() == seq@.len(),
            answers(predicate, seq@, flags),
            in_span_order(seq@),
            whole == batch::segmentation(decisions(seq@, flags), *opts),
            out@ + tail@ == whole,
        ensures
            out@ == whole,
        decreases tail@.len(),
    {
        let ghost rest = tail@;
        match tail.next() {
            None => {
                assert(out@ + rest =~= out@);
                break;
            },
            Some(range) => {
                let ghost before = out@;
                match push_checked(&mut out, range) {
                    Ok(()) => {},
                    Err(e) => {
                        return Err(e);
                    },
                }
                assert(out@ + tail@ =~= before + rest);
            },
        }
    }
    Ok(out)
}

/// Whether `best` is the longest of `ranges`, the earliest of them on a tie, and
/// absent exactly where there is none.
pub open spec fn is_longest(ranges: Seq<Range>, best: Option<Range>) -> bool {
    match best {
        None => ranges.len() == 0,
        Some(r) => exists|i: int|
            {
                &&& 0 <= i < ranges.len()
                &&& #[trigger] ranges[i] == r
                &&& forall|j: int| 0 <= j < ranges.len() ==> (#[trigger] ranges[j]).len() <= r.len()
                &&& forall|j: int| 0 <= j < i ==> (#[trigger] ranges[j]).len() < r.len()
            },
    }
}

/// The longest of `ranges`, the earliest of them on a tie.
pub fn longest_of(ranges: &[Range]) -> (best: Option<Range>)
    ensures
        is_longest(ranges@, best),
{
    let mut best: Option<Range> = None;
    let mut i: usize = 0;
    while i < ranges.len()
        invariant
            i <= ranges.len(),
            is_longest(ranges@.take(i as int), best),
        decreases ranges.len() - i,
    {
        let r = ranges[i];
        let ghost was = best;
        let ghost seen = ranges@.take(i as int);
        let ghost more = ranges@.take(i + 1);
        assert(forall|j: int| 0 <= j < i ==> more[j] == seen[j]);
        // The incumbent stays on a tie, so the earliest of equal lengths wins.
        let replace = match best {
            Some(b) => b.len() < r.len(),
            None => true,
        };
        if replace {
            best = Some(r);
            assert(more[i as int] == r);
        } else {
            proof {
                let b = was->Some_0;
                let at = choose|at: int|
                    {
                        &&& 0 <= at < seen.len()
                        &&& #[trigger] seen[at] == b
                        &&& forall|j: int|
                            0 <= j < seen.len() ==> (#[trigger] seen[j]).len() <= b.len()
                        &&& forall|j: int| 0 <= j < at ==> (#[trigger] seen[j]).len() < b.len()
                    };
                assert(more[at] == b);
            }
        }
        i = i + 1;
    }
    assert(ranges@.take(ranges@.len() as int) =~= ranges@);
    best
}

/// The longest range from [`runs`], breaking ties toward the earliest.
///
/// Returns `Ok(None)` when [`runs`] is empty, and propagates its errors.
pub fn longest_run<V, F>(seq: &[Windowed<V>], predicate: F, opts: &SegmentOptions) -> (r: Result<
    Option<Range>,
    WinditError,
>) where F: Fn(&V) -> bool
    requires
        forall|i: int|
            0 <= i < seq@.len() ==> call_requires(predicate, (&(#[trigger] seq@[i]).value,)),
    ensures
        match r {
            Ok(best) => exists|ranges: Seq<Range>| #[trigger]
                is_runs(predicate, seq@, *opts, ranges) && is_longest(ranges, best),
            Err(e) => is_runs_error(predicate, seq@, *opts, e),
        },
{
    match runs(seq, predicate, opts) {
        Ok(ranges) => Ok(longest_of(ranges.as_slice())),
        Err(e) => Err(e),
    }
}

/// The ranges from [`runs`], sorted by length descending.
///
/// The sort is stable, so equal-length ranges keep their input order. Propagates
/// the errors of [`runs`].
pub fn runs_sorted<V, F>(seq: &[Windowed<V>], predicate: F, opts: &SegmentOptions) -> (r: Result<
    Vec<Range>,
    WinditError,
>) where F: Fn(&V) -> bool
    requires
        forall|i: int|
            0 <= i < seq@.len() ==> call_requires(predicate, (&(#[trigger] seq@[i]).value,)),
    ensures
        match r {
            Ok(sorted) => exists|ranges: Seq<Range>| #[trigger]
                is_runs(predicate, seq@, *opts, ranges) && crate::segment::sort::is_stable_sort(
                    ranges,
                    sorted@,
                ),
            Err(e) => is_runs_error(predicate, seq@, *opts, e),
        },
{
    match runs(seq, predicate, opts) {
        Ok(ranges) => {
            let ghost unsorted = ranges@;
            let sorted = crate::segment::sort::sort_by_len_descending(ranges);
            assert(is_runs(predicate, seq@, *opts, unsorted));
            Ok(sorted)
        },
        Err(e) => Err(e),
    }
}

/// The windows whose value is accepted.
pub open spec fn accepted<V>(accepts: spec_fn(V) -> bool, seq: Seq<Windowed<V>>) -> Seq<
    Windowed<V>,
> {
    seq.filter(|w: Windowed<V>| accepts(w.value))
}

/// The decisions of a pure predicate.
spec fn decided<V>(accepts: spec_fn(V) -> bool, seq: Seq<Windowed<V>>) -> Seq<(bool, Span)> {
    Seq::new(seq.len(), |i: int| (accepts(seq[i].value), seq[i].span))
}

/// Deciding the accepted windows is keeping the accepting decisions.
proof fn lemma_decided_accepted<V>(accepts: spec_fn(V) -> bool, seq: Seq<Windowed<V>>)
    ensures
        decided(accepts, accepted(accepts, seq)) == batch::accepting(decided(accepts, seq)),
    decreases seq.len(),
{
    reveal(Seq::filter);
    if seq.len() == 0 {
        assert(decided(accepts, accepted(accepts, seq)) =~= Seq::empty());
    } else {
        let before = seq.drop_last();
        lemma_decided_accepted(accepts, before);
        assert(decided(accepts, seq).drop_last() =~= decided(accepts, before));
        if accepts(seq.last().value) {
            assert(accepted(accepts, seq) =~= accepted(accepts, before).push(seq.last()));
            assert(decided(accepts, accepted(accepts, seq)) =~= decided(
                accepts,
                accepted(accepts, before),
            ).push((true, seq.last().span)));
        }
    }
}

/// The runs are those of the accepted windows alone: with a predicate that is a pure function
/// of the value, leaving the windows out that it rejects changes nothing.
pub proof fn rejected_windows_do_not_change_the_runs<V, F: Fn(&V) -> bool>(
    predicate: F,
    accepts: spec_fn(V) -> bool,
    seq: Seq<Windowed<V>>,
    opts: SegmentOptions,
    ranges: Seq<Range>,
    fewer: Seq<Range>,
)
    requires
        forall|v: &V, flag: bool| #[trigger]
            call_ensures(predicate, (v,), flag) ==> flag == accepts(*v),
        is_runs(predicate, seq, opts, ranges),
        is_runs(predicate, accepted(accepts, seq), opts, fewer),
    ensures
        ranges == fewer,
{
    let kept = accepted(accepts, seq);
    let flags = choose|flags: Seq<bool>|
        flags.len() == seq.len() && #[trigger] answers(predicate, seq, flags) && ranges
            == batch::segmentation(decisions(seq, flags), opts);
    let flags_kept = choose|flags: Seq<bool>|
        flags.len() == kept.len() && #[trigger] answers(predicate, kept, flags) && fewer
            == batch::segmentation(decisions(kept, flags), opts);
    assert forall|i: int| 0 <= i < seq.len() implies flags[i] == accepts(seq[i].value) by {
        assert(call_ensures(predicate, (&seq[i].value,), flags[i]));
    }
    assert forall|i: int| 0 <= i < kept.len() implies flags_kept[i] == accepts(kept[i].value) by {
        assert(call_ensures(predicate, (&kept[i].value,), flags_kept[i]));
    }
    assert(decisions(seq, flags) =~= decided(accepts, seq));
    assert(decisions(kept, flags_kept) =~= decided(accepts, kept));
    lemma_decided_accepted(accepts, seq);
    batch::rejected_windows_do_not_count(decided(accepts, seq), opts);
}

/// What the longest range is, by its bounds: one of the ranges, of at least as many elements as
/// every other and of more than every earlier one; there is one wherever there is a range.
pub proof fn the_longest_range_comes_first_among_the_longest(
    ranges: Seq<Range>,
    best: Option<Range>,
)
    requires
        is_longest(ranges, best),
        forall|i: int| 0 <= i < ranges.len() ==> (#[trigger] ranges[i]).wf(),
    ensures
        best is Some <==> ranges.len() > 0,
        best matches Some(r) ==> exists|i: int|
            0 <= i < ranges.len() && #[trigger] ranges[i] == r && (forall|j: int|
                0 <= j < ranges.len() ==> (#[trigger] ranges[j]).end() - ranges[j].start()
                    <= r.end() - r.start()) && (forall|j: int|
                0 <= j < i ==> (#[trigger] ranges[j]).end() - ranges[j].start() < r.end()
                    - r.start()),
{
    if let Some(r) = best {
        let i = choose|i: int|
            {
                &&& 0 <= i < ranges.len()
                &&& #[trigger] ranges[i] == r
                &&& forall|j: int| 0 <= j < ranges.len() ==> (#[trigger] ranges[j]).len() <= r.len()
                &&& forall|j: int| 0 <= j < i ==> (#[trigger] ranges[j]).len() < r.len()
            };
        assert(ranges[i] == r && r.wf());
        assert(forall|j: int|
            0 <= j < ranges.len() ==> (#[trigger] ranges[j]).wf() && ranges[j].len() <= r.len());
    }
}

/// What the batch drivers give, element by element: over windows in span order, without a
/// minimum length, an element lies in a range exactly where it lies between two elements of
/// accepted windows with at most `merge_gap` elements between them; the ranges hold at least one
/// element each, and more than `merge_gap` lie between any two.
pub proof fn runs_cover_the_accepted_windows<V, F: Fn(&V) -> bool>(
    predicate: F,
    accepts: spec_fn(V) -> bool,
    seq: Seq<Windowed<V>>,
    opts: SegmentOptions,
    ranges: Seq<Range>,
    x: int,
)
    requires
        forall|v: &V, flag: bool| #[trigger]
            call_ensures(predicate, (v,), flag) ==> flag == accepts(*v),
        forall|i: int| 0 <= i < seq.len() ==> (#[trigger] seq[i]).span.wf(),
        is_runs(predicate, seq, opts, ranges),
    ensures
        forall|i: int, j: int|
            0 <= i < j < seq.len() ==> (#[trigger] seq[i]).span.start() <= (
            #[trigger] seq[j]).span.start(),
        forall|i: int|
            0 <= i < ranges.len() ==> (#[trigger] ranges[i]).start() < ranges[i].end()
                && ranges[i].end() - ranges[i].start() >= opts.min_len(),
        forall|i: int, j: int|
            0 <= i < j < ranges.len() ==> (#[trigger] ranges[i]).end() + opts.merge_gap() < (
            #[trigger] ranges[j]).start(),
        opts.min_len() == 0 ==> ((exists|i: int|
            0 <= i < ranges.len() && (#[trigger] ranges[i]).start() <= x < ranges[i].end())
            <==> (exists|i: int, a: int, j: int, b: int|
            #![trigger seq[i].span.covers(a), seq[j].span.covers(b)]
            0 <= i < seq.len() && accepts(seq[i].value) && seq[i].span.covers(a) && 0 <= j
                < seq.len() && accepts(seq[j].value) && seq[j].span.covers(b) && a <= x <= b && b - a
                - 1 <= opts.merge_gap())),
{
    let flags = choose|flags: Seq<bool>|
        flags.len() == seq.len() && #[trigger] answers(predicate, seq, flags) && ranges
            == batch::segmentation(decisions(seq, flags), opts);
    assert forall|i: int| 0 <= i < seq.len() implies flags[i] == accepts(seq[i].value) by {
        assert(call_ensures(predicate, (&seq[i].value,), flags[i]));
    }
    let made = decisions(seq, flags);
    assert forall|i: int, j: int| 0 <= i < j < made.len() implies (#[trigger] made[i]).1.start() <= (
    #[trigger] made[j]).1.start() by {
        assert(seq[i].span.start() <= seq[j].span.start());
    }
    assert forall|i: int| 0 <= i < made.len() implies (#[trigger] made[i]).1.wf() by {
        assert(seq[i].span.wf());
    }
    laws::segmentation_is_separated(made, opts);
    assert forall|i: int| 0 <= i < ranges.len() implies (#[trigger] ranges[i]).end()
        - ranges[i].start() >= opts.min_len() by {
        assert(batch::segmentation(made, opts)[i].len() >= opts.min_len());
    }
    if opts.min_len() == 0 {
        laws::segmentation_closes_exactly_the_short_gaps(made, opts, x);
        if laws::covered(ranges, x) {
            let (a, b) = choose|a: int, b: int|
                #![trigger laws::accepted(made, a), laws::accepted(made, b)]
                laws::accepted(made, a) && laws::accepted(made, b) && a <= x <= b && b - a - 1
                    <= opts.merge_gap();
            let i = choose|i: int|
                0 <= i < made.len() && (#[trigger] made[i]).0 && made[i].1.covers(a);
            let j = choose|j: int|
                0 <= j < made.len() && (#[trigger] made[j]).0 && made[j].1.covers(b);
            assert(seq[i].span.covers(a) && seq[j].span.covers(b));
        }
        if exists|i: int, a: int, j: int, b: int|
            #![trigger seq[i].span.covers(a), seq[j].span.covers(b)]
            0 <= i < seq.len() && accepts(seq[i].value) && seq[i].span.covers(a) && 0 <= j
                < seq.len() && accepts(seq[j].value) && seq[j].span.covers(b) && a <= x <= b && b - a
                - 1 <= opts.merge_gap() {
            let (i, a, j, b) = choose|i: int, a: int, j: int, b: int|
                #![trigger seq[i].span.covers(a), seq[j].span.covers(b)]
                0 <= i < seq.len() && accepts(seq[i].value) && seq[i].span.covers(a) && 0 <= j
                    < seq.len() && accepts(seq[j].value) && seq[j].span.covers(b) && a <= x <= b
                    && b - a - 1 <= opts.merge_gap();
            assert(made[i].0 && made[i].1.covers(a));
            assert(made[j].0 && made[j].1.covers(b));
            assert(laws::accepted(made, a) && laws::accepted(made, b));
            assert(laws::covered(ranges, x));
            let k = choose|k: int| 0 <= k < ranges.len() && (#[trigger] ranges[k]).covers(x);
            assert(ranges[k].start() <= x < ranges[k].end());
        }
        if exists|i: int|
            0 <= i < ranges.len() && (#[trigger] ranges[i]).start() <= x < ranges[i].end() {
            let k = choose|k: int|
                0 <= k < ranges.len() && (#[trigger] ranges[k]).start() <= x < ranges[k].end();
            assert(ranges[k].covers(x));
        }
    }
}

/// What the minimum length does to the batch drivers: with a predicate that is a pure function of
/// the value, the runs are exactly those without a minimum that hold at least that many elements.
pub proof fn runs_keep_exactly_the_long_ones<V, F: Fn(&V) -> bool>(
    predicate: F,
    accepts: spec_fn(V) -> bool,
    seq: Seq<Windowed<V>>,
    opts: SegmentOptions,
    all: SegmentOptions,
    ranges: Seq<Range>,
    whole: Seq<Range>,
)
    requires
        forall|v: &V, flag: bool| #[trigger]
            call_ensures(predicate, (v,), flag) ==> flag == accepts(*v),
        forall|i: int| 0 <= i < seq.len() ==> (#[trigger] seq[i]).span.wf(),
        all.merge_gap() == opts.merge_gap(),
        all.min_len() == 0,
        is_runs(predicate, seq, opts, ranges),
        is_runs(predicate, seq, all, whole),
    ensures
        ranges == whole.filter(|r: Range| r.end() - r.start() >= opts.min_len()),
{
    let flags = choose|flags: Seq<bool>|
        flags.len() == seq.len() && #[trigger] answers(predicate, seq, flags) && ranges
            == batch::segmentation(decisions(seq, flags), opts);
    let flags_all = choose|flags: Seq<bool>|
        flags.len() == seq.len() && #[trigger] answers(predicate, seq, flags) && whole
            == batch::segmentation(decisions(seq, flags), all);
    assert forall|i: int| 0 <= i < seq.len() implies flags[i] == flags_all[i] by {
        assert(call_ensures(predicate, (&seq[i].value,), flags[i]));
        assert(call_ensures(predicate, (&seq[i].value,), flags_all[i]));
    }
    assert(flags =~= flags_all);
    let made = decisions(seq, flags);
    assert forall|i: int| 0 <= i < made.len() implies (#[trigger] made[i]).1.wf() by {
        assert(seq[i].span.wf());
    }
    laws::minimum_length_keeps_exactly_the_long_ranges(made, opts, all);
}

/// What the batch drivers refuse: a sequence is reported as backward exactly at a window that
/// starts before its predecessor, the windows before it starting in order, and with both starts.
pub proof fn runs_report_the_first_backward_window<V, F: Fn(&V) -> bool>(
    predicate: F,
    seq: Seq<Windowed<V>>,
    opts: SegmentOptions,
    e: WinditError,
)
    requires
        is_runs_error(predicate, seq, opts, e),
    ensures
        e is NonMonotonicSpan || e is AllocFailed,
        e matches WinditError::NonMonotonicSpan { prev_start, start } ==> start < prev_start
            && exists|k: int|
            0 < k < seq.len() && (#[trigger] seq[k]).span.start() == start && seq[k
                - 1].span.start() == prev_start && forall|i: int, j: int|
                0 <= i < j < k ==> (#[trigger] seq[i]).span.start() <= (
                #[trigger] seq[j]).span.start(),
        e matches WinditError::AllocFailed { elements } ==> 1 <= elements,
{
    if let WinditError::NonMonotonicSpan { prev_start, start } = e {
        let k = choose|k: int| #[trigger] first_descent(seq, k) && e == descent_error(seq, k);
        assert(seq[k].span.start() == start && seq[k - 1].span.start() == prev_start);
        assert forall|i: int, j: int| 0 <= i < j < k implies (#[trigger] seq[i]).span.start() <= (
        #[trigger] seq[j]).span.start() by {
            assert(seq.take(k)[i] == seq[i] && seq.take(k)[j] == seq[j]);
        }
    }
}

} // verus!
