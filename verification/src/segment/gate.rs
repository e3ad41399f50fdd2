//! Gating traits: stateful binary decisions, and the configurations that construct
//! them.
use vstd::prelude::*;

use crate::behaviour;
use crate::behaviour::Behaviour;
use crate::error::WinditError;
use crate::plan::Span;
use crate::segment::batch;
use crate::segment::laws;
use crate::segment::range::{Range, SegmentOptions};
use crate::segment::runs;
use crate::segment::segmenter::Segmenter;
use crate::windowed::Windowed;

verus! {

/// Stateful binary decision over a windowed value sequence: one window in, one
/// `bool` out.
///
/// The decision plane feeding the [`Segmenter`]: `Ok(true)` means the window is
/// active (accepted), `Ok(false)` inactive. A gate carries whatever state its
/// decision needs (a latch, a running count), and what it answers is a function of
/// the windows it is fed: its [`behaviour`](Gate::behaviour). The configuration that
/// constructs one is a [`GatePolicy`].
///
/// `Box<dyn Gate<V>>` is a valid object, so a gate can be selected at run time.
///
/// # Span contract
///
/// Spans arrive in ascending start order, equal starts admitted, and that is the
/// only ordering guaranteed: nested and overlapping spans are legal, so a later
/// span may end *before* one already seen. A gate that keeps a temporal horizon
/// must therefore fold it by maximum and measure against that fold.
pub trait Gate<V> {
    /// What this gate answers to the windows it is fed from here on.
    open spec fn behaviour(&self) -> Behaviour<V, bool> {
        vstd::pervasive::arbitrary()
    }

    /// What this gate answers once it is reset.
    open spec fn fresh(&self) -> Behaviour<V, bool> {
        vstd::pervasive::arbitrary()
    }

    /// What this gate answers after a timeline break, where that differs from what
    /// it answers once it is reset.
    open spec fn resumed(&self) -> Behaviour<V, bool> {
        self.fresh()
    }

    /// Advance by one window; `Ok(true)` means active (accepted).
    fn push(&mut self, w: &Windowed<V>) -> (out: Result<bool, WinditError>)
        ensures
            out == behaviour::answer(old(self).behaviour(), *w),
            final(self).behaviour() == behaviour::after(old(self).behaviour(), *w),
            final(self).fresh() == old(self).fresh(),
    ;

    /// Return to the freshly constructed state.
    fn reset(&mut self)
        ensures
            final(self).behaviour() == old(self).fresh(),
            final(self).fresh() == old(self).fresh(),
    ;

    /// Declare a timeline break; for a gate that carries no pending output across
    /// epochs this is [`reset`](Gate::reset).
    fn discontinuity(&mut self)
        ensures
            final(self).behaviour() == old(self).resumed() || final(self).behaviour()
                == old(self).fresh(),
            final(self).fresh() == old(self).fresh(),
        default_ensures
            final(self).behaviour() == old(self).fresh(),
    {
        self.reset();
    }
}

/// Forwarding so a boxed gate is itself a [`Gate`], letting a run-time-selected
/// `Box<dyn Gate<V>>` be *held* as a stage.
///
/// A timeline break is forwarded as one, not as a reset, so a stage that
/// distinguishes the two keeps its own answer.
impl<V, T: Gate<V> + ?Sized> Gate<V> for Box<T> {
    open spec fn behaviour(&self) -> Behaviour<V, bool> {
        (**self).behaviour()
    }

    open spec fn fresh(&self) -> Behaviour<V, bool> {
        (**self).fresh()
    }

    open spec fn resumed(&self) -> Behaviour<V, bool> {
        (**self).resumed()
    }

    fn push(&mut self, w: &Windowed<V>) -> (out: Result<bool, WinditError>) {
        (**self).push(w)
    }

    fn reset(&mut self)
        ensures
            exists|m: &mut T|
                #![trigger call_ensures(T::reset, (m,), ())]
                &*m == &**old(self) && &*final(m) == &**final(self) && call_ensures(
                    T::reset,
                    (m,),
                    (),
                ),
    {
        behaviour::tell(T::reset, &mut **self);
    }

    fn discontinuity(&mut self)
        ensures
            exists|m: &mut T|
                #![trigger call_ensures(T::discontinuity, (m,), ())]
                &*m == &**old(self) && &*final(m) == &**final(self) && call_ensures(
                    T::discontinuity,
                    (m,),
                    (),
                ),
    {
        behaviour::tell(T::discontinuity, &mut **self);
    }
}

/// The decisions of a behaviour on the leading `n` windows of a sequence.
pub open spec fn gated<V>(b: Behaviour<V, bool>, seq: Seq<Windowed<V>>, n: int) -> Seq<
    (bool, Span),
> {
    runs::decisions(seq, flags(b, seq, n))
}

/// The answers of a behaviour to the leading `n` windows of a sequence, where they
/// are decisions.
pub open spec fn flags<V>(b: Behaviour<V, bool>, seq: Seq<Windowed<V>>, n: int) -> Seq<bool> {
    Seq::new(n as nat, |i: int| behaviour::answers(b, seq)[i]->Ok_0)
}

/// Whether a behaviour decides each of the leading `n` windows of a sequence.
pub open spec fn decides<V>(b: Behaviour<V, bool>, seq: Seq<Windowed<V>>, n: int) -> bool {
    forall|i: int| 0 <= i < n ==> (#[trigger] behaviour::answers(b, seq)[i]) is Ok
}

/// Whether segmenting fails at window `k`: the windows before it are decided and in
/// span order, and `e` is either the answer to window `k`, or, where that window is
/// decided, its backward start.
pub open spec fn fails_at<V>(
    b: Behaviour<V, bool>,
    seq: Seq<Windowed<V>>,
    k: int,
    e: WinditError,
) -> bool {
    &&& 0 <= k < seq.len()
    &&& decides(b, seq, k)
    &&& runs::in_span_order(seq.take(k))
    &&& match behaviour::answers(b, seq)[k] {
        Err(refused) => e == refused,
        Ok(_) => runs::first_descent(seq, k) && e == runs::descent_error(seq, k),
    }
}

/// Whether segmenting a sequence with a behaviour gives `r`.
///
/// Success is the segmentation of the decided windows. An error is that of the first
/// window that is refused or starts backward, or an output of at least one range, from
/// leading windows that are decided and in span order, that the allocator could not hold.
pub open spec fn is_segmented<V>(
    b: Behaviour<V, bool>,
    seq: Seq<Windowed<V>>,
    opts: SegmentOptions,
    r: Result<Vec<Range>, WinditError>,
) -> bool {
    match r {
        Ok(ranges) => {
            &&& decides(b, seq, seq.len() as int)
            &&& runs::in_span_order(seq)
            &&& ranges@ == batch::segmentation(gated(b, seq, seq.len() as int), opts)
        },
        Err(e) => {
            ||| exists|k: int| #[trigger] fails_at(b, seq, k, e)
            ||| e matches WinditError::AllocFailed { elements } && exists|n: int|
                0 <= n <= seq.len() && #[trigger] decides(b, seq, n) && runs::in_span_order(
                    seq.take(n),
                ) && 1 <= elements <= batch::segmentation(gated(b, seq, n), opts).len()
        },
    }
}

/// A gating configuration: names the strategy, constructs its streaming [`Gate`],
/// and drives it as a batch segmentation convenience.
///
/// Generic over the value type `V`; the shipped gates implement it for binary32
/// scores. Implement the factory [`gate`](GatePolicy::gate) to add a strategy; the
/// batch [`segment`](GatePolicy::segment) method is provided over it.
pub trait GatePolicy<V> {
    /// The streaming state this configuration constructs.
    type Gate: Gate<V>;

    /// What a fresh gate of this configuration answers.
    open spec fn behaviour(&self) -> Behaviour<V, bool> {
        vstd::pervasive::arbitrary()
    }

    /// Fresh streaming state for this configuration.
    fn gate(&self) -> (gate: Self::Gate)
        ensures
            gate.behaviour() == self.behaviour(),
            gate.fresh() == self.behaviour(),
    ;

    /// Batch convenience: gate every window in `seq` through a fresh [`Gate`] and
    /// shape the accepted runs with `opts`, in input order.
    ///
    /// This drives the decisions through a fresh [`Segmenter`] and collects what it
    /// emits. The sequence must be in span order, as planners produce; a strictly
    /// backward start is reported as [`WinditError::NonMonotonicSpan`].
    fn segment(&self, opts: &SegmentOptions, seq: &[Windowed<V>]) -> (r: Result<
        Vec<Range>,
        WinditError,
    >)
        ensures
            is_segmented(self.behaviour(), seq@, *opts, r),
    {
        let mut gate = self.gate();
        let mut seg = Segmenter::new(*opts);
        let mut out: Vec<Range> = Vec::new();
        let ghost b = self.behaviour();
        let mut i: usize = 0;
        assert(flags(b, seq@, 0) =~= Seq::empty());
        assert(runs::streamed(seg@, out@, seq@, flags(b, seq@, 0), *opts));
        proof {
            behaviour::lemma_left_nothing(b, seq@.take(0));
        }
        while i < seq.len()
            invariant
                i <= seq.len(),
                b == self.behaviour(),
                decides(b, seq@, i as int),
                gate.behaviour() == behaviour::left(b, seq@.take(i as int)),
                runs::streamed(seg@, out@, seq@, flags(b, seq@, i as int), *opts),
            decreases seq.len() - i,
        {
            let w = &seq[i];
            proof {
                behaviour::lemma_left(b, seq@.take(i as int), seq@[i as int]);
                assert(seq@.take(i as int).push(seq@[i as int]) =~= seq@.take(i + 1));
            }
            let active = match gate.push(w) {
                Ok(active) => active,
                Err(e) => {
                    assert(fails_at(b, seq@, i as int, e));
                    return Err(e);
                },
            };
            let span = w.span();
            proof {
                runs::lemma_streamed_push(
                    seg@,
                    out@,
                    seq@,
                    flags(b, seq@, i as int),
                    *opts,
                    active,
                );
                assert(flags(b, seq@, i + 1) =~= flags(b, seq@, i as int).push(active));
            }
            match seg.push(active, span) {
                Err(e) => {
                    assert(fails_at(b, seq@, i as int, e));
                    return Err(e);
                },
                Ok(emitted) => {
                    if let Some(range) = emitted {
                        let ghost before = out@;
                        match runs::push_checked(&mut out, range) {
                            Ok(()) => {},
                            Err(e) => {
                                proof {
                                    runs::lemma_streamed_segmentation(
                                        seg@,
                                        batch::appended(before, emitted),
                                        seq@,
                                        flags(b, seq@, i + 1),
                                        *opts,
                                    );
                                    assert(out.len() <= usize::MAX);
                                    assert(decides(b, seq@, i + 1));
                                }
                                return Err(e);
                            },
                        }
                    }
                },
            }
            i = i + 1;
        }
        proof {
            runs::lemma_streamed_segmentation(
                seg@,
                out@,
                seq@,
                flags(b, seq@, seq@.len() as int),
                *opts,
            );
        }
        let ghost whole = out@ + seg@.finished();
        let mut tail = seg.finish();
        loop
            invariant
                b == self.behaviour(),
                decides(b, seq@, seq@.len() as int),
                runs::in_span_order(seq@),
                whole == batch::segmentation(gated(b, seq@, seq@.len() as int), *opts),
                out@ + tail@ == whole,
            ensures
                out@ == whole,
            decreases tail@.len(),
        {
            let ghost rest = tail@;
            match tail.next() {
                None => {
                    assert(out@ + rest =~= out@);
                    break;
                },
                Some(range) => {
                    let ghost before = out@;
                    match runs::push_checked(&mut out, range) {
                        Ok(()) => {},
                        Err(e) => {
                            return Err(e);
                        },
                    }
                    assert(out@ + tail@ =~= before + rest);
                },
            }
        }
        Ok(out)
    }
}

/// What a batch segmentation gives, by the answers of its gating stage: success means that every
/// window was decided and starts no earlier than the one before it, and covers, without a minimum
/// length, exactly what lies between two elements of accepted windows with at most `merge_gap`
/// elements between them.
pub proof fn segmenting_covers_the_active_windows<V>(
    b: Behaviour<V, bool>,
    seq: Seq<Windowed<V>>,
    opts: SegmentOptions,
    ranges: Vec<Range>,
    x: int,
)
    requires
        is_segmented(b, seq, opts, Ok(ranges)),
        forall|i: int| 0 <= i < seq.len() ==> (#[trigger] seq[i]).span.wf(),
    ensures
        forall|i: int| 0 <= i < seq.len() ==> b(#[trigger] seq.take(i), seq[i]) is Ok,
        forall|i: int, j: int|
            0 <= i < j < seq.len() ==> (#[trigger] seq[i]).span.start() <= (
            #[trigger] seq[j]).span.start(),
        opts.min_len() == 0 ==> ((exists|i: int|
            0 <= i < ranges@.len() && (#[trigger] ranges@[i]).start() <= x < ranges@[i].end())
            <==> (exists|i: int, a: int, j: int, c: int|
            #![trigger seq[i].span.covers(a), seq[j].span.covers(c)]
            0 <= i < seq.len() && b(seq.take(i), seq[i]) == Ok::<bool, WinditError>(true)
                && seq[i].span.covers(a) && 0 <= j < seq.len() && b(seq.take(j), seq[j]) == Ok::<
                bool,
                WinditError,
            >(true) && seq[j].span.covers(c) && a <= x <= c && c - a - 1 <= opts.merge_gap())),
        forall|i: int|
            0 <= i < ranges@.len() ==> (#[trigger] ranges@[i]).start() < ranges@[i].end()
                && ranges@[i].end() - ranges@[i].start() >= opts.min_len(),
        forall|i: int, j: int|
            0 <= i < j < ranges@.len() ==> (#[trigger] ranges@[i]).end() + opts.merge_gap() < (
            #[trigger] ranges@[j]).start(),
{
    let n = seq.len() as int;
    let made = gated(b, seq, n);
    assert forall|i: int| 0 <= i < n implies b(#[trigger] seq.take(i), seq[i]) is Ok by {
        assert(behaviour::answers(b, seq)[i] is Ok);
    }
    assert forall|i: int| 0 <= i < n implies (#[trigger] made[i]).0 == (b(seq.take(i), seq[i])
        == Ok::<bool, WinditError>(true)) && made[i].1 == seq[i].span by {
        assert(behaviour::answers(b, seq)[i] is Ok);
    }
    assert forall|i: int, j: int| 0 <= i < j < made.len() implies (#[trigger] made[i]).1.start() <= (
    #[trigger] made[j]).1.start() by {
        assert(seq[i].span.start() <= seq[j].span.start());
    }
    assert forall|i: int| 0 <= i < made.len() implies (#[trigger] made[i]).1.wf() by {
        assert(seq[i].span.wf());
    }
    laws::segmentation_is_separated(made, opts);
    assert forall|i: int| 0 <= i < ranges@.len() implies (#[trigger] ranges@[i]).end()
        - ranges@[i].start() >= opts.min_len() by {
        assert(batch::segmentation(made, opts)[i].len() >= opts.min_len());
    }
    if opts.min_len() == 0 {
        laws::segmentation_closes_exactly_the_short_gaps(made, opts, x);
        if laws::covered(ranges@, x) {
            let (a, c) = choose|a: int, c: int|
                #![trigger laws::accepted(made, a), laws::accepted(made, c)]
                laws::accepted(made, a) && laws::accepted(made, c) && a <= x <= c && c - a - 1
                    <= opts.merge_gap();
            let i = choose|i: int|
                0 <= i < made.len() && (#[trigger] made[i]).0 && made[i].1.covers(a);
            let j = choose|j: int|
                0 <= j < made.len() && (#[trigger] made[j]).0 && made[j].1.covers(c);
            assert(seq[i].span.covers(a) && seq[j].span.covers(c));
        }
        if exists|i: int, a: int, j: int, c: int|
            #![trigger seq[i].span.covers(a), seq[j].span.covers(c)]
            0 <= i < seq.len() && b(seq.take(i), seq[i]) == Ok::<bool, WinditError>(true)
                && seq[i].span.covers(a) && 0 <= j < seq.len() && b(seq.take(j), seq[j]) == Ok::<
                bool,
                WinditError,
            >(true) && seq[j].span.covers(c) && a <= x <= c && c - a - 1 <= opts.merge_gap() {
            let (i, a, j, c) = choose|i: int, a: int, j: int, c: int|
                #![trigger seq[i].span.covers(a), seq[j].span.covers(c)]
                0 <= i < seq.len() && b(seq.take(i), seq[i]) == Ok::<bool, WinditError>(true)
                    && seq[i].span.covers(a) && 0 <= j < seq.len() && b(seq.take(j), seq[j])
                    == Ok::<bool, WinditError>(true) && seq[j].span.covers(c) && a <= x <= c && c - a
                    - 1 <= opts.merge_gap();
            assert(made[i].0 && made[i].1.covers(a));
            assert(made[j].0 && made[j].1.covers(c));
            assert(laws::accepted(made, a) && laws::accepted(made, c));
            assert(laws::covered(ranges@, x));
            let k = choose|k: int| 0 <= k < ranges@.len() && (#[trigger] ranges@[k]).covers(x);
            assert(ranges@[k].start() <= x < ranges@[k].end());
        }
        if exists|i: int|
            0 <= i < ranges@.len() && (#[trigger] ranges@[i]).start() <= x < ranges@[i].end() {
            let k = choose|k: int|
                0 <= k < ranges@.len() && (#[trigger] ranges@[k]).start() <= x < ranges@[k].end();
            assert(ranges@[k].covers(x));
        }
    }
}

/// What the minimum length does to a batch segmentation: it keeps exactly those ranges of the one
/// without a minimum that hold at least that many elements.
pub proof fn segmenting_keeps_exactly_the_long_ranges<V>(
    b: Behaviour<V, bool>,
    seq: Seq<Windowed<V>>,
    opts: SegmentOptions,
    all: SegmentOptions,
    ranges: Vec<Range>,
    whole: Vec<Range>,
)
    requires
        is_segmented(b, seq, opts, Ok(ranges)),
        is_segmented(b, seq, all, Ok(whole)),
        forall|i: int| 0 <= i < seq.len() ==> (#[trigger] seq[i]).span.wf(),
        all.merge_gap() == opts.merge_gap(),
        all.min_len() == 0,
    ensures
        ranges@ == whole@.filter(|r: Range| r.end() - r.start() >= opts.min_len()),
{
    let made = gated(b, seq, seq.len() as int);
    assert forall|i: int| 0 <= i < made.len() implies (#[trigger] made[i]).1.wf() by {
        assert(seq[i].span.wf());
    }
    laws::minimum_length_keeps_exactly_the_long_ranges(made, opts, all);
}

/// What a batch segmentation is refused for: the answer of the gating stage to a window, or a
/// window that starts before its predecessor, everything before it being decided and in order.
pub proof fn segmenting_reports_the_first_failure<V>(
    b: Behaviour<V, bool>,
    seq: Seq<Windowed<V>>,
    opts: SegmentOptions,
    e: WinditError,
)
    requires
        is_segmented(b, seq, opts, Err(e)),
        !(e is AllocFailed),
    ensures
        exists|k: int|
            0 <= k < seq.len() && (b(#[trigger] seq.take(k), seq[k]) == Err::<bool, WinditError>(e)
                || (0 < k && b(seq.take(k), seq[k]) is Ok && seq[k].span.start() < seq[k
                - 1].span.start() && e == (WinditError::NonMonotonicSpan {
                prev_start: seq[k - 1].span.start(),
                start: seq[k].span.start(),
            }))) && (forall|i: int| 0 <= i < k ==> b(#[trigger] seq.take(i), seq[i]) is Ok)
                && forall|i: int, j: int|
                0 <= i < j < k ==> (#[trigger] seq[i]).span.start() <= (
                #[trigger] seq[j]).span.start(),
{
    let k = choose|k: int| #[trigger] fails_at(b, seq, k, e);
    assert(behaviour::answers(b, seq)[k] == b(seq.take(k), seq[k]));
    assert forall|i: int| 0 <= i < k implies b(#[trigger] seq.take(i), seq[i]) is Ok by {
        assert(behaviour::answers(b, seq)[i] is Ok);
    }
    assert forall|i: int, j: int| 0 <= i < j < k implies (#[trigger] seq[i]).span.start() <= (
    #[trigger] seq[j]).span.start() by {
        assert(seq.take(k)[i] == seq[i] && seq.take(k)[j] == seq[j]);
    }
    assert(seq.take(k).len() == k);
}

} // verus!
