//! Decoding: compose a smoother, a gate, and a segmenter into one streaming
//! pipeline.
//!
//! A [`Decoder`] threads each window through three stages in order: a [`Smoother`]
//! rewrites the value, a [`Gate`] turns it into an active or inactive decision, and
//! a [`Segmenter`] groups those decisions into finalized element [`Range`]s. Every
//! push returns a [`Step`] that carries both output planes for that window: the
//! causal decision, and the range, if any, that no future input can change.
use core::marker::PhantomData;
use vstd::prelude::*;

use crate::behaviour;
use crate::behaviour::Behaviour;
use crate::error::WinditError;
use crate::segment::batch;
use crate::segment::gate;
use crate::segment::gate::Gate;
use crate::segment::laws;
use crate::segment::range::{Range, SegmentOptions};
use crate::segment::runs;
use crate::segment::segmenter::{Segmenter, SegmenterView};
use crate::segment::tail::SegmentTail;
use crate::smooth::Smoother;
use crate::windowed::Windowed;

verus! {

/// One [`push`](Decoder::push)'s output: the causal decision and any range that
/// push finalized.
#[derive(Clone, Copy, Debug, PartialEq, Eq, Hash)]
#[must_use]
pub struct Step {
    active: bool,
    finalized: Option<Range>,
}

impl Step {
    /// The decision.
    pub closed spec fn spec_active(&self) -> bool {
        self.active
    }

    /// The finalized range.
    pub closed spec fn spec_finalized(&self) -> Option<Range> {
        self.finalized
    }

    /// The decision for the window just pushed: `true` when active.
    ///
    /// Immediate and causal, never retracted by later input.
    #[verifier::when_used_as_spec(spec_active)]
    #[must_use]
    pub fn active(&self) -> (r: bool)
        ensures
            r == self.active(),
    {
        self.active
    }

    /// The range this push finalized, if any: one no future input can change.
    #[verifier::when_used_as_spec(spec_finalized)]
    #[must_use]
    pub fn finalized(&self) -> (r: Option<Range>)
        ensures
            r == self.finalized(),
    {
        self.finalized
    }
}

/// The [`Smoother`], [`Gate`], [`Segmenter`] pipeline: push windows in, read a
/// [`Step`] per window, drain the tail at the end.
///
/// `S` and `G` are the smoother and gate *state* types; `V` is the window value the
/// pipeline carries. The stages are otherwise opaque, so the only way to advance
/// them is [`push`](Decoder::push).
#[derive(Debug)]
pub struct Decoder<S, G, V> {
    smoother: S,
    gate: G,
    seg: Segmenter,
    value: PhantomData<V>,
}

impl<S, G, V> Decoder<S, G, V> {
    /// The state of the smoother.
    pub closed spec fn smoother(&self) -> S {
        self.smoother
    }

    /// The state of the gating stage.
    pub closed spec fn gate(&self) -> G {
        self.gate
    }

    /// The state of the segmenter.
    pub closed spec fn seg(&self) -> SegmenterView {
        self.seg@
    }

    /// A decoder over the given smoother and gate states, segmenting with `opts`.
    #[must_use]
    pub fn new(smoother: S, gate: G, opts: SegmentOptions) -> (r: Self)
        ensures
            r.smoother() == smoother,
            r.gate() == gate,
            r.seg() == SegmenterView::fresh(opts),
            r.seg().wf(),
    {
        Decoder { smoother, gate, seg: Segmenter::new(opts), value: PhantomData }
    }

    /// The morphology options the inner segmenter applies.
    #[must_use]
    pub fn opts(&self) -> (r: SegmentOptions)
        ensures
            r == self.seg().opts,
    {
        self.seg.opts()
    }

    /// End of stream: drain the segmenter's pending ranges, consuming the decoder.
    ///
    /// A smoother and a gate hold no pending output, so finishing drains the
    /// segmenter alone.
    #[must_use]
    pub fn finish(self) -> (r: SegmentTail)
        ensures
            r@ == self.seg().finished(),
            r@.len() <= 1,
    {
        self.seg.finish()
    }
}

impl<S: Clone, G: Clone, V> Clone for Decoder<S, G, V> {
    fn clone(&self) -> (r: Self)
        ensures
            cloned(self.smoother(), r.smoother()),
            cloned(self.gate(), r.gate()),
            r.seg() == self.seg(),
            r.seg().wf(),
    {
        proof {
            use_type_invariant(&self.seg);
        }
        Decoder {
            smoother: self.smoother.clone(),
            gate: self.gate.clone(),
            seg: self.seg.clone(),
            value: PhantomData,
        }
    }
}

/// What a decoder's stages answer, and what its segmenter holds, in some state.
#[verifier::reject_recursive_types(V)]
pub struct DecoderView<V> {
    /// What the smoother answers from here on.
    pub smoother: Behaviour<V, Windowed<V>>,
    /// What the gating stage answers from here on.
    pub gate: Behaviour<V, bool>,
    /// The state of the segmenter.
    pub seg: SegmenterView,
}

impl<V> DecoderView<V> {
    /// The state after feeding `w`, and the answer.
    ///
    /// The window is smoothed, the smoothed window gated, and the decision segmented
    /// against the smoothed span. The first stage that fails decides the error, and
    /// the stages after it are not fed.
    pub open spec fn step(self, w: Windowed<V>) -> (
        DecoderView<V>,
        Result<(bool, Option<Range>), WinditError>,
    ) {
        let smoothed = DecoderView { smoother: behaviour::after(self.smoother, w), ..self };
        match behaviour::answer(self.smoother, w) {
            Err(e) => (smoothed, Err(e)),
            Ok(out) => {
                let gated = DecoderView { gate: behaviour::after(self.gate, out), ..smoothed };
                match behaviour::answer(self.gate, out) {
                    Err(e) => (gated, Err(e)),
                    Ok(active) => if self.seg.admits(out.span) {
                        let (seg, finalized) = self.seg.step(active, out.span);
                        (DecoderView { seg, ..gated }, Ok((active, finalized)))
                    } else {
                        (
                            gated,
                            Err(
                                WinditError::NonMonotonicSpan {
                                    prev_start: self.seg.last_start->Some_0,
                                    start: out.span.start(),
                                },
                            ),
                        )
                    },
                }
            },
        }
    }
}

impl<S, G, V> Decoder<S, G, V> where S: Smoother<V>, G: Gate<V> {
    /// What the stages answer, and what the segmenter holds.
    pub open spec fn view(&self) -> DecoderView<V> {
        DecoderView {
            smoother: self.smoother().behaviour(),
            gate: self.gate().behaviour(),
            seg: self.seg(),
        }
    }

    /// Advance every stage by one window and report the [`Step`].
    ///
    /// Surfaces the first error any stage reports. The pipeline is not
    /// transactional: a stage earlier than the one that failed has already consumed
    /// the window. Recover with [`discontinuity`](Decoder::discontinuity) to keep
    /// the finalized output or [`reset`](Decoder::reset) to discard it.
    pub fn push(&mut self, w: Windowed<V>) -> (r: Result<Step, WinditError>)
        ensures
            final(self)@ == old(self)@.step(w).0,
            match old(self)@.step(w).1 {
                Ok((active, finalized)) => r matches Ok(step) && step.active() == active
                    && step.finalized() == finalized,
                Err(e) => r == Err::<Step, WinditError>(e),
            },
            old(self)@.seg.wf(),
            final(self)@.seg.wf(),
            final(self).smoother().fresh() == old(self).smoother().fresh(),
            final(self).gate().fresh() == old(self).gate().fresh(),
    {
        proof {
            use_type_invariant(&self.seg);
        }
        let out = match self.smoother.push(w) {
            Ok(out) => out,
            Err(e) => {
                return Err(e);
            },
        };
        let active = match self.gate.push(&out) {
            Ok(active) => active,
            Err(e) => {
                return Err(e);
            },
        };
        match self.seg.push(active, out.span()) {
            Ok(finalized) => Ok(Step { active, finalized }),
            Err(e) => Err(e),
        }
    }

    /// Declare a timeline break: drain the segmenter's pending ranges as
    /// [`finish`](Decoder::finish) would, then re-arm all three stages for the next
    /// epoch.
    ///
    /// Each stage re-arms through its own `discontinuity`, not its `reset`, so a
    /// stage that distinguishes the two keeps its semantics across the break.
    #[must_use]
    pub fn discontinuity(&mut self) -> (r: SegmentTail)
        ensures
            r@ == old(self)@.seg.finished(),
            r@.len() <= 1,
            final(self)@.seg == SegmenterView::fresh(old(self)@.seg.opts),
            final(self)@.seg.wf(),
            final(self)@.smoother == old(self).smoother().resumed() || final(self)@.smoother
                == old(self).smoother().fresh(),
            final(self)@.gate == old(self).gate().resumed() || final(self)@.gate
                == old(self).gate().fresh(),
            final(self).smoother().fresh() == old(self).smoother().fresh(),
            final(self).gate().fresh() == old(self).gate().fresh(),
            exists|m: &mut S|
                #![trigger call_ensures(S::discontinuity, (m,), ())]
                *m == old(self).smoother() && *final(m) == final(self).smoother() && call_ensures(
                    S::discontinuity,
                    (m,),
                    (),
                ),
            exists|m: &mut G|
                #![trigger call_ensures(G::discontinuity, (m,), ())]
                *m == old(self).gate() && *final(m) == final(self).gate() && call_ensures(
                    G::discontinuity,
                    (m,),
                    (),
                ),
    {
        let tail = self.seg.discontinuity();
        behaviour::tell(S::discontinuity, &mut self.smoother);
        behaviour::tell(G::discontinuity, &mut self.gate);
        tail
    }

    /// Destructive discard: return every stage to its freshly constructed state,
    /// dropping any unemitted pending range.
    pub fn reset(&mut self)
        ensures
            final(self)@ == (DecoderView {
                smoother: old(self).smoother().fresh(),
                gate: old(self).gate().fresh(),
                seg: SegmenterView::fresh(old(self)@.seg.opts),
            }),
            final(self)@.seg.wf(),
            final(self).smoother().fresh() == old(self).smoother().fresh(),
            final(self).gate().fresh() == old(self).gate().fresh(),
            exists|m: &mut S|
                #![trigger call_ensures(S::reset, (m,), ())]
                *m == old(self).smoother() && *final(m) == final(self).smoother() && call_ensures(
                    S::reset,
                    (m,),
                    (),
                ),
            exists|m: &mut G|
                #![trigger call_ensures(G::reset, (m,), ())]
                *m == old(self).gate() && *final(m) == final(self).gate() && call_ensures(
                    G::reset,
                    (m,),
                    (),
                ),
    {
        self.seg.reset();
        behaviour::tell(S::reset, &mut self.smoother);
        behaviour::tell(G::reset, &mut self.gate);
    }
}

/// The windows that a smoothing behaviour turns a sequence into, where it accepts
/// them.
pub open spec fn smoothed<V>(b: Behaviour<V, Windowed<V>>, seq: Seq<Windowed<V>>) -> Seq<
    Windowed<V>,
> {
    Seq::new(seq.len(), |i: int| behaviour::answers(b, seq)[i]->Ok_0)
}

/// Whether a smoothing behaviour accepts every window of a sequence and gives it a
/// well-formed span.
pub open spec fn smooths<V>(b: Behaviour<V, Windowed<V>>, seq: Seq<Windowed<V>>) -> bool {
    forall|i: int|
        0 <= i < seq.len() ==> {
            &&& (#[trigger] behaviour::answers(b, seq)[i]) is Ok
            &&& behaviour::answers(b, seq)[i]->Ok_0.span.wf()
        }
}

/// What a decoder in state `from` becomes when it is fed a sequence, and the flags
/// and finalized ranges of the steps it answers on the way.
pub open spec fn decode<V>(from: DecoderView<V>, seq: Seq<Windowed<V>>) -> (
    DecoderView<V>,
    Seq<bool>,
    Seq<Range>,
)
    decreases seq.len(),
{
    if seq.len() == 0 {
        (from, Seq::empty(), Seq::empty())
    } else {
        let (state, flags, ranges) = decode(from, seq.drop_last());
        let (next, answer) = state.step(seq.last());
        match answer {
            Ok((active, finalized)) => (
                next,
                flags.push(active),
                batch::appended(ranges, finalized),
            ),
            Err(_) => (next, flags, ranges),
        }
    }
}

/// A decoder before any window: its stages' behaviours and a fresh segmenter.
pub open spec fn fresh_decoder<V>(
    smoother: Behaviour<V, Windowed<V>>,
    gate: Behaviour<V, bool>,
    opts: SegmentOptions,
) -> DecoderView<V> {
    DecoderView { smoother, gate, seg: SegmenterView::fresh(opts) }
}

/// While nothing fails, each stage has been fed what the stage before it answered.
proof fn lemma_decode<V>(
    smoother: Behaviour<V, Windowed<V>>,
    gate: Behaviour<V, bool>,
    opts: SegmentOptions,
    seq: Seq<Windowed<V>>,
)
    requires
        smooths(smoother, seq),
        gate::decides(gate, smoothed(smoother, seq), seq.len() as int),
        runs::in_span_order(smoothed(smoother, seq)),
    ensures
        ({
            let out = smoothed(smoother, seq);
            let (state, flags, ranges) = decode(fresh_decoder(smoother, gate, opts), seq);
            &&& state.smoother == behaviour::left(smoother, seq)
            &&& state.gate == behaviour::left(gate, out)
            &&& flags == gate::flags(gate, out, seq.len() as int)
            &&& runs::streamed(state.seg, ranges, out, flags, opts)
        }),
    decreases seq.len(),
{
    let n = seq.len() as int;
    let out = smoothed(smoother, seq);
    if n == 0 {
        behaviour::lemma_left_nothing(smoother, seq);
        behaviour::lemma_left_nothing(gate, out);
        assert(gate::flags(gate, out, 0) =~= Seq::empty());
        assert(runs::decisions(out, Seq::<bool>::empty()) =~= Seq::empty());
        assert(out.take(0) =~= out);
    } else {
        let before = seq.drop_last();
        let out_before = smoothed(smoother, before);
        assert forall|i: int| 0 <= i < n - 1 implies #[trigger] behaviour::answers(
            smoother,
            before,
        )[i] == behaviour::answers(smoother, seq)[i] by {
            assert(before.take(i) =~= seq.take(i));
        }
        assert(out_before =~= out.drop_last());
        assert forall|i: int| 0 <= i < n - 1 implies #[trigger] behaviour::answers(
            gate,
            out_before,
        )[i] == behaviour::answers(gate, out)[i] by {
            assert(out_before.take(i) =~= out.take(i));
        }
        assert forall|i: int, j: int| 0 <= i < j < out_before.len() implies (
        #[trigger] out_before[i]).span.start() <= (#[trigger] out_before[j]).span.start() by {
            assert(out[i].span.start() <= out[j].span.start());
        }
        lemma_decode(smoother, gate, opts, before);
        let (state, flags, ranges) = decode(fresh_decoder(smoother, gate, opts), before);
        let w = seq.last();
        behaviour::lemma_left(smoother, before, w);
        assert(before.push(w) =~= seq);
        assert(before =~= seq.take(n - 1));
        assert(behaviour::answers(smoother, seq)[n - 1] == smoother(before, w));
        let sw = out[n - 1];
        behaviour::lemma_left(gate, out_before, sw);
        assert(out_before.push(sw) =~= out);
        assert(out_before =~= out.take(n - 1));
        assert(behaviour::answers(gate, out)[n - 1] == gate(out_before, sw));
        let active = gate(out_before, sw)->Ok_0;
        // The segmenter has streamed the decisions on all but the last window.
        assert(flags =~= gate::flags(gate, out, n - 1));
        assert(runs::decisions(out, flags) =~= runs::decisions(out_before, flags));
        assert(out_before.take(n - 1) =~= out.take(n - 1));
        assert forall|i: int| 0 <= i < flags.len() implies (#[trigger] out[i]).span.wf() by {
            assert(behaviour::answers(smoother, seq)[i] is Ok);
        }
        assert(behaviour::answers(smoother, seq)[n - 1]->Ok_0.span.wf());
        if n > 1 {
            assert(out[n - 2].span.start() <= out[n - 1].span.start());
        }
        assert(runs::streamed(state.seg, ranges, out, flags, opts));
        runs::lemma_streamed_push(state.seg, ranges, out, flags, opts, active);
        assert(gate::flags(gate, out, n) =~= flags.push(active));
    }
}

/// Parity: driving a fresh decoder to exhaustion equals the batch composition of the
/// same stages.
///
/// Over a sequence that the smoother accepts, whose smoothed windows are decided and
/// in span order, the causal flags are those of the gating behaviour on the smoothed
/// windows, and the finalized ranges followed by the finishing tail are what
/// segmenting the smoothed windows with that behaviour gives.
pub proof fn decoder_equals_batch<V>(
    smoother: Behaviour<V, Windowed<V>>,
    gate: Behaviour<V, bool>,
    opts: SegmentOptions,
    seq: Seq<Windowed<V>>,
    batch_ranges: Vec<Range>,
)
    requires
        smooths(smoother, seq),
        gate::is_segmented(gate, smoothed(smoother, seq), opts, Ok(batch_ranges)),
    ensures
        ({
            let (state, flags, ranges) = decode(fresh_decoder(smoother, gate, opts), seq);
            &&& flags == gate::flags(gate, smoothed(smoother, seq), seq.len() as int)
            &&& ranges + state.seg.finished() == batch_ranges@
        }),
{
    lemma_decode(smoother, gate, opts, seq);
    let (state, flags, ranges) = decode(fresh_decoder(smoother, gate, opts), seq);
    runs::lemma_streamed_segmentation(
        state.seg,
        ranges,
        smoothed(smoother, seq),
        flags,
        opts,
    );
}

/// Epochs are independent on both planes: after a break that leaves the stages
/// fresh, what a decoder answers and emits is what a fresh decoder would, wherever
/// the spans restart.
pub proof fn decoder_epochs_are_independent<V>(
    smoother: Behaviour<V, Windowed<V>>,
    gate: Behaviour<V, bool>,
    opts: SegmentOptions,
    before: Seq<Windowed<V>>,
    resumed: DecoderView<V>,
    after: Seq<Windowed<V>>,
)
    requires
        smooths(smoother, before),
        gate::decides(gate, smoothed(smoother, before), before.len() as int),
        runs::in_span_order(smoothed(smoother, before)),
        smooths(smoother, after),
        gate::decides(gate, smoothed(smoother, after), after.len() as int),
        runs::in_span_order(smoothed(smoother, after)),
        resumed.smoother == smoother,
        resumed.gate == gate,
        resumed.seg == SegmenterView::fresh(
            decode(fresh_decoder(smoother, gate, opts), before).0.seg.opts,
        ),
    ensures
        ({
            let (state, flags, ranges) = decode(fresh_decoder(smoother, gate, opts), before);
            let (end, flags_after, ranges_after) = decode(resumed, after);
            &&& flags + flags_after == gate::flags(
                gate,
                smoothed(smoother, before),
                before.len() as int,
            ) + gate::flags(gate, smoothed(smoother, after), after.len() as int)
            &&& (ranges + state.seg.finished()) + (ranges_after + end.seg.finished())
                == batch::segmentation(
                gate::gated(gate, smoothed(smoother, before), before.len() as int),
                opts,
            ) + batch::segmentation(
                gate::gated(gate, smoothed(smoother, after), after.len() as int),
                opts,
            )
        }),
{
    lemma_decode(smoother, gate, opts, before);
    let (state, flags, ranges) = decode(fresh_decoder(smoother, gate, opts), before);
    runs::lemma_streamed_segmentation(
        state.seg,
        ranges,
        smoothed(smoother, before),
        flags,
        opts,
    );
    laws::lemma_stream_keeps_options(
        SegmenterView::fresh(opts),
        runs::decisions(smoothed(smoother, before), flags),
    );
    assert(resumed == fresh_decoder(smoother, gate, opts));
    lemma_decode(smoother, gate, opts, after);
    let (end, flags_after, ranges_after) = decode(resumed, after);
    runs::lemma_streamed_segmentation(
        end.seg,
        ranges_after,
        smoothed(smoother, after),
        flags_after,
        opts,
    );
}

/// How the stages of a decoder follow each other: the smoother always takes the window; the gating
/// stage takes what the smoother makes of it, and is left alone where there is nothing; the
/// segmenter takes the decision on the smoothed span, and is left alone where there is none or the span
/// goes backward. The first stage that fails gives the error.
pub proof fn stages_follow_each_other<V>(from: DecoderView<V>, w: Windowed<V>)
    ensures
        ({
            let (next, r) = from.step(w);
            let made = (from.smoother)(Seq::empty(), w);
            &&& next.smoother == behaviour::after(from.smoother, w)
            &&& made is Err ==> r == Err::<(bool, Option<Range>), WinditError>(made->Err_0)
                && next.gate == from.gate && next.seg == from.seg
            &&& made matches Ok(out) ==> {
                let decision = (from.gate)(Seq::empty(), out);
                &&& next.gate == behaviour::after(from.gate, out)
                &&& decision is Err ==> r == Err::<(bool, Option<Range>), WinditError>(
                    decision->Err_0,
                ) && next.seg == from.seg
                &&& decision matches Ok(active) ==> {
                    let backward = from.seg.last_start matches Some(prev) && out.span.start() < prev;
                    &&& backward ==> next.seg == from.seg && r == Err::<
                        (bool, Option<Range>),
                        WinditError,
                    >(
                        WinditError::NonMonotonicSpan {
                            prev_start: from.seg.last_start->Some_0,
                            start: out.span.start(),
                        },
                    )
                    &&& !backward ==> next.seg == from.seg.step(active, out.span).0 && r == Ok::<
                        (bool, Option<Range>),
                        WinditError,
                    >((active, from.seg.step(active, out.span).1))
                }
            }
        }),
{
}

} // verus!
