//! The release-hold gate combinator.
use vstd::prelude::*;

use crate::behaviour;
use crate::behaviour::Behaviour;
use crate::error::WinditError;
use crate::plan::Span;
use crate::segment::dwell;
use crate::segment::gate::{Gate, GatePolicy};
use crate::segment::runs;
use crate::segment::segmenter;
use crate::windowed::Windowed;

verus! {

/// Release-hold gate combinator: off-delay debounce.
///
/// Wraps an inner gate `P` and, once active, holds `true` while the gap since the
/// end of inner-active coverage stays below `hold` input elements: the mirror of
/// [`Dwell`](crate::segment::Dwell)'s on-delay.
///
/// # Semantics
///
/// On an inner `true`, the wrapper outputs `true` and folds the coverage horizon
/// forward by maximum, so an overlapping or nested span can never move the horizon
/// backward and shorten the hold. On an inner `false` the output is `true` iff an
/// inner `true` has been seen this epoch and the gap from the horizon to the span's
/// start is strictly below `hold`; an overlapping window has gap zero.
///
/// A `hold` of zero is an exact pass-through, and `usize::MAX` never releases once
/// activated. The horizon is never cleared on release: under ascending starts a
/// later gap can only grow.
///
/// # Errors
///
/// As for [`Dwell`](crate::segment::Dwell): the wrapper reports
/// [`WinditError::NonMonotonicSpan`] itself, before the inner gate is fed.
#[derive(Debug, PartialEq)]
pub struct Hangover<P> {
    inner: P,
    hold: usize,
}

impl<P: Clone> Clone for Hangover<P> {
    fn clone(&self) -> (r: Self)
        ensures
            cloned(*self.inner(), *r.inner()),
            r.hold() == self.hold(),
    {
        Hangover { inner: self.inner.clone(), hold: self.hold }
    }
}

impl<P: Copy> Copy for Hangover<P> {

}

impl<P> Hangover<P> {
    /// The wrapped configuration.
    pub closed spec fn spec_inner(&self) -> &P {
        &self.inner
    }

    /// The hold distance.
    pub closed spec fn spec_hold(&self) -> usize {
        self.hold
    }

    /// A hangover combinator over `inner`, holding an activation for `hold` input
    /// elements after inner-active coverage ends.
    #[must_use]
    pub fn new(inner: P, hold: usize) -> (r: Hangover<P>)
        ensures
            *r.inner() == inner,
            r.hold() == hold,
    {
        Hangover { inner, hold }
    }

    /// The wrapped gate configuration.
    #[verifier::when_used_as_spec(spec_inner)]
    #[must_use]
    pub fn inner(&self) -> (r: &P)
        ensures
            r == self.inner(),
    {
        &self.inner
    }

    /// The hold distance, in input elements.
    #[verifier::when_used_as_spec(spec_hold)]
    #[must_use]
    pub fn hold(&self) -> (r: usize)
        ensures
            r == self.hold(),
    {
        self.hold
    }
}

/// The streaming state of a [`Hangover`] combinator: the inner gate, the hold
/// distance, the folded coverage horizon (`None` until the first inner `true` this
/// epoch), and the last pushed span's start.
#[derive(Debug, PartialEq)]
pub struct HangoverState<G> {
    inner: G,
    hold: usize,
    last_yes_end: Option<usize>,
    last_start: Option<usize>,
}

/// The coverage horizon folded with one more inner-active span.
pub open spec fn hangover_horizon(last_yes_end: Option<usize>, span: Span) -> usize {
    match last_yes_end {
        Some(end) => segmenter::later(end, span.end()),
        None => span.end(),
    }
}

/// Whether an inner-inactive span is still held.
pub open spec fn hangover_holds(last_yes_end: Option<usize>, span: Span, hold: usize) -> bool {
    last_yes_end matches Some(end) && segmenter::gap(end, span.start()) < hold
}

/// What a hangover combinator remembers: the windows its inner gate has been fed, the
/// coverage horizon of its `true` decisions, and the start of the last decided span.
pub type HangoverMemory<V> = (Seq<Windowed<V>>, Option<usize>, Option<usize>);

/// The transition of a hangover combinator over an inner behaviour.
///
/// A backward span is refused with nothing changed. Otherwise the inner gate is fed:
/// its error passes through, its `true` folds the horizon and is passed on, and its
/// `false` is replaced by `true` while held.
pub open spec fn hangover_step<V>(inner: Behaviour<V, bool>, hold: usize) -> spec_fn(
    HangoverMemory<V>,
    Windowed<V>,
) -> (HangoverMemory<V>, Result<bool, WinditError>) {
    |memory: HangoverMemory<V>, w: Windowed<V>|
        {
            let (fed, last_yes_end, last_start) = memory;
            if dwell::goes_backward(last_start, w.span) {
                (memory, Err::<bool, WinditError>(dwell::backward_error(last_start, w.span)))
            } else {
                match inner(fed, w) {
                    Err(e) => (
                        (fed.push(w), last_yes_end, last_start),
                        Err::<bool, WinditError>(e),
                    ),
                    Ok(false) => (
                        (fed.push(w), last_yes_end, Some(w.span.start())),
                        Ok::<bool, WinditError>(hangover_holds(last_yes_end, w.span, hold)),
                    ),
                    Ok(true) => (
                        (
                            fed.push(w),
                            Some(hangover_horizon(last_yes_end, w.span)),
                            Some(w.span.start()),
                        ),
                        Ok::<bool, WinditError>(true),
                    ),
                }
            }
        }
}

/// What a hangover combinator answers, given what its inner gate answers from here on.
pub open spec fn hangover_behaviour<V>(
    inner: Behaviour<V, bool>,
    hold: usize,
    last_yes_end: Option<usize>,
    last_start: Option<usize>,
) -> Behaviour<V, bool> {
    behaviour::automaton(hangover_step(inner, hold), (Seq::empty(), last_yes_end, last_start))
}

/// A window that the inner gate has seen before the run is one that its behaviour is past.
proof fn lemma_hangover_memory_shifts<V>(
    inner: Behaviour<V, bool>,
    hold: usize,
    first: Windowed<V>,
    last_yes_end: Option<usize>,
    last_start: Option<usize>,
    fed: Seq<Windowed<V>>,
)
    ensures
        ({
            let whole = behaviour::run(
                hangover_step(inner, hold),
                (seq![first], last_yes_end, last_start),
                fed,
            );
            let rest = behaviour::run(
                hangover_step(behaviour::after(inner, first), hold),
                (Seq::empty(), last_yes_end, last_start),
                fed,
            );
            &&& whole.0 == seq![first] + rest.0
            &&& whole.1 == rest.1
            &&& whole.2 == rest.2
        }),
    decreases fed.len(),
{
    if fed.len() == 0 {
        assert(seq![first] + Seq::<Windowed<V>>::empty() =~= seq![first]);
    } else {
        lemma_hangover_memory_shifts(inner, hold, first, last_yes_end, last_start, fed.drop_last());
        let rest = behaviour::run(
            hangover_step(behaviour::after(inner, first), hold),
            (Seq::empty(), last_yes_end, last_start),
            fed.drop_last(),
        );
        assert((seq![first] + rest.0).push(fed.last()) =~= seq![first] + rest.0.push(fed.last()));
    }
}

/// Once the inner gate has been fed a window, its remaining behaviour takes the place
/// of the memory of that window.
proof fn lemma_hangover_shifts<V>(
    inner: Behaviour<V, bool>,
    hold: usize,
    first: Windowed<V>,
    last_yes_end: Option<usize>,
    last_start: Option<usize>,
)
    ensures
        hangover_behaviour(behaviour::after(inner, first), hold, last_yes_end, last_start)
            == behaviour::automaton(hangover_step(inner, hold), (seq![first], last_yes_end, last_start)),
{
    let left = hangover_behaviour(behaviour::after(inner, first), hold, last_yes_end, last_start);
    let right = behaviour::automaton(hangover_step(inner, hold), (seq![first], last_yes_end, last_start));
    assert forall|fed: Seq<Windowed<V>>, w: Windowed<V>| #[trigger] left(fed, w) == right(fed, w) by {
        lemma_hangover_memory_shifts(inner, hold, first, last_yes_end, last_start, fed);
    }
    behaviour::behaviours_agree(left, right);
}

impl<G: Clone> Clone for HangoverState<G> {
    fn clone(&self) -> (r: Self)
        ensures
            cloned(self.inner(), r.inner()),
            r.hold() == self.hold(),
            r.last_yes_end() == self.last_yes_end(),
            r.last_start() == self.last_start(),
    {
        HangoverState {
            inner: self.inner.clone(),
            hold: self.hold,
            last_yes_end: self.last_yes_end,
            last_start: self.last_start,
        }
    }
}

impl<G: Copy> Copy for HangoverState<G> {

}

impl<G> HangoverState<G> {
    /// The state of the inner gate.
    pub closed spec fn inner(&self) -> G {
        self.inner
    }

    /// The hold distance.
    pub closed spec fn hold(&self) -> usize {
        self.hold
    }

    /// The coverage horizon of the inner `true` decisions of this epoch.
    pub closed spec fn last_yes_end(&self) -> Option<usize> {
        self.last_yes_end
    }

    /// The start of the last decided span.
    pub closed spec fn last_start(&self) -> Option<usize> {
        self.last_start
    }
}

impl<V, G: Gate<V>> Gate<V> for HangoverState<G> {
    open spec fn behaviour(&self) -> Behaviour<V, bool> {
        hangover_behaviour(
            self.inner().behaviour(),
            self.hold(),
            self.last_yes_end(),
            self.last_start(),
        )
    }

    open spec fn fresh(&self) -> Behaviour<V, bool> {
        hangover_behaviour(self.inner().fresh(), self.hold(), None, None)
    }

    /// The inner gate is told of the break, not reset.
    open spec fn resumed(&self) -> Behaviour<V, bool> {
        hangover_behaviour(self.inner().resumed(), self.hold(), None, None)
    }

    fn push(&mut self, w: &Windowed<V>) -> (out: Result<bool, WinditError>)
        ensures
            dwell::goes_backward(old(self).last_start(), w.span) ==> *final(self) == *old(self),
            ({
                let memory = hangover_step(old(self).inner().behaviour(), old(self).hold())(
                    (Seq::empty(), old(self).last_yes_end(), old(self).last_start()),
                    *w,
                ).0;
                &&& final(self).last_yes_end() == memory.1
                &&& final(self).last_start() == memory.2
            }),
            final(self).hold() == old(self).hold(),
    {
        let ghost inner = self.inner.behaviour();
        let ghost hold = self.hold;
        proof {
            behaviour::automaton_steps(
                hangover_step(inner, hold),
                (Seq::empty(), self.last_yes_end, self.last_start),
                *w,
            );
            assert(Seq::<Windowed<V>>::empty().push(*w) =~= seq![*w]);
        }
        let span = w.span();
        let start: usize = span.start();
        let end: usize = span.end();
        // Before the inner gate is fed, so the wrapper's own violation leaves both
        // unchanged.
        if let Some(prev) = self.last_start {
            if start < prev {
                return Err(WinditError::NonMonotonicSpan { prev_start: prev, start });
            }
        }
        let inner_active = match self.inner.push(w) {
            Ok(active) => active,
            Err(e) => {
                proof {
                    lemma_hangover_shifts(inner, hold, *w, self.last_yes_end, self.last_start);
                }
                return Err(e);
            },
        };
        self.last_start = Some(start);
        if inner_active {
            let horizon: usize = match self.last_yes_end {
                Some(prev) => if prev >= end {
                    prev
                } else {
                    end
                },
                None => end,
            };
            self.last_yes_end = Some(horizon);
            proof {
                lemma_hangover_shifts(inner, hold, *w, self.last_yes_end, self.last_start);
            }
            Ok(true)
        } else {
            proof {
                lemma_hangover_shifts(inner, hold, *w, self.last_yes_end, self.last_start);
            }
            match self.last_yes_end {
                Some(end) => Ok(start.saturating_sub(end) < self.hold),
                None => Ok(false),
            }
        }
    }

    fn reset(&mut self)
        ensures
            final(self).hold() == old(self).hold(),
            final(self).last_yes_end() is None,
            final(self).last_start() is None,
            exists|m: &mut G|
                #![trigger call_ensures(G::reset, (m,), ())]
                *m == old(self).inner() && *final(m) == final(self).inner() && call_ensures(
                    G::reset,
                    (m,),
                    (),
                ),
    {
        self.last_yes_end = None;
        self.last_start = None;
        behaviour::tell(G::reset, &mut self.inner);
    }

    fn discontinuity(&mut self)
        ensures
            final(self).hold() == old(self).hold(),
            final(self).last_yes_end() is None,
            final(self).last_start() is None,
            exists|m: &mut G|
                #![trigger call_ensures(G::discontinuity, (m,), ())]
                *m == old(self).inner() && *final(m) == final(self).inner() && call_ensures(
                    G::discontinuity,
                    (m,),
                    (),
                ),
    {
        self.last_yes_end = None;
        self.last_start = None;
        behaviour::tell(G::discontinuity, &mut self.inner);
    }
}

impl<V, P: GatePolicy<V>> GatePolicy<V> for Hangover<P> {
    type Gate = HangoverState<P::Gate>;

    open spec fn behaviour(&self) -> Behaviour<V, bool> {
        hangover_behaviour(self.inner().behaviour(), self.hold(), None, None)
    }

    fn gate(&self) -> (gate: HangoverState<P::Gate>)
        ensures
            gate.hold() == self.hold(),
            gate.last_yes_end() is None,
            gate.last_start() is None,
    {
        let gate = HangoverState {
            inner: self.inner.gate(),
            hold: self.hold,
            last_yes_end: None,
            last_start: None,
        };
        assert(gate.behaviour() == self.behaviour() && gate.fresh() == self.behaviour());
        gate
    }
}

/// What a fresh hangover combinator answers over an inner behaviour.
pub open spec fn fresh_hangover<V>(inner: Behaviour<V, bool>, hold: usize) -> Behaviour<V, bool> {
    hangover_behaviour(inner, hold, None, None)
}

/// In span order the inner gate is fed every window, the last decided start is never
/// past the last window, and there is a positive horizon exactly once the inner gate
/// has been active.
proof fn lemma_hangover_memory<V>(inner: Behaviour<V, bool>, hold: usize, fed: Seq<Windowed<V>>)
    requires
        runs::in_span_order(fed),
        forall|i: int| 0 <= i < fed.len() ==> (#[trigger] fed[i]).span.wf(),
    ensures
        ({
            let memory = behaviour::run(hangover_step(inner, hold), (Seq::empty(), None, None), fed);
            &&& memory.0 == fed
            &&& memory.2 matches Some(start) ==> fed.len() > 0 && start <= fed.last().span.start()
            &&& memory.1 matches Some(end) ==> end > 0
            &&& memory.1 is Some <==> has_been_active(inner, fed)
        }),
    decreases fed.len(),
{
    if fed.len() > 0 {
        let before = fed.drop_last();
        assert forall|i: int, j: int| 0 <= i < j < before.len() implies (
        #[trigger] before[i]).span.start() <= (#[trigger] before[j]).span.start() by {
            assert(before[i] == fed[i] && before[j] == fed[j]);
        }
        assert(forall|i: int| 0 <= i < before.len() ==> before[i] == fed[i]);
        lemma_hangover_memory(inner, hold, before);
        assert(before.push(fed.last()) =~= fed);
        if before.len() > 0 {
            assert(before.last() == fed[fed.len() - 2]);
        }
        assert(fed.last() == fed[fed.len() - 1]);
        let last = fed.len() - 1;
        assert(fed.take(last) =~= before);
        assert forall|i: int| 0 <= i < last implies #[trigger] behaviour::answers(inner, fed)[i]
            == behaviour::answers(inner, before)[i] by {
            assert(fed.take(i) =~= before.take(i));
        }
        if has_been_active(inner, before) {
            let i = choose|i: int|
                0 <= i < before.len() && #[trigger] behaviour::answers(inner, before)[i] == Ok::<
                    bool,
                    WinditError,
                >(true);
            assert(behaviour::answers(inner, fed)[i] == Ok::<bool, WinditError>(true));
        }
        if has_been_active(inner, fed) {
            let i = choose|i: int|
                0 <= i < fed.len() && #[trigger] behaviour::answers(inner, fed)[i] == Ok::<
                    bool,
                    WinditError,
                >(true);
            if i < last {
                assert(behaviour::answers(inner, before)[i] == Ok::<bool, WinditError>(true));
            }
        }
        assert(behaviour::answers(inner, fed)[last] == inner(before, fed.last()));
    } else {
        assert(fed =~= Seq::empty());
    }
}

/// Whether a behaviour has answered `true` to one of the windows it has been fed.
pub open spec fn has_been_active<V>(inner: Behaviour<V, bool>, fed: Seq<Windowed<V>>) -> bool {
    exists|i: int|
        0 <= i < fed.len() && #[trigger] behaviour::answers(inner, fed)[i] == Ok::<
            bool,
            WinditError,
        >(true)
}

/// Extension only: in span order, the answer is active wherever the inner gate is,
/// and an inner error passes through.
pub proof fn hangover_only_extends<V>(
    inner: Behaviour<V, bool>,
    hold: usize,
    fed: Seq<Windowed<V>>,
    w: Windowed<V>,
)
    requires
        runs::in_span_order(fed.push(w)),
        forall|i: int| 0 <= i < fed.len() ==> (#[trigger] fed[i]).span.wf(),
    ensures
        inner(fed, w) == Ok::<bool, WinditError>(true) ==> fresh_hangover(inner, hold)(fed, w)
            == Ok::<bool, WinditError>(true),
        inner(fed, w) is Err ==> fresh_hangover(inner, hold)(fed, w) == inner(fed, w),
{
    dwell::lemma_in_order_prefix(fed, w);
    lemma_hangover_memory(inner, hold, fed);
}

/// A hold distance of zero passes every inner answer through.
pub proof fn hangover_of_zero_passes_through<V>(
    inner: Behaviour<V, bool>,
    fed: Seq<Windowed<V>>,
    w: Windowed<V>,
)
    requires
        runs::in_span_order(fed.push(w)),
        forall|i: int| 0 <= i < fed.len() ==> (#[trigger] fed[i]).span.wf(),
    ensures
        fresh_hangover(inner, 0)(fed, w) == inner(fed, w),
{
    dwell::lemma_in_order_prefix(fed, w);
    lemma_hangover_memory(inner, 0, fed);
}

/// The largest hold distance never releases once activated: a horizon is at least
/// one and a start at most one short of the largest, so the gap stays below it.
pub proof fn hangover_of_max_never_releases<V>(
    inner: Behaviour<V, bool>,
    fed: Seq<Windowed<V>>,
    w: Windowed<V>,
)
    requires
        runs::in_span_order(fed.push(w)),
        forall|i: int| 0 <= i < fed.len() ==> (#[trigger] fed[i]).span.wf(),
        w.span.wf(),
        has_been_active(inner, fed),
        inner(fed, w) is Ok,
    ensures
        fresh_hangover(inner, usize::MAX)(fed, w) == Ok::<bool, WinditError>(true),
{
    dwell::lemma_in_order_prefix(fed, w);
    lemma_hangover_memory(inner, usize::MAX, fed);
}

/// Nothing is held before the inner gate has been active.
pub proof fn hangover_starts_inactive<V>(
    inner: Behaviour<V, bool>,
    hold: usize,
    fed: Seq<Windowed<V>>,
    w: Windowed<V>,
)
    requires
        runs::in_span_order(fed.push(w)),
        forall|i: int| 0 <= i < fed.len() ==> (#[trigger] fed[i]).span.wf(),
        !has_been_active(inner, fed),
    ensures
        fresh_hangover(inner, hold)(fed, w) == inner(fed, w),
{
    dwell::lemma_in_order_prefix(fed, w);
    lemma_hangover_memory(inner, hold, fed);
}

/// A window that overlaps or touches the one the inner gate was last active on is held by any
/// positive hold distance.
pub proof fn hangover_holds_overlaps<V>(
    inner: Behaviour<V, bool>,
    hold: usize,
    fed: Seq<Windowed<V>>,
    w: Windowed<V>,
    next: Windowed<V>,
)
    requires
        runs::in_span_order(fed.push(w).push(next)),
        forall|i: int| 0 <= i < fed.len() ==> (#[trigger] fed[i]).span.wf(),
        w.span.wf(),
        hold > 0,
        inner(fed, w) == Ok::<bool, WinditError>(true),
        next.span.start() <= w.span.end(),
        inner(fed.push(w), next) is Ok,
    ensures
        fresh_hangover(inner, hold)(fed.push(w), next) == Ok::<bool, WinditError>(true),
{
    dwell::lemma_in_order_prefix(fed.push(w), next);
    dwell::lemma_in_order_prefix(fed, w);
    lemma_hangover_memory(inner, hold, fed);
    assert(fed.push(w).drop_last() =~= fed);
    lemma_hangover_memory(inner, hold, fed.push(w));
}

/// After a release, only the inner gate can activate again: a stale horizon never
/// does.
pub proof fn hangover_releases_once<V>(
    inner: Behaviour<V, bool>,
    hold: usize,
    fed: Seq<Windowed<V>>,
    w: Windowed<V>,
    next: Windowed<V>,
)
    requires
        runs::in_span_order(fed.push(w).push(next)),
        forall|i: int| 0 <= i < fed.len() ==> (#[trigger] fed[i]).span.wf(),
        w.span.wf(),
        fresh_hangover(inner, hold)(fed, w) == Ok::<bool, WinditError>(false),
        inner(fed.push(w), next) == Ok::<bool, WinditError>(false),
    ensures
        fresh_hangover(inner, hold)(fed.push(w), next) == Ok::<bool, WinditError>(false),
{
    dwell::lemma_in_order_prefix(fed.push(w), next);
    dwell::lemma_in_order_prefix(fed, w);
    lemma_hangover_memory(inner, hold, fed);
    assert(fed.push(w).drop_last() =~= fed);
    lemma_hangover_memory(inner, hold, fed.push(w));
}

/// A backward span is refused by the combinator itself and changes nothing: what
/// follows it is answered as if it had not come.
pub proof fn hangover_refuses_backward_spans<V>(
    inner: Behaviour<V, bool>,
    hold: usize,
    fed: Seq<Windowed<V>>,
    w: Windowed<V>,
    next: Windowed<V>,
)
    requires
        runs::in_span_order(fed),
        forall|i: int| 0 <= i < fed.len() ==> (#[trigger] fed[i]).span.wf(),
        fed.len() > 0,
        inner(fed.drop_last(), fed.last()) is Ok,
        w.span.start() < fed.last().span.start(),
    ensures
        fresh_hangover(inner, hold)(fed, w) == Err::<bool, WinditError>(
            WinditError::NonMonotonicSpan {
                prev_start: fed.last().span.start(),
                start: w.span.start(),
            },
        ),
        fresh_hangover(inner, hold)(fed.push(w), next) == fresh_hangover(inner, hold)(fed, next),
{
    let before = fed.drop_last();
    assert(before.push(fed.last()) =~= fed);
    assert(forall|i: int| 0 <= i < before.len() ==> before[i] == fed[i]);
    dwell::lemma_in_order_prefix(before, fed.last());
    lemma_hangover_memory(inner, hold, before);
    lemma_hangover_memory(inner, hold, fed);
    assert(fed.push(w).drop_last() =~= fed);
}

/// Whether the inner gate answered `true` to window `i`.
pub open spec fn active_at<V>(inner: Behaviour<V, bool>, fed: Seq<Windowed<V>>, i: int) -> bool {
    0 <= i < fed.len() && behaviour::answers(inner, fed)[i] == Ok::<bool, WinditError>(true)
}

/// Whether `end` is the largest end of the windows that the inner gate answered `true` to.
pub open spec fn is_horizon<V>(
    inner: Behaviour<V, bool>,
    fed: Seq<Windowed<V>>,
    end: usize,
) -> bool {
    &&& exists|i: int| #[trigger] active_at(inner, fed, i) && fed[i].span.end() == end
    &&& forall|i: int| #[trigger] active_at(inner, fed, i) ==> fed[i].span.end() <= end
}

/// The horizon that a hangover combinator remembers.
proof fn lemma_hangover_remembers<V>(
    inner: Behaviour<V, bool>,
    hold: usize,
    fed: Seq<Windowed<V>>,
)
    requires
        runs::in_span_order(fed),
        forall|i: int| 0 <= i < fed.len() ==> (#[trigger] fed[i]).span.wf(),
    ensures
        ({
            let memory = behaviour::run(hangover_step(inner, hold), (Seq::empty(), None, None), fed);
            match memory.1 {
                Some(end) => is_horizon(inner, fed, end),
                None => forall|i: int| !#[trigger] active_at(inner, fed, i),
            }
        }),
    decreases fed.len(),
{
    if fed.len() > 0 {
        let (before, w) = (fed.drop_last(), fed.last());
        let last = fed.len() - 1;
        assert(before.push(w) =~= fed);
        assert(fed.take(last) =~= before);
        dwell::lemma_in_order_prefix(before, w);
        assert(forall|i: int| 0 <= i < before.len() ==> before[i] == fed[i]);
        lemma_hangover_memory(inner, hold, before);
        lemma_hangover_remembers(inner, hold, before);
        assert(behaviour::answers(inner, fed)[last] == inner(before, w));
        assert forall|i: int| 0 <= i < last implies #[trigger] active_at(inner, fed, i)
            == active_at(inner, before, i) by {
            assert(before.take(i) =~= fed.take(i));
        }
        let was = behaviour::run(hangover_step(inner, hold), (Seq::empty(), None, None), before).1;
        if let Some(end) = was {
            let i = choose|i: int| #[trigger]
                active_at(inner, before, i) && before[i].span.end() == end;
            assert(active_at(inner, fed, i));
        }
        assert(active_at(inner, fed, last) == (inner(before, w) == Ok::<bool, WinditError>(true)));
    }
}

/// The answer of a hangover combinator in closed form: in span order, it is active where the
/// inner gate is, and where a window that the inner gate was active on ends less than the hold
/// distance before this one starts.
pub proof fn hangover_holds_near_activity<V>(
    inner: Behaviour<V, bool>,
    hold: usize,
    fed: Seq<Windowed<V>>,
    w: Windowed<V>,
)
    requires
        runs::in_span_order(fed.push(w)),
        forall|i: int| 0 <= i < fed.len() ==> (#[trigger] fed[i]).span.wf(),
        inner(fed, w) is Ok,
    ensures
        fresh_hangover(inner, hold)(fed, w) == Ok::<bool, WinditError>(
            inner(fed, w)->Ok_0 || exists|i: int| #[trigger]
                active_at(inner, fed, i) && segmenter::gap(fed[i].span.end(), w.span.start())
                    < hold,
        ),
        forall|end: usize| #[trigger]
            is_horizon(inner, fed, end) ==> fresh_hangover(inner, hold)(fed, w) == Ok::<
                bool,
                WinditError,
            >(inner(fed, w)->Ok_0 || segmenter::gap(end, w.span.start()) < hold),
{
    dwell::lemma_in_order_prefix(fed, w);
    lemma_hangover_memory(inner, hold, fed);
    lemma_hangover_remembers(inner, hold, fed);
    let was = behaviour::run(hangover_step(inner, hold), (Seq::empty(), None, None), fed).1;
    if let Some(end) = was {
        let i = choose|i: int| #[trigger] active_at(inner, fed, i) && fed[i].span.end() == end;
        assert(active_at(inner, fed, i));
        assert forall|other: usize| #[trigger] is_horizon(inner, fed, other) implies other
            == end by {
            let j = choose|j: int| #[trigger]
                active_at(inner, fed, j) && fed[j].span.end() == other;
            assert(active_at(inner, fed, j));
        }
    }
}

/// The answer of a hangover combinator, by the windows alone: in span order, it is active where
/// the inner gate is, and where some window that the inner gate was active on is followed by this
/// one's start after fewer elements than the hold distance.
pub proof fn hangover_holds_for_the_distance<V>(
    inner: Behaviour<V, bool>,
    hold: usize,
    fed: Seq<Windowed<V>>,
    w: Windowed<V>,
)
    requires
        runs::in_span_order(fed.push(w)),
        forall|i: int| 0 <= i < fed.len() ==> (#[trigger] fed[i]).span.wf(),
        inner(fed, w) is Ok,
        hold > 0,
    ensures
        fresh_hangover(inner, hold)(fed, w) == Ok::<bool, WinditError>(
            inner(fed, w)->Ok_0 || exists|i: int|
                0 <= i < fed.len() && inner(#[trigger] fed.take(i), fed[i]) == Ok::<
                    bool,
                    WinditError,
                >(true) && w.span.start() - (fed[i].span.start() + fed[i].span.len()) < hold,
        ),
{
    hangover_holds_near_activity(inner, hold, fed, w);
    if exists|i: int| #[trigger]
        active_at(inner, fed, i) && segmenter::gap(fed[i].span.end(), w.span.start()) < hold {
        let i = choose|i: int| #[trigger]
            active_at(inner, fed, i) && segmenter::gap(fed[i].span.end(), w.span.start()) < hold;
        assert(fed[i].span.wf());
        assert(inner(fed.take(i), fed[i]) == Ok::<bool, WinditError>(true));
    }
    if exists|i: int|
        0 <= i < fed.len() && inner(#[trigger] fed.take(i), fed[i]) == Ok::<bool, WinditError>(true)
            && w.span.start() - (fed[i].span.start() + fed[i].span.len()) < hold {
        let i = choose|i: int|
            0 <= i < fed.len() && inner(#[trigger] fed.take(i), fed[i]) == Ok::<bool, WinditError>(
                true,
            ) && w.span.start() - (fed[i].span.start() + fed[i].span.len()) < hold;
        assert(fed[i].span.wf());
        assert(active_at(inner, fed, i));
        assert(segmenter::gap(fed[i].span.end(), w.span.start()) < hold);
    }
}

} // verus!
