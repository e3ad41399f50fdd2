//! The onset-confirmation gate combinator.
use vstd::prelude::*;

use crate::behaviour;
use crate::behaviour::Behaviour;
use crate::error::WinditError;
use crate::plan::Span;
use crate::segment::gate::{Gate, GatePolicy};
use crate::segment::runs;
use crate::segment::segmenter;
use crate::windowed::Windowed;

verus! {

/// Whether a span may not follow a span that started at `last_start`.
pub open spec fn goes_backward(last_start: Option<usize>, span: Span) -> bool {
    last_start matches Some(prev) && span.start() < prev
}

/// The error of a span that goes backward.
pub open spec fn backward_error(last_start: Option<usize>, span: Span) -> WinditError {
    WinditError::NonMonotonicSpan { prev_start: last_start->Some_0, start: span.start() }
}

/// Onset-confirmation gate combinator: on-delay debounce.
///
/// Wraps an inner gate `P` and suppresses its `true` decisions until the inner gate
/// has been continuously active for `confirm` input elements. The streaming state,
/// [`DwellState`], is a [`Gate<V>`](Gate) for *every* `V` given only `G: Gate<V>`:
/// the wrapper never reads the value, only the inner decision and the span.
///
/// # Semantics
///
/// On an inner `true`, the wrapper records the *origin*, the start of the first
/// `true` after a `false` (or after a fresh start), and folds the run's coverage
/// horizon forward by maximum, since ascending starts do not imply ascending ends.
/// It outputs `true` once that horizon reaches `confirm` elements past the origin.
/// Because the horizon only grows, a confirmed run stays confirmed. On an inner
/// `false` the run is cleared and the output is `false`: releases are never
/// delayed.
///
/// A `confirm` of zero is an exact pass-through, and `usize::MAX` never confirms.
///
/// # Errors
///
/// The wrapper reads spans, so it reports [`WinditError::NonMonotonicSpan`] itself,
/// before the inner gate is fed: on its own violation neither the wrapper nor the
/// inner gate has advanced. If the *inner* gate errs instead, the wrapper's own
/// fields are unchanged while the inner gate follows its own error contract.
#[derive(Debug, PartialEq)]
pub struct Dwell<P> {
    inner: P,
    confirm: usize,
}

impl<P: Clone> Clone for Dwell<P> {
    fn clone(&self) -> (r: Self)
        ensures
            cloned(*self.inner(), *r.inner()),
            r.confirm() == self.confirm(),
    {
        Dwell { inner: self.inner.clone(), confirm: self.confirm }
    }
}

impl<P: Copy> Copy for Dwell<P> {

}

impl<P> Dwell<P> {
    /// The wrapped configuration.
    pub closed spec fn spec_inner(&self) -> &P {
        &self.inner
    }

    /// The confirmation distance.
    pub closed spec fn spec_confirm(&self) -> usize {
        self.confirm
    }

    /// A dwell combinator over `inner`, confirming activation only after `confirm`
    /// continuous input elements.
    #[must_use]
    pub fn new(inner: P, confirm: usize) -> (r: Dwell<P>)
        ensures
            *r.inner() == inner,
            r.confirm() == confirm,
    {
        Dwell { inner, confirm }
    }

    /// The wrapped gate configuration.
    #[verifier::when_used_as_spec(spec_inner)]
    #[must_use]
    pub fn inner(&self) -> (r: &P)
        ensures
            r == self.inner(),
    {
        &self.inner
    }

    /// The confirmation distance, in input elements.
    #[verifier::when_used_as_spec(spec_confirm)]
    #[must_use]
    pub fn confirm(&self) -> (r: usize)
        ensures
            r == self.confirm(),
    {
        self.confirm
    }
}

/// The streaming state of a [`Dwell`] combinator: the inner gate, the confirmation
/// distance, the current continuous run as its origin and coverage horizon, and the
/// last pushed span's start.
#[derive(Debug, PartialEq)]
pub struct DwellState<G> {
    inner: G,
    confirm: usize,
    run: Option<(usize, usize)>,
    last_start: Option<usize>,
}

/// The run of inner `true` decisions extended by one on `span`.
pub open spec fn dwell_run(run: Option<(usize, usize)>, span: Span) -> (usize, usize) {
    match run {
        Some((origin, horizon)) => (origin, segmenter::later(horizon, span.end())),
        None => (span.start(), span.end()),
    }
}

/// Whether a run reaches `confirm` elements past its origin; `usize::MAX` is never
/// reached.
pub open spec fn dwell_confirms(run: (usize, usize), confirm: usize) -> bool {
    confirm != usize::MAX && segmenter::gap(run.0, run.1) >= confirm
}

/// What a dwell combinator remembers: the windows its inner gate has been fed, the
/// run of inner `true` decisions, and the start of the last decided span.
pub type DwellMemory<V> = (Seq<Windowed<V>>, Option<(usize, usize)>, Option<usize>);

/// The transition of a dwell combinator over an inner behaviour.
///
/// A backward span is refused with nothing changed. Otherwise the inner gate is fed:
/// its error passes through, its `false` clears the run, and its `true` extends the
/// run and is passed on where that confirms.
pub open spec fn dwell_step<V>(inner: Behaviour<V, bool>, confirm: usize) -> spec_fn(
    DwellMemory<V>,
    Windowed<V>,
) -> (DwellMemory<V>, Result<bool, WinditError>) {
    |memory: DwellMemory<V>, w: Windowed<V>|
        {
            let (fed, run, last_start) = memory;
            if goes_backward(last_start, w.span) {
                (memory, Err::<bool, WinditError>(backward_error(last_start, w.span)))
            } else {
                match inner(fed, w) {
                    Err(e) => ((fed.push(w), run, last_start), Err::<bool, WinditError>(e)),
                    Ok(false) => (
                        (fed.push(w), None, Some(w.span.start())),
                        Ok::<bool, WinditError>(false),
                    ),
                    Ok(true) => {
                        let grown = dwell_run(run, w.span);
                        (
                            (fed.push(w), Some(grown), Some(w.span.start())),
                            Ok::<bool, WinditError>(dwell_confirms(grown, confirm)),
                        )
                    },
                }
            }
        }
}

/// What a dwell combinator answers, given what its inner gate answers from here on.
pub open spec fn dwell_behaviour<V>(
    inner: Behaviour<V, bool>,
    confirm: usize,
    run: Option<(usize, usize)>,
    last_start: Option<usize>,
) -> Behaviour<V, bool> {
    behaviour::automaton(dwell_step(inner, confirm), (Seq::empty(), run, last_start))
}

/// A window that the inner gate has seen before the run is one that its behaviour is past.
proof fn lemma_dwell_memory_shifts<V>(
    inner: Behaviour<V, bool>,
    confirm: usize,
    first: Windowed<V>,
    run: Option<(usize, usize)>,
    last_start: Option<usize>,
    fed: Seq<Windowed<V>>,
)
    ensures
        ({
            let whole = behaviour::run(
                dwell_step(inner, confirm),
                (seq![first], run, last_start),
                fed,
            );
            let rest = behaviour::run(
                dwell_step(behaviour::after(inner, first), confirm),
                (Seq::empty(), run, last_start),
                fed,
            );
            &&& whole.0 == seq![first] + rest.0
            &&& whole.1 == rest.1
            &&& whole.2 == rest.2
        }),
    decreases fed.len(),
{
    if fed.len() == 0 {
        assert(seq![first] + Seq::<Windowed<V>>::empty() =~= seq![first]);
    } else {
        lemma_dwell_memory_shifts(inner, confirm, first, run, last_start, fed.drop_last());
        let rest = behaviour::run(
            dwell_step(behaviour::after(inner, first), confirm),
            (Seq::empty(), run, last_start),
            fed.drop_last(),
        );
        assert((seq![first] + rest.0).push(fed.last()) =~= seq![first] + rest.0.push(fed.last()));
    }
}

/// Once the inner gate has been fed a window, its remaining behaviour takes the place
/// of the memory of that window.
proof fn lemma_dwell_shifts<V>(
    inner: Behaviour<V, bool>,
    confirm: usize,
    first: Windowed<V>,
    run: Option<(usize, usize)>,
    last_start: Option<usize>,
)
    ensures
        dwell_behaviour(behaviour::after(inner, first), confirm, run, last_start)
            == behaviour::automaton(dwell_step(inner, confirm), (seq![first], run, last_start)),
{
    let left = dwell_behaviour(behaviour::after(inner, first), confirm, run, last_start);
    let right = behaviour::automaton(dwell_step(inner, confirm), (seq![first], run, last_start));
    assert forall|fed: Seq<Windowed<V>>, w: Windowed<V>| #[trigger] left(fed, w) == right(fed, w) by {
        lemma_dwell_memory_shifts(inner, confirm, first, run, last_start, fed);
    }
    behaviour::behaviours_agree(left, right);
}

impl<G: Clone> Clone for DwellState<G> {
    fn clone(&self) -> (r: Self)
        ensures
            cloned(self.inner(), r.inner()),
            r.confirm() == self.confirm(),
            r.run() == self.run(),
            r.last_start() == self.last_start(),
    {
        DwellState {
            inner: self.inner.clone(),
            confirm: self.confirm,
            run: self.run,
            last_start: self.last_start,
        }
    }
}

impl<G: Copy> Copy for DwellState<G> {

}

impl<G> DwellState<G> {
    /// The state of the inner gate.
    pub closed spec fn inner(&self) -> G {
        self.inner
    }

    /// The confirmation distance.
    pub closed spec fn confirm(&self) -> usize {
        self.confirm
    }

    /// The origin and horizon of the current run of inner `true` decisions.
    pub closed spec fn run(&self) -> Option<(usize, usize)> {
        self.run
    }

    /// The start of the last decided span.
    pub closed spec fn last_start(&self) -> Option<usize> {
        self.last_start
    }
}

impl<V, G: Gate<V>> Gate<V> for DwellState<G> {
    open spec fn behaviour(&self) -> Behaviour<V, bool> {
        dwell_behaviour(
            self.inner().behaviour(),
            self.confirm(),
            self.run(),
            self.last_start(),
        )
    }

    open spec fn fresh(&self) -> Behaviour<V, bool> {
        dwell_behaviour(self.inner().fresh(), self.confirm(), None, None)
    }

    /// The inner gate is told of the break, not reset.
    open spec fn resumed(&self) -> Behaviour<V, bool> {
        dwell_behaviour(self.inner().resumed(), self.confirm(), None, None)
    }

    fn push(&mut self, w: &Windowed<V>) -> (out: Result<bool, WinditError>)
        ensures
            goes_backward(old(self).last_start(), w.span) ==> *final(self) == *old(self),
            ({
                let memory = dwell_step(old(self).inner().behaviour(), old(self).confirm())(
                    (Seq::empty(), old(self).run(), old(self).last_start()),
                    *w,
                ).0;
                &&& final(self).run() == memory.1
                &&& final(self).last_start() == memory.2
            }),
            final(self).confirm() == old(self).confirm(),
    {
        let ghost inner = self.inner.behaviour();
        let ghost confirm = self.confirm;
        proof {
            behaviour::automaton_steps(
                dwell_step(inner, confirm),
                (Seq::empty(), self.run, self.last_start),
                *w,
            );
            assert(Seq::<Windowed<V>>::empty().push(*w) =~= seq![*w]);
        }
        let span = w.span();
        let start: usize = span.start();
        let end: usize = span.end();
        // Before the inner gate is fed, so the wrapper's own violation leaves both
        // unchanged.
        if let Some(prev) = self.last_start {
            if start < prev {
                return Err(WinditError::NonMonotonicSpan { prev_start: prev, start });
            }
        }
        let inner_active = match self.inner.push(w) {
            Ok(active) => active,
            Err(e) => {
                proof {
                    lemma_dwell_shifts(inner, confirm, *w, self.run, self.last_start);
                }
                return Err(e);
            },
        };
        self.last_start = Some(start);
        if inner_active {
            let (origin, horizon): (usize, usize) = match self.run {
                Some((origin, horizon)) => if horizon >= end {
                    (origin, horizon)
                } else {
                    (origin, end)
                },
                None => (start, end),
            };
            self.run = Some((origin, horizon));
            proof {
                lemma_dwell_shifts(inner, confirm, *w, self.run, self.last_start);
            }
            // The widest run that spans can describe reaches `usize::MAX` elements,
            // so the never-confirming distance is tested for itself.
            if self.confirm == usize::MAX {
                return Ok(false);
            }
            Ok(horizon.saturating_sub(origin) >= self.confirm)
        } else {
            self.run = None;
            proof {
                lemma_dwell_shifts(inner, confirm, *w, self.run, self.last_start);
            }
            Ok(false)
        }
    }

    fn reset(&mut self)
        ensures
            final(self).confirm() == old(self).confirm(),
            final(self).run() is None,
            final(self).last_start() is None,
            exists|m: &mut G|
                #![trigger call_ensures(G::reset, (m,), ())]
                *m == old(self).inner() && *final(m) == final(self).inner() && call_ensures(
                    G::reset,
                    (m,),
                    (),
                ),
    {
        self.run = None;
        self.last_start = None;
        behaviour::tell(G::reset, &mut self.inner);
    }

    fn discontinuity(&mut self)
        ensures
            final(self).confirm() == old(self).confirm(),
            final(self).run() is None,
            final(self).last_start() is None,
            exists|m: &mut G|
                #![trigger call_ensures(G::discontinuity, (m,), ())]
                *m == old(self).inner() && *final(m) == final(self).inner() && call_ensures(
                    G::discontinuity,
                    (m,),
                    (),
                ),
    {
        self.run = None;
        self.last_start = None;
        behaviour::tell(G::discontinuity, &mut self.inner);
    }
}

impl<V, P: GatePolicy<V>> GatePolicy<V> for Dwell<P> {
    type Gate = DwellState<P::Gate>;

    open spec fn behaviour(&self) -> Behaviour<V, bool> {
        dwell_behaviour(self.inner().behaviour(), self.confirm(), None, None)
    }

    fn gate(&self) -> (gate: DwellState<P::Gate>)
        ensures
            gate.confirm() == self.confirm(),
            gate.run() is None,
            gate.last_start() is None,
    {
        let gate = DwellState {
            inner: self.inner.gate(),
            confirm: self.confirm,
            run: None,
            last_start: None,
        };
        assert(gate.behaviour() == self.behaviour() && gate.fresh() == self.behaviour());
        gate
    }
}

/// What a fresh dwell combinator answers over an inner behaviour.
pub open spec fn fresh_dwell<V>(inner: Behaviour<V, bool>, confirm: usize) -> Behaviour<V, bool> {
    dwell_behaviour(inner, confirm, None, None)
}

/// In span order the inner gate is fed every window, and the last decided start is
/// never past the last window.
proof fn lemma_dwell_memory<V>(
    inner: Behaviour<V, bool>,
    confirm: usize,
    fed: Seq<Windowed<V>>,
)
    requires
        runs::in_span_order(fed),
    ensures
        ({
            let memory = behaviour::run(dwell_step(inner, confirm), (Seq::empty(), None, None), fed);
            &&& memory.0 == fed
            &&& memory.2 matches Some(start) ==> fed.len() > 0 && start <= fed.last().span.start()
        }),
    decreases fed.len(),
{
    if fed.len() > 0 {
        let before = fed.drop_last();
        assert forall|i: int, j: int| 0 <= i < j < before.len() implies (
        #[trigger] before[i]).span.start() <= (#[trigger] before[j]).span.start() by {
            assert(before[i] == fed[i] && before[j] == fed[j]);
        }
        lemma_dwell_memory(inner, confirm, before);
        assert(before.push(fed.last()) =~= fed);
        if before.len() > 0 {
            assert(before.last() == fed[fed.len() - 2]);
            assert(fed.last() == fed[fed.len() - 1]);
        }
    } else {
        assert(fed =~= Seq::empty());
    }
}

/// What comes before the last of windows in span order is in span order, and starts no later.
pub(crate) proof fn lemma_in_order_prefix<V>(fed: Seq<Windowed<V>>, w: Windowed<V>)
    requires
        runs::in_span_order(fed.push(w)),
    ensures
        runs::in_span_order(fed),
        fed.len() > 0 ==> fed.last().span.start() <= w.span.start(),
{
    let all = fed.push(w);
    assert forall|i: int, j: int| 0 <= i < j < fed.len() implies (#[trigger] fed[i]).span.start()
        <= (#[trigger] fed[j]).span.start() by {
        assert(all[i] == fed[i] && all[j] == fed[j]);
    }
    if fed.len() > 0 {
        assert(all[fed.len() - 1].span.start() <= all[fed.len() as int].span.start());
    }
}

/// Suppression only: in span order, an active answer means that the inner gate is
/// active too, and an inner error passes through.
pub proof fn dwell_only_suppresses<V>(
    inner: Behaviour<V, bool>,
    confirm: usize,
    fed: Seq<Windowed<V>>,
    w: Windowed<V>,
)
    requires
        runs::in_span_order(fed.push(w)),
    ensures
        fresh_dwell(inner, confirm)(fed, w) == Ok::<bool, WinditError>(true) ==> inner(fed, w)
            == Ok::<bool, WinditError>(true),
        inner(fed, w) is Err ==> fresh_dwell(inner, confirm)(fed, w) == inner(fed, w),
{
    lemma_in_order_prefix(fed, w);
    lemma_dwell_memory(inner, confirm, fed);
}

/// A confirmation distance of zero passes every inner answer through.
pub proof fn dwell_of_zero_passes_through<V>(
    inner: Behaviour<V, bool>,
    fed: Seq<Windowed<V>>,
    w: Windowed<V>,
)
    requires
        runs::in_span_order(fed.push(w)),
    ensures
        fresh_dwell(inner, 0)(fed, w) == inner(fed, w),
{
    lemma_in_order_prefix(fed, w);
    lemma_dwell_memory(inner, 0, fed);
}

/// A run of windows of at least the confirmation distance is confirmed.
proof fn lemma_dwell_reach<V>(inner: Behaviour<V, bool>, confirm: usize, fed: Seq<Windowed<V>>)
    requires
        forall|i: int|
            0 <= i < fed.len() ==> (#[trigger] fed[i]).span.wf() && fed[i].span.len() >= confirm,
    ensures
        behaviour::run(dwell_step(inner, confirm), (Seq::empty(), None, None), fed).1 matches Some(
            run,
        ) ==> segmenter::gap(run.0, run.1) >= confirm,
    decreases fed.len(),
{
    if fed.len() > 0 {
        let before = fed.drop_last();
        assert forall|i: int| 0 <= i < before.len() implies (#[trigger] before[i]).span.wf()
            && before[i].span.len() >= confirm by {
            assert(before[i] == fed[i]);
        }
        lemma_dwell_reach(inner, confirm, before);
        assert(fed.last() == fed[fed.len() - 1]);
    }
}

/// A confirmation distance that no window is shorter than suppresses nothing.
pub proof fn short_dwells_pass_through<V>(
    inner: Behaviour<V, bool>,
    confirm: usize,
    fed: Seq<Windowed<V>>,
    w: Windowed<V>,
)
    requires
        runs::in_span_order(fed.push(w)),
        confirm < usize::MAX,
        forall|i: int|
            0 <= i < fed.len() ==> (#[trigger] fed[i]).span.wf() && fed[i].span.len() >= confirm,
        w.span.wf(),
        w.span.len() >= confirm,
    ensures
        fresh_dwell(inner, confirm)(fed, w) == inner(fed, w),
{
    lemma_in_order_prefix(fed, w);
    lemma_dwell_memory(inner, confirm, fed);
    lemma_dwell_reach(inner, confirm, fed);
}

/// The largest confirmation distance never confirms, whatever it is fed.
pub proof fn dwell_of_max_never_confirms<V>(
    inner: Behaviour<V, bool>,
    fed: Seq<Windowed<V>>,
    w: Windowed<V>,
)
    ensures
        fresh_dwell(inner, usize::MAX)(fed, w) != Ok::<bool, WinditError>(true),
{
}

/// A confirmed run stays confirmed: after an active answer, the next one is active
/// too while the inner gate is, however the next span ends.
pub proof fn dwell_never_retracts<V>(
    inner: Behaviour<V, bool>,
    confirm: usize,
    fed: Seq<Windowed<V>>,
    w: Windowed<V>,
    next: Windowed<V>,
)
    requires
        runs::in_span_order(fed.push(w).push(next)),
        fresh_dwell(inner, confirm)(fed, w) == Ok::<bool, WinditError>(true),
        inner(fed.push(w), next) == Ok::<bool, WinditError>(true),
    ensures
        fresh_dwell(inner, confirm)(fed.push(w), next) == Ok::<bool, WinditError>(true),
{
    lemma_in_order_prefix(fed.push(w), next);
    lemma_in_order_prefix(fed, w);
    lemma_dwell_memory(inner, confirm, fed);
    assert(fed.push(w).drop_last() =~= fed);
    lemma_dwell_memory(inner, confirm, fed.push(w));
}

/// A backward span is refused by the combinator itself and changes nothing: what
/// follows it is answered as if it had not come.
pub proof fn dwell_refuses_backward_spans<V>(
    inner: Behaviour<V, bool>,
    confirm: usize,
    fed: Seq<Windowed<V>>,
    w: Windowed<V>,
    next: Windowed<V>,
)
    requires
        runs::in_span_order(fed),
        fed.len() > 0,
        inner(fed.drop_last(), fed.last()) is Ok,
        w.span.start() < fed.last().span.start(),
    ensures
        fresh_dwell(inner, confirm)(fed, w) == Err::<bool, WinditError>(
            WinditError::NonMonotonicSpan {
                prev_start: fed.last().span.start(),
                start: w.span.start(),
            },
        ),
        fresh_dwell(inner, confirm)(fed.push(w), next) == fresh_dwell(inner, confirm)(fed, next),
{
    let before = fed.drop_last();
    assert(before.push(fed.last()) =~= fed);
    lemma_in_order_prefix(before, fed.last());
    lemma_dwell_memory(inner, confirm, before);
    lemma_dwell_memory(inner, confirm, fed);
    assert(fed.push(w).drop_last() =~= fed);
}

/// The largest end of the windows from `from` up to (but not including) `to`.
pub open spec fn latest_end<V>(seq: Seq<Windowed<V>>, from: int, to: int) -> usize
    decreases to - from,
{
    if to - from <= 1 {
        seq[from].span.end()
    } else {
        segmenter::later(latest_end(seq, from, to - 1), seq[to - 1].span.end())
    }
}

/// Whether window `k` begins the run of inner `true` answers that reaches the end of a
/// sequence: all answers from there on are `true`, and the one before is `false`, if there is
/// one.
pub open spec fn begins_run<V>(inner: Behaviour<V, bool>, seq: Seq<Windowed<V>>, k: int) -> bool {
    &&& 0 <= k < seq.len()
    &&& forall|i: int|
        k <= i < seq.len() ==> #[trigger] behaviour::answers(inner, seq)[i] == Ok::<
            bool,
            WinditError,
        >(true)
    &&& k > 0 ==> behaviour::answers(inner, seq)[k - 1] == Ok::<bool, WinditError>(false)
}

/// Where the inner gate decides every window and is active on the last one, some window begins
/// the run.
pub proof fn runs_have_a_beginning<V>(inner: Behaviour<V, bool>, seq: Seq<Windowed<V>>)
    requires
        seq.len() > 0,
        forall|i: int| 0 <= i < seq.len() ==> #[trigger] behaviour::answers(inner, seq)[i] is Ok,
        behaviour::answers(inner, seq).last() == Ok::<bool, WinditError>(true),
    ensures
        exists|k: int| begins_run(inner, seq, k),
    decreases seq.len(),
{
    let last = seq.len() - 1;
    assert(behaviour::answers(inner, seq).last() == behaviour::answers(inner, seq)[last]);
    if last == 0 || behaviour::answers(inner, seq)[last - 1] == Ok::<bool, WinditError>(false) {
        assert(begins_run(inner, seq, last));
    } else {
        let before = seq.drop_last();
        assert forall|i: int| 0 <= i < last implies #[trigger] behaviour::answers(inner, before)[i]
            == behaviour::answers(inner, seq)[i] by {
            assert(before.take(i) =~= seq.take(i));
        }
        let answer = behaviour::answers(inner, seq)[last - 1];
        assert(answer is Ok && answer != Ok::<bool, WinditError>(false));
        assert(answer->Ok_0);
        assert(answer == Ok::<bool, WinditError>(true));
        assert(behaviour::answers(inner, before)[last - 1] == answer);
        assert(behaviour::answers(inner, before).last() == behaviour::answers(
            inner,
            before,
        )[last - 1]);
        runs_have_a_beginning(inner, before);
        let k = choose|k: int| begins_run(inner, before, k);
        assert forall|i: int| k <= i < seq.len() implies #[trigger] behaviour::answers(
            inner,
            seq,
        )[i] == Ok::<bool, WinditError>(true) by {
            if i < last {
                assert(behaviour::answers(inner, before)[i] == Ok::<bool, WinditError>(true));
            }
        }
        assert(begins_run(inner, seq, k));
    }
}

/// The run that a dwell combinator remembers.
proof fn lemma_dwell_remembers<V>(
    inner: Behaviour<V, bool>,
    confirm: usize,
    seq: Seq<Windowed<V>>,
    k: int,
)
    requires
        runs::in_span_order(seq),
        begins_run(inner, seq, k),
    ensures
        behaviour::run(dwell_step(inner, confirm), (Seq::empty(), None, None), seq).1 == Some(
            (seq[k].span.start(), latest_end(seq, k, seq.len() as int)),
        ),
    decreases seq.len(),
{
    let last = seq.len() - 1;
    let before = seq.drop_last();
    let w = seq.last();
    assert(before.push(w) =~= seq);
    assert(seq.take(last) =~= before);
    lemma_in_order_prefix(before, w);
    lemma_dwell_memory(inner, confirm, before);
    assert(behaviour::answers(inner, seq)[last] == inner(before, w));
    if k < last {
        assert forall|i: int| 0 <= i < last implies #[trigger] behaviour::answers(inner, before)[i]
            == behaviour::answers(inner, seq)[i] by {
            assert(before.take(i) =~= seq.take(i));
        }
        lemma_dwell_remembers(inner, confirm, before, k);
        lemma_same_latest_end(before, seq, k, last);
    } else if last > 0 {
        // The answer before cleared whatever there was.
        let earlier = before.drop_last();
        assert(earlier.push(before.last()) =~= before);
        assert(seq.take(last - 1) =~= earlier);
        lemma_in_order_prefix(earlier, before.last());
        lemma_dwell_memory(inner, confirm, earlier);
        assert(behaviour::answers(inner, seq)[last - 1] == inner(earlier, before.last()));
    }
}

/// The largest end depends on the windows in question alone.
proof fn lemma_same_latest_end<V>(a: Seq<Windowed<V>>, b: Seq<Windowed<V>>, from: int, to: int)
    requires
        0 <= from < to <= a.len(),
        to <= b.len(),
        forall|i: int| 0 <= i < to ==> a[i] == b[i],
    ensures
        latest_end(a, from, to) == latest_end(b, from, to),
    decreases to - from,
{
    if to - from > 1 {
        lemma_same_latest_end(a, b, from, to - 1);
    }
}

/// The largest end is past the start of every window in question.
proof fn lemma_latest_end_is_late<V>(seq: Seq<Windowed<V>>, from: int, to: int)
    requires
        0 <= from < to <= seq.len(),
        seq[from].span.wf(),
    ensures
        latest_end(seq, from, to) > seq[from].span.start(),
    decreases to - from,
{
    if to - from > 1 {
        lemma_latest_end_is_late(seq, from, to - 1);
    }
}

/// The answer of a dwell combinator in closed form: in span order, an inner `true` is passed
/// on exactly once the run it belongs to reaches, from the start of its first window to the
/// largest end in it, the confirmation distance; an inner `false` is passed on.
pub proof fn dwell_confirms_long_runs<V>(
    inner: Behaviour<V, bool>,
    confirm: usize,
    fed: Seq<Windowed<V>>,
    w: Windowed<V>,
    k: int,
)
    requires
        runs::in_span_order(fed.push(w)),
        forall|i: int| 0 <= i < fed.len() ==> (#[trigger] fed[i]).span.wf(),
        w.span.wf(),
    ensures
        inner(fed, w) == Ok::<bool, WinditError>(false) ==> fresh_dwell(inner, confirm)(fed, w)
            == Ok::<bool, WinditError>(false),
        begins_run(inner, fed.push(w), k) ==> fresh_dwell(inner, confirm)(fed, w) == Ok::<
            bool,
            WinditError,
        >(
            confirm != usize::MAX && latest_end(fed.push(w), k, fed.len() + 1int) - fed.push(
                w,
            )[k].span.start() >= confirm,
        ),
{
    let all = fed.push(w);
    lemma_in_order_prefix(fed, w);
    lemma_dwell_memory(inner, confirm, fed);
    if begins_run(inner, all, k) {
        assert(all.drop_last() =~= fed);
        assert(all.take(fed.len() as int) =~= fed);
        assert(behaviour::answers(inner, all)[fed.len() as int] == inner(fed, w));
        lemma_dwell_remembers(inner, confirm, all, k);
        assert(all[k].span.wf());
        lemma_latest_end_is_late(all, k, fed.len() + 1int);
    }
}

/// What the largest end of windows is: no end of theirs is larger, and one of them has it.
pub proof fn the_latest_end_is_attained<V>(seq: Seq<Windowed<V>>, from: int, to: int)
    requires
        0 <= from < to <= seq.len(),
    ensures
        forall|i: int|
            from <= i < to ==> (#[trigger] seq[i]).span.end() <= latest_end(seq, from, to),
        exists|i: int| from <= i < to && (#[trigger] seq[i]).span.end() == latest_end(seq, from, to),
    decreases to - from,
{
    if to - from <= 1 {
        assert(seq[from].span.end() == latest_end(seq, from, to));
    } else {
        the_latest_end_is_attained(seq, from, to - 1);
        let i = choose|i: int|
            from <= i < to - 1 && (#[trigger] seq[i]).span.end() == latest_end(seq, from, to - 1);
        assert(seq[i].span.end() <= latest_end(seq, from, to));
        assert(seq[to - 1].span.end() <= latest_end(seq, from, to));
    }
}

/// The answer of a dwell combinator, by the windows alone: in span order, with the inner gate
/// active from window `k` on and inactive before it, it is active exactly once some window from
/// `k` on ends at least the confirmation distance after window `k` starts.
pub proof fn dwell_waits_for_the_distance<V>(
    inner: Behaviour<V, bool>,
    confirm: usize,
    fed: Seq<Windowed<V>>,
    w: Windowed<V>,
    k: int,
)
    requires
        runs::in_span_order(fed.push(w)),
        forall|i: int| 0 <= i < fed.len() ==> (#[trigger] fed[i]).span.wf(),
        w.span.wf(),
        begins_run(inner, fed.push(w), k),
        confirm < usize::MAX,
    ensures
        ({
            let all = fed.push(w);
            fresh_dwell(inner, confirm)(fed, w) == Ok::<bool, WinditError>(
                exists|i: int|
                    k <= i < all.len() && (#[trigger] all[i]).span.start() + all[i].span.len()
                        >= all[k].span.start() + confirm,
            )
        }),
{
    let all = fed.push(w);
    let n = all.len() as int;
    dwell_confirms_long_runs(inner, confirm, fed, w, k);
    the_latest_end_is_attained(all, k, n);
    let at = choose|i: int| k <= i < n && (#[trigger] all[i]).span.end() == latest_end(all, k, n);
    assert forall|i: int| 0 <= i < n implies (#[trigger] all[i]).span.wf() by {
        if i < fed.len() {
            assert(all[i] == fed[i]);
        }
    }
    assert(all[at].span.end() == latest_end(all, k, n));
    if exists|i: int|
        k <= i < n && (#[trigger] all[i]).span.start() + all[i].span.len() >= all[k].span.start()
            + confirm {
        let i = choose|i: int|
            k <= i < n && (#[trigger] all[i]).span.start() + all[i].span.len()
                >= all[k].span.start() + confirm;
        assert(all[i].span.end() <= latest_end(all, k, n));
    }
    if latest_end(all, k, n) - all[k].span.start() >= confirm {
        assert(all[at].span.start() + all[at].span.len() >= all[k].span.start() + confirm);
    }
}

} // verus!
