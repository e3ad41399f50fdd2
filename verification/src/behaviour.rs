//! What a streaming stage does, as a function of what it is fed.
use vstd::prelude::*;

use crate::error::WinditError;
use crate::windowed::Windowed;

verus! {

/// The behaviour of a stage in some state: its answer to a window, given the
/// windows that it has been fed since that state.
pub type Behaviour<V, O> = spec_fn(Seq<Windowed<V>>, Windowed<V>) -> Result<O, WinditError>;

/// The answer of a behaviour to a window that is fed at once.
pub open spec fn answer<V, O>(b: Behaviour<V, O>, w: Windowed<V>) -> Result<O, WinditError> {
    b(Seq::empty(), w)
}

/// The behaviour that is left after feeding `first`.
pub open spec fn after<V, O>(b: Behaviour<V, O>, first: Windowed<V>) -> Behaviour<V, O> {
    |fed: Seq<Windowed<V>>, w: Windowed<V>| b(seq![first] + fed, w)
}

/// The answers of a behaviour to the windows of a sequence, one after another.
pub open spec fn answers<V, O>(b: Behaviour<V, O>, seq: Seq<Windowed<V>>) -> Seq<
    Result<O, WinditError>,
> {
    Seq::new(seq.len(), |i: int| b(seq.take(i), seq[i]))
}

/// The state that a transition function reaches from `state` when fed a sequence.
pub open spec fn run<S, V, O>(
    step: spec_fn(S, Windowed<V>) -> (S, Result<O, WinditError>),
    state: S,
    fed: Seq<Windowed<V>>,
) -> S
    decreases fed.len(),
{
    if fed.len() == 0 {
        state
    } else {
        step(run(step, state, fed.drop_last()), fed.last()).0
    }
}

/// The behaviour of a transition function in `state`.
pub open spec fn automaton<S, V, O>(
    step: spec_fn(S, Windowed<V>) -> (S, Result<O, WinditError>),
    state: S,
) -> Behaviour<V, O> {
    |fed: Seq<Windowed<V>>, w: Windowed<V>| step(run(step, state, fed), w).1
}

/// A run can be taken apart after its first window.
proof fn lemma_run_first<S, V, O>(
    step: spec_fn(S, Windowed<V>) -> (S, Result<O, WinditError>),
    state: S,
    first: Windowed<V>,
    fed: Seq<Windowed<V>>,
)
    ensures
        run(step, state, seq![first] + fed) == run(step, step(state, first).0, fed),
    decreases fed.len(),
{
    reveal_with_fuel(run, 2);
    if fed.len() == 0 {
        assert((seq![first] + fed).drop_last() =~= Seq::<Windowed<V>>::empty());
        assert((seq![first] + fed).last() == first);
    } else {
        lemma_run_first(step, state, first, fed.drop_last());
        assert((seq![first] + fed).drop_last() =~= seq![first] + fed.drop_last());
        assert((seq![first] + fed).last() == fed.last());
    }
}

/// Feeding a transition function one window answers with its step, and leaves its
/// behaviour in the next state.
pub proof fn automaton_steps<S, V, O>(
    step: spec_fn(S, Windowed<V>) -> (S, Result<O, WinditError>),
    state: S,
    w: Windowed<V>,
)
    ensures
        answer(automaton(step, state), w) == step(state, w).1,
        after(automaton(step, state), w) == automaton(step, step(state, w).0),
{
    let left = after(automaton(step, state), w);
    let right = automaton(step, step(state, w).0);
    assert forall|fed: Seq<Windowed<V>>, next: Windowed<V>| #[trigger]
        left(fed, next) == right(fed, next) by {
        lemma_run_first(step, state, w, fed);
    }
    behaviours_agree(left, right);
}

/// Two behaviours that agree everywhere are one.
pub proof fn behaviours_agree<V, O>(a: Behaviour<V, O>, b: Behaviour<V, O>)
    requires
        forall|fed: Seq<Windowed<V>>, w: Windowed<V>| #[trigger] a(fed, w) == b(fed, w),
    ensures
        a == b,
{
    assert(a =~= b);
}

/// The answers to a sequence are the answer to its first window and the answers of
/// what is left to the rest.
pub proof fn answers_split<V, O>(b: Behaviour<V, O>, seq: Seq<Windowed<V>>, i: int)
    requires
        0 < i < seq.len(),
    ensures
        answers(b, seq)[0] == answer(b, seq[0]),
        answers(b, seq)[i] == answers(after(b, seq[0]), seq.drop_first())[i - 1],
{
    assert(seq.take(0) =~= Seq::<Windowed<V>>::empty());
    assert(seq![seq[0]] + seq.drop_first().take(i - 1) =~= seq.take(i));
}

/// The behaviour that is left after feeding a sequence.
pub open spec fn left<V, O>(b: Behaviour<V, O>, fed: Seq<Windowed<V>>) -> Behaviour<V, O> {
    |more: Seq<Windowed<V>>, w: Windowed<V>| b(fed + more, w)
}

/// What is left after no windows is the whole behaviour.
pub(crate) proof fn lemma_left_nothing<V, O>(b: Behaviour<V, O>, fed: Seq<Windowed<V>>)
    requires
        fed.len() == 0,
    ensures
        left(b, fed) == b,
{
    assert forall|more: Seq<Windowed<V>>, w: Windowed<V>| #[trigger]
        left(b, fed)(more, w) == b(more, w) by {
        assert(fed + more =~= more);
    }
    behaviours_agree(left(b, fed), b);
}

/// What is left answers a window as the whole behaviour does, and leaves what is left
/// after that window too.
pub(crate) proof fn lemma_left<V, O>(b: Behaviour<V, O>, fed: Seq<Windowed<V>>, w: Windowed<V>)
    ensures
        answer(left(b, fed), w) == b(fed, w),
        after(left(b, fed), w) == left(b, fed.push(w)),
{
    assert(fed + Seq::<Windowed<V>>::empty() =~= fed);
    let l = after(left(b, fed), w);
    let r = left(b, fed.push(w));
    assert forall|more: Seq<Windowed<V>>, next: Windowed<V>| #[trigger]
        l(more, next) == r(more, next) by {
        assert(fed + (seq![w] + more) =~= fed.push(w) + more);
    }
    behaviours_agree(l, r);
}

/// Tell a stage something, as a fact about what it was told through.
pub(crate) fn tell<A: ?Sized, F: Fn(&mut A)>(f: F, a: &mut A)
    requires
        forall|m: &mut A| #![trigger call_requires(f, (m,))] call_requires(f, (m,)),
    ensures
        exists|m: &mut A|
            #![trigger call_ensures(f, (m,), ())]
            &*m == &*old(a) && &*final(m) == &*final(a) && call_ensures(f, (m,), ()),
{
    f(a)
}

} // verus!
