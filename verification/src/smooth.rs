//! Smoothing: rewrite each window's value while preserving its span.
use vstd::prelude::*;

use crate::behaviour;
use crate::behaviour::Behaviour;
use crate::error::WinditError;
use crate::windowed::Windowed;

verus! {

/// Stateful value rewriting over a windowed sequence: one window in, one out.
///
/// A smoother holds no pending output, so finishing a stream needs nothing of it;
/// what it answers is a function of the windows it is fed: its
/// [`behaviour`](Smoother::behaviour). `Box<dyn Smoother<V>>` is a valid object, so a
/// smoother can be selected at run time.
pub trait Smoother<V> {
    /// What this smoother answers to the windows it is fed from here on.
    open spec fn behaviour(&self) -> Behaviour<V, Windowed<V>> {
        vstd::pervasive::arbitrary()
    }

    /// What this smoother answers once it is reset.
    open spec fn fresh(&self) -> Behaviour<V, Windowed<V>> {
        vstd::pervasive::arbitrary()
    }

    /// What this smoother answers after a timeline break, where that differs from
    /// what it answers once it is reset.
    open spec fn resumed(&self) -> Behaviour<V, Windowed<V>> {
        self.fresh()
    }

    /// Advance by one window and return it with its value rewritten.
    fn push(&mut self, w: Windowed<V>) -> (out: Result<Windowed<V>, WinditError>)
        ensures
            out == behaviour::answer(old(self).behaviour(), w),
            final(self).behaviour() == behaviour::after(old(self).behaviour(), w),
            final(self).fresh() == old(self).fresh(),
    ;

    /// Return to the freshly constructed state.
    fn reset(&mut self)
        ensures
            final(self).behaviour() == old(self).fresh(),
            final(self).fresh() == old(self).fresh(),
    ;

    /// Declare a timeline break; for a smoother that distinguishes no epochs this is
    /// [`reset`](Smoother::reset).
    fn discontinuity(&mut self)
        ensures
            final(self).behaviour() == old(self).resumed() || final(self).behaviour()
                == old(self).fresh(),
            final(self).fresh() == old(self).fresh(),
        default_ensures
            final(self).behaviour() == old(self).fresh(),
    {
        self.reset();
    }
}

/// Forwarding so a boxed smoother is itself a [`Smoother`].
impl<V, T: Smoother<V> + ?Sized> Smoother<V> for Box<T> {
    open spec fn behaviour(&self) -> Behaviour<V, Windowed<V>> {
        (**self).behaviour()
    }

    open spec fn fresh(&self) -> Behaviour<V, Windowed<V>> {
        (**self).fresh()
    }

    open spec fn resumed(&self) -> Behaviour<V, Windowed<V>> {
        (**self).resumed()
    }

    fn push(&mut self, w: Windowed<V>) -> (out: Result<Windowed<V>, WinditError>) {
        (**self).push(w)
    }

    fn reset(&mut self)
        ensures
            exists|m: &mut T|
                #![trigger call_ensures(T::reset, (m,), ())]
                &*m == &**old(self) && &*final(m) == &**final(self) && call_ensures(
                    T::reset,
                    (m,),
                    (),
                ),
    {
        behaviour::tell(T::reset, &mut **self);
    }

    fn discontinuity(&mut self)
        ensures
            exists|m: &mut T|
                #![trigger call_ensures(T::discontinuity, (m,), ())]
                &*m == &**old(self) && &*final(m) == &**final(self) && call_ensures(
                    T::discontinuity,
                    (m,),
                    (),
                ),
    {
        behaviour::tell(T::discontinuity, &mut **self);
    }
}

/// The pass-through smoother: every window comes back unchanged.
#[derive(Clone, Copy, Debug, PartialEq, Eq)]
pub struct Identity;

/// What the pass-through smoother answers: the window itself, whatever came before.
pub open spec fn identity_behaviour<V>() -> Behaviour<V, Windowed<V>> {
    |fed: Seq<Windowed<V>>, w: Windowed<V>| Ok::<Windowed<V>, WinditError>(w)
}

impl Identity {
    /// The pass-through smoother.
    #[must_use]
    pub fn new() -> (r: Identity)
        ensures
            r == Identity,
    {
        Identity
    }
}

impl<V> Smoother<V> for Identity {
    open spec fn behaviour(&self) -> Behaviour<V, Windowed<V>> {
        identity_behaviour()
    }

    open spec fn fresh(&self) -> Behaviour<V, Windowed<V>> {
        identity_behaviour()
    }

    fn push(&mut self, w: Windowed<V>) -> (out: Result<Windowed<V>, WinditError>)
        ensures
            out == Ok::<Windowed<V>, WinditError>(w),
    {
        proof {
            behaviour::behaviours_agree(
                behaviour::after(identity_behaviour::<V>(), w),
                identity_behaviour::<V>(),
            );
        }
        Ok(w)
    }

    fn reset(&mut self) {
        assert(<Identity as Smoother<V>>::behaviour(self) == <Identity as Smoother<V>>::fresh(self));
    }
}

/// The identity smoother hands every window on as it is, whatever came before.
pub proof fn identity_changes_nothing<V>(
    smoother: Identity,
    fed: Seq<Windowed<V>>,
    w: Windowed<V>,
)
    ensures
        Smoother::<V>::behaviour(&smoother)(fed, w) == Ok::<Windowed<V>, WinditError>(w),
        Smoother::<V>::fresh(&smoother)(fed, w) == Ok::<Windowed<V>, WinditError>(w),
{
}

} // verus!
