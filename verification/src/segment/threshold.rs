//! The fixed-cutoff gate.
use vstd::prelude::*;

use crate::behaviour;
use crate::behaviour::Behaviour;
use crate::binary::{binary32_comparisons_compare_values, Binary32};
use crate::error::WinditError;
use crate::segment::gate::{Gate, GatePolicy};
use crate::windowed::Windowed;

verus! {

/// Gate where the score is at or above a fixed threshold.
///
/// A window is active when `value >= thr`. The comparison is raw IEEE: a NaN score
/// is never active (even with an infinitely low `thr`); a NaN `thr` accepts
/// nothing; a `thr` of negative infinity accepts every non-NaN score; a `thr` of
/// positive infinity accepts only positive infinity.
#[derive(Clone, Copy, Debug, PartialEq)]
pub struct Threshold {
    thr: Binary32,
}

impl Threshold {
    /// The cutoff.
    pub closed spec fn spec_thr(&self) -> Binary32 {
        self.thr
    }

    /// A gate that accepts values at or above `thr`.
    #[must_use]
    pub fn new(thr: Binary32) -> (r: Threshold)
        ensures
            r.thr() == thr,
    {
        Threshold { thr }
    }

    /// The cutoff at or above which a value is active.
    #[verifier::when_used_as_spec(spec_thr)]
    #[must_use]
    pub fn thr(&self) -> (r: Binary32)
        ensures
            r == self.thr(),
    {
        self.thr
    }
}

/// The streaming state of a [`Threshold`] gate: the immutable cutoff.
#[derive(Clone, Copy, Debug, PartialEq)]
pub struct ThresholdState {
    thr: Binary32,
}

/// What a threshold gate answers: whether the value is at or above the cutoff,
/// whatever came before.
pub open spec fn threshold_behaviour(thr: Binary32) -> Behaviour<Binary32, bool> {
    |fed: Seq<Windowed<Binary32>>, w: Windowed<Binary32>|
        Ok::<bool, WinditError>(w.value.at_least(thr))
}

impl ThresholdState {
    /// The cutoff.
    pub closed spec fn thr(&self) -> Binary32 {
        self.thr
    }
}

impl Gate<Binary32> for ThresholdState {
    open spec fn behaviour(&self) -> Behaviour<Binary32, bool> {
        threshold_behaviour(self.thr())
    }

    open spec fn fresh(&self) -> Behaviour<Binary32, bool> {
        threshold_behaviour(self.thr())
    }

    fn push(&mut self, w: &Windowed<Binary32>) -> (out: Result<bool, WinditError>)
        ensures
            *final(self) == *old(self),
            out == Ok::<bool, WinditError>(w.value.at_least(old(self).thr())),
    {
        proof {
            behaviour::behaviours_agree(
                behaviour::after(self.behaviour(), *w),
                self.behaviour(),
            );
        }
        Ok(w.value.at_least(self.thr))
    }

    fn reset(&mut self)
        ensures
            *final(self) == *old(self),
    {
        assert(self.behaviour() == self.fresh());
    }
}

impl GatePolicy<Binary32> for Threshold {
    type Gate = ThresholdState;

    open spec fn behaviour(&self) -> Behaviour<Binary32, bool> {
        threshold_behaviour(self.thr())
    }

    fn gate(&self) -> (gate: ThresholdState)
        ensures
            gate.thr() == self.thr(),
    {
        let gate = ThresholdState { thr: self.thr };
        assert(gate.behaviour() == self.behaviour() && gate.fresh() == self.behaviour());
        gate
    }
}

/// The bit pattern of negative infinity.
pub const NEGATIVE_INFINITY: u32 = 0xff80_0000;

/// The bit pattern of positive infinity.
pub const POSITIVE_INFINITY: u32 = 0x7f80_0000;

/// The comparison at the edges of the format: not-a-number on either side is never
/// active, a cutoff of negative infinity accepts every number, and a cutoff of
/// positive infinity accepts only positive infinity.
pub proof fn threshold_at_the_edges(value: Binary32, thr: Binary32)
    ensures
        value.is_nan() ==> !value.at_least(thr),
        thr.is_nan() ==> !value.at_least(thr),
        thr.bits == NEGATIVE_INFINITY ==> value.at_least(thr) == !value.is_nan(),
        thr.bits == POSITIVE_INFINITY ==> value.at_least(thr) == (value.bits == POSITIVE_INFINITY),
{
}

/// A threshold gate is active exactly on the windows whose score, as a number, is at least the
/// cutoff, whatever it has been fed before.
pub proof fn threshold_is_active_from_the_cutoff(
    cfg: Threshold,
    fed: Seq<Windowed<Binary32>>,
    w: Windowed<Binary32>,
)
    requires
        cfg.thr().is_finite(),
    ensures
        w.value.is_finite() ==> cfg.behaviour()(fed, w) == Ok::<bool, WinditError>(
            w.value.value() >= cfg.thr().value(),
        ),
        !w.value.is_finite() ==> cfg.behaviour()(fed, w) == Ok::<bool, WinditError>(
            w.value.bits == POSITIVE_INFINITY,
        ),
{
    if w.value.is_finite() {
        binary32_comparisons_compare_values(w.value, cfg.thr());
    }
}

} // verus!
