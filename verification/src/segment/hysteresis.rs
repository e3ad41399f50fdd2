//! The latching two-threshold gate.
use vstd::prelude::*;

use crate::behaviour;
use crate::behaviour::Behaviour;
use crate::binary::{binary32_comparisons_compare_values, Binary32};
use crate::error::WinditError;
use crate::segment::gate::{Gate, GatePolicy};
use crate::windowed::Windowed;

verus! {

/// Latching two-threshold gate.
///
/// This gate turns on when a value rises to `on` or above, turns off when a value
/// falls strictly below `off`, and otherwise holds its previous state, so a value
/// exactly at `off` holds rather than turning off. It starts off. Configure
/// `on >= off`; the half-open band `off <= value < on` is the hold region that
/// suppresses chatter. If misconfigured with `on < off`, the turn-on test is
/// evaluated first and wins, so this gate degrades to a single threshold at `on`.
///
/// Comparisons are IEEE, and every comparison with NaN is false, so a NaN score
/// holds the previous state, a NaN `on` can never activate, and a NaN `off` never
/// releases once on.
#[derive(Clone, Copy, Debug, PartialEq)]
pub struct Hysteresis {
    on: Binary32,
    off: Binary32,
}

impl Hysteresis {
    /// The turn-on threshold.
    pub closed spec fn spec_on(&self) -> Binary32 {
        self.on
    }

    /// The turn-off threshold.
    pub closed spec fn spec_off(&self) -> Binary32 {
        self.off
    }

    /// The latch after a value: on at or above `on`, off strictly below `off`, held
    /// otherwise.
    pub open spec fn spec_step(&self, active: bool, value: Binary32) -> bool {
        if value.at_least(self.on()) {
            true
        } else if value.below(self.off()) {
            false
        } else {
            active
        }
    }

    /// A gate that latches on at `>= on` and off at `< off`.
    ///
    /// An `on < off` pair is deliberately not rejected: the single-threshold
    /// behaviour it degrades to is defined and deterministic.
    #[must_use]
    pub fn new(on: Binary32, off: Binary32) -> (r: Hysteresis)
        ensures
            r.on() == on,
            r.off() == off,
    {
        Hysteresis { on, off }
    }

    /// The turn-on threshold: a value `>= on` latches this gate on.
    #[verifier::when_used_as_spec(spec_on)]
    #[must_use]
    pub fn on(&self) -> (r: Binary32)
        ensures
            r == self.on(),
    {
        self.on
    }

    /// The turn-off threshold: a value `< off` latches this gate off; a value
    /// exactly at `off` holds instead.
    #[verifier::when_used_as_spec(spec_off)]
    #[must_use]
    pub fn off(&self) -> (r: Binary32)
        ensures
            r == self.off(),
    {
        self.off
    }

    /// Advance the latch by one value and return the resulting state.
    #[verifier::when_used_as_spec(spec_step)]
    pub fn step(&self, active: bool, value: Binary32) -> (r: bool)
        ensures
            r == self.step(active, value),
    {
        if value.at_least(self.on) {
            true
        } else if value.below(self.off) {
            false
        } else {
            active
        }
    }
}

/// The streaming state of a [`Hysteresis`] gate: the thresholds plus the latch,
/// which starts off.
#[derive(Clone, Copy, Debug, PartialEq)]
pub struct HysteresisState {
    cfg: Hysteresis,
    active: bool,
}

/// The transition of a hysteresis gate: the latch advances by the value, and is the
/// answer.
pub open spec fn hysteresis_step(cfg: Hysteresis) -> spec_fn(bool, Windowed<Binary32>) -> (
    bool,
    Result<bool, WinditError>,
) {
    |active: bool, w: Windowed<Binary32>|
        {
            let next = cfg.step(active, w.value);
            (next, Ok::<bool, WinditError>(next))
        }
}

impl HysteresisState {
    /// The thresholds.
    pub closed spec fn cfg(&self) -> Hysteresis {
        self.cfg
    }

    /// The latch.
    pub closed spec fn active(&self) -> bool {
        self.active
    }
}

impl Gate<Binary32> for HysteresisState {
    open spec fn behaviour(&self) -> Behaviour<Binary32, bool> {
        behaviour::automaton(hysteresis_step(self.cfg()), self.active())
    }

    open spec fn fresh(&self) -> Behaviour<Binary32, bool> {
        behaviour::automaton(hysteresis_step(self.cfg()), false)
    }

    fn push(&mut self, w: &Windowed<Binary32>) -> (out: Result<bool, WinditError>)
        ensures
            final(self).cfg() == old(self).cfg(),
            final(self).active() == old(self).cfg().step(old(self).active(), w.value),
            out == Ok::<bool, WinditError>(final(self).active()),
    {
        proof {
            behaviour::automaton_steps(hysteresis_step(self.cfg), self.active, *w);
        }
        self.active = self.cfg.step(self.active, w.value);
        assert(self.behaviour() == behaviour::after(old(self).behaviour(), *w));
        assert(self.fresh() == old(self).fresh());
        Ok(self.active)
    }

    fn reset(&mut self)
        ensures
            final(self).cfg() == old(self).cfg(),
            !final(self).active(),
    {
        self.active = false;
        assert(self.behaviour() == old(self).fresh() && self.fresh() == old(self).fresh());
    }
}

impl GatePolicy<Binary32> for Hysteresis {
    type Gate = HysteresisState;

    open spec fn behaviour(&self) -> Behaviour<Binary32, bool> {
        behaviour::automaton(hysteresis_step(*self), false)
    }

    fn gate(&self) -> (gate: HysteresisState)
        ensures
            gate.cfg() == *self,
            !gate.active(),
    {
        let gate = HysteresisState { cfg: *self, active: false };
        assert(gate.behaviour() == self.behaviour() && gate.fresh() == self.behaviour());
        gate
    }
}

/// A score that is not a number holds the latch, whatever the thresholds.
pub proof fn nan_holds_the_latch(cfg: Hysteresis, active: bool, value: Binary32)
    requires
        value.is_nan(),
    ensures
        cfg.step(active, value) == active,
{
}

/// With thresholds in the wrong order this gate is a single threshold at `on`, for
/// every score that is a number.
pub proof fn crossed_thresholds_degrade_to_one(cfg: Hysteresis, active: bool, value: Binary32)
    requires
        cfg.on().below(cfg.off()),
        !value.is_nan(),
    ensures
        cfg.step(active, value) == value.at_least(cfg.on()),
{
}

/// A turn-on threshold that is not a number never activates, and a turn-off
/// threshold that is not a number never releases.
pub proof fn nan_thresholds_never_fire(cfg: Hysteresis, value: Binary32)
    ensures
        cfg.on().is_nan() ==> !cfg.step(false, value),
        cfg.off().is_nan() ==> cfg.step(true, value),
{
}

/// The infinities: the positive one activates wherever the turn-on threshold is a number; the
/// negative one activates where that threshold is itself, holds where nothing is below the
/// turn-off threshold, and releases everywhere else.
pub proof fn infinite_values_at_the_latch(cfg: Hysteresis, active: bool)
    ensures
        !cfg.on().is_nan() ==> cfg.step(active, (Binary32 { bits: 0x7f80_0000 })),
        cfg.step(active, (Binary32 { bits: 0xff80_0000 })) == if cfg.on().bits == 0xff80_0000 {
            true
        } else if cfg.off().is_nan() || cfg.off().bits == 0xff80_0000 {
            active
        } else {
            false
        },
{
}

/// What one score does to the latch, as numbers: with the thresholds in order it is on from `on`
/// up, off below `off`, and held in the whole band between them.
pub proof fn the_band_holds_the_latch(cfg: Hysteresis, active: bool, value: Binary32)
    requires
        cfg.on().is_finite(),
        cfg.off().is_finite(),
        value.is_finite(),
        cfg.on().value() >= cfg.off().value(),
    ensures
        value.value() >= cfg.on().value() ==> cfg.step(active, value),
        value.value() < cfg.off().value() ==> !cfg.step(active, value),
        cfg.off().value() <= value.value() < cfg.on().value() ==> cfg.step(active, value)
            == active,
{
    binary32_comparisons_compare_values(value, cfg.on());
    binary32_comparisons_compare_values(value, cfg.off());
}

/// The latch after a run of windows.
proof fn lemma_latch(cfg: Hysteresis, fed: Seq<Windowed<Binary32>>)
    requires
        cfg.on().is_finite(),
        cfg.off().is_finite(),
        forall|i: int| 0 <= i < fed.len() ==> (#[trigger] fed[i]).value.is_finite(),
    ensures
        behaviour::run(hysteresis_step(cfg), false, fed) <==> exists|i: int|
            0 <= i < fed.len() && (#[trigger] fed[i]).value.value() >= cfg.on().value() && forall|
                j: int,
            |
                i < j < fed.len() ==> (#[trigger] fed[j]).value.value() >= cfg.on().value()
                    || fed[j].value.value() >= cfg.off().value(),
    decreases fed.len(),
{
    let step = hysteresis_step(cfg);
    if fed.len() > 0 {
        let (before, w) = (fed.drop_last(), fed.last());
        let last = fed.len() - 1;
        assert(forall|i: int| 0 <= i < before.len() ==> before[i] == fed[i]);
        lemma_latch(cfg, before);
        assert(fed[last] == w);
        binary32_comparisons_compare_values(w.value, cfg.on());
        binary32_comparisons_compare_values(w.value, cfg.off());
        let held = behaviour::run(step, false, before);
        assert(behaviour::run(step, false, fed) == cfg.step(held, w.value));
        if w.value.value() < cfg.on().value() && w.value.value() >= cfg.off().value() && held {
            let i = choose|i: int|
                0 <= i < before.len() && (#[trigger] before[i]).value.value() >= cfg.on().value()
                    && forall|j: int|
                    i < j < before.len() ==> (#[trigger] before[j]).value.value()
                        >= cfg.on().value() || before[j].value.value() >= cfg.off().value();
            assert(fed[i].value.value() >= cfg.on().value());
            assert forall|j: int| i < j < fed.len() implies (#[trigger] fed[j]).value.value()
                >= cfg.on().value() || fed[j].value.value() >= cfg.off().value() by {
                if j < last {
                    assert(before[j] == fed[j]);
                }
            }
        }
        if exists|i: int|
            0 <= i < fed.len() && (#[trigger] fed[i]).value.value() >= cfg.on().value() && forall|
                j: int,
            |
                i < j < fed.len() ==> (#[trigger] fed[j]).value.value() >= cfg.on().value()
                    || fed[j].value.value() >= cfg.off().value() {
            let i = choose|i: int|
                0 <= i < fed.len() && (#[trigger] fed[i]).value.value() >= cfg.on().value()
                    && forall|j: int|
                    i < j < fed.len() ==> (#[trigger] fed[j]).value.value() >= cfg.on().value()
                        || fed[j].value.value() >= cfg.off().value();
            if i < last {
                assert(before[i].value.value() >= cfg.on().value());
                assert forall|j: int| i < j < before.len() implies (
                #[trigger] before[j]).value.value() >= cfg.on().value() || before[j].value.value()
                    >= cfg.off().value() by {
                    assert(before[j] == fed[j]);
                }
                assert(held);
                assert(fed[last].value.value() >= cfg.on().value() || fed[last].value.value()
                    >= cfg.off().value());
            }
        }
    }
}

/// What a fresh hysteresis gate answers, as numbers: it is active exactly where some window has
/// reached `on`, and no window since has fallen below both thresholds.
pub proof fn the_latch_remembers_the_last_crossing(
    cfg: Hysteresis,
    fed: Seq<Windowed<Binary32>>,
    w: Windowed<Binary32>,
)
    requires
        cfg.on().is_finite(),
        cfg.off().is_finite(),
        w.value.is_finite(),
        forall|i: int| 0 <= i < fed.len() ==> (#[trigger] fed[i]).value.is_finite(),
    ensures
        ({
            let all = fed.push(w);
            cfg.behaviour()(fed, w) == Ok::<bool, WinditError>(
                exists|i: int|
                    0 <= i < all.len() && (#[trigger] all[i]).value.value() >= cfg.on().value()
                        && forall|j: int|
                        i < j < all.len() ==> (#[trigger] all[j]).value.value()
                            >= cfg.on().value() || all[j].value.value() >= cfg.off().value(),
            )
        }),
{
    let all = fed.push(w);
    assert(all.drop_last() =~= fed);
    assert forall|i: int| 0 <= i < all.len() implies (#[trigger] all[i]).value.is_finite() by {
        if i < fed.len() {
            assert(all[i] == fed[i]);
        }
    }
    lemma_latch(cfg, all);
    let step = hysteresis_step(cfg);
    assert(behaviour::run(step, false, all) == step(behaviour::run(step, false, fed), w).0);
}

} // verus!
