use windit::binary::Binary32;
use windit::plan::Span;
use windit::segment::{
    Dwell, Gate, GatePolicy, Hangover, Hysteresis, Range, SegmentOptions, Threshold, Vote,
};
use windit::windowed::Windowed;
use windit::WinditError;

fn value(x: f32) -> Binary32 {
    Binary32::from_bits(x.to_bits())
}

/// A score of one or zero on the window `[start, start + len)`.
fn window(active: bool, start: usize, len: usize) -> Windowed<Binary32> {
    Windowed::new(value(if active { 1.0 } else { 0.0 }), Span::new(start, len, len))
}

/// The answers of a gate to a sequence of flags on unit windows.
fn answers<P: GatePolicy<Binary32>>(policy: &P, flags: &[u8]) -> Vec<u8> {
    let mut gate = policy.gate();
    flags
        .iter()
        .enumerate()
        .map(|(i, &f)| u8::from(gate.push(&window(f == 1, i, 1)).unwrap()))
        .collect()
}

fn half() -> Threshold {
    Threshold::new(value(0.5))
}

#[test]
fn vote_counts_the_last_windows() {
    let vote = Vote::new(2, 3, value(0.5));
    assert_eq!(answers(&vote, &[1, 0, 1, 0, 0, 1, 1, 1]), [0, 0, 1, 0, 0, 0, 1, 1]);
    assert_eq!((vote.need(), vote.of(), vote.thr()), (2, 3, value(0.5)));
}

#[test]
fn vote_of_one_is_the_threshold() {
    let vote = Vote::new(1, 1, value(0.5));
    let flags = [1, 0, 0, 1, 1, 0];
    assert_eq!(answers(&vote, &flags), flags);
}

#[test]
fn vote_over_the_whole_word_remembers_every_window() {
    let vote = Vote::new(64, 64, value(0.5));
    let mut flags = vec![1u8; 70];
    flags[3] = 0;
    let got = answers(&vote, &flags);
    for (i, &g) in got.iter().enumerate() {
        assert_eq!(g == 1, i >= 67, "at window {i}");
    }
}

#[test]
fn vote_counts_are_validated() {
    for (need, of) in [(0, 3), (4, 3), (0, 0), (1, 65), (65, 65)] {
        assert_eq!(
            Vote::try_new(need, of, value(0.5)).err(),
            Some(WinditError::InvalidVote { need, of })
        );
    }
    for (need, of) in [(1, 1), (1, 64), (64, 64), (3, 5)] {
        assert!(Vote::try_new(need, of, value(0.5)).is_ok());
    }
}

#[test]
fn vote_compares_as_the_threshold_does() {
    let span = Span::new(0, 1, 1);
    for (thr, x, want) in [
        (0.5, f32::NAN, false),
        (f32::NAN, 1.0, false),
        (f32::NEG_INFINITY, f32::MIN, true),
        (f32::NEG_INFINITY, f32::NAN, false),
        (f32::INFINITY, f32::MAX, false),
        (f32::INFINITY, f32::INFINITY, true),
        (0.0, -0.0, true),
    ] {
        let mut gate = Vote::new(1, 1, value(thr)).gate();
        assert_eq!(gate.push(&Windowed::new(value(x), span)), Ok(want), "{x} >= {thr}");
    }
}

#[test]
fn vote_forgets_on_reset_and_on_discontinuity() {
    let mut gate = Vote::new(2, 2, value(0.5)).gate();
    assert_eq!(gate.push(&window(true, 0, 1)), Ok(false));
    gate.reset();
    assert_eq!(gate.push(&window(true, 1, 1)), Ok(false));
    assert_eq!(gate.push(&window(true, 2, 1)), Ok(true));
    gate.discontinuity();
    assert_eq!(gate.push(&window(true, 0, 1)), Ok(false));
}

#[test]
fn dwell_confirms_at_its_distance() {
    let dwell = Dwell::new(half(), 3);
    assert_eq!(answers(&dwell, &[1, 1, 1, 1, 0, 1, 1, 0, 1, 1, 1]), [0, 0, 1, 1, 0, 0, 0, 0, 0, 0, 1]);
    assert_eq!(dwell.confirm(), 3);
    assert_eq!(dwell.inner().thr(), value(0.5));
}

#[test]
fn dwell_of_zero_passes_everything() {
    let flags = [1, 0, 1, 1, 0, 0, 1];
    assert_eq!(answers(&Dwell::new(half(), 0), &flags), flags);
    // A distance within the first window suppresses nothing either.
    assert_eq!(answers(&Dwell::new(half(), 1), &flags), flags);
}

#[test]
fn dwell_of_the_largest_distance_never_confirms() {
    let mut gate = Dwell::new(half(), usize::MAX).gate();
    assert_eq!(gate.push(&window(true, 0, 1)), Ok(false));
    assert_eq!(gate.push(&window(true, usize::MAX - 1, 1)), Ok(false));
    let mut gate = Dwell::new(half(), usize::MAX - 1).gate();
    assert_eq!(gate.push(&window(true, 0, 1)), Ok(false));
    assert_eq!(gate.push(&window(true, usize::MAX - 1, 1)), Ok(true));
}

#[test]
fn dwell_is_not_retracted_by_a_nested_window() {
    let mut gate = Dwell::new(half(), 8).gate();
    assert_eq!(gate.push(&window(true, 0, 10)), Ok(true));
    assert_eq!(gate.push(&window(true, 2, 3)), Ok(true));
    assert_eq!(gate.push(&window(false, 3, 1)), Ok(false));
    assert_eq!(gate.push(&window(true, 4, 3)), Ok(false));
}

#[test]
fn dwell_refuses_a_backward_window_and_stays_as_it_was() {
    let mut gate = Dwell::new(half(), 3).gate();
    assert_eq!(gate.push(&window(true, 5, 1)), Ok(false));
    assert_eq!(
        gate.push(&window(true, 4, 1)),
        Err(WinditError::NonMonotonicSpan { prev_start: 5, start: 4 })
    );
    assert_eq!(gate.push(&window(true, 6, 1)), Ok(false));
    assert_eq!(gate.push(&window(true, 7, 1)), Ok(true));
    gate.discontinuity();
    assert_eq!(gate.push(&window(true, 0, 1)), Ok(false));
}

#[test]
fn dwell_trims_the_head_of_a_range() {
    let windows: Vec<Windowed<Binary32>> = (0..8).map(|i| window(i < 6, i, 1)).collect();
    let ranges = Dwell::new(half(), 3).segment(&SegmentOptions::new(), &windows).unwrap();
    assert_eq!(ranges, [Range::new(2, 6)]);
}

#[test]
fn hangover_holds_for_its_distance() {
    let hangover = Hangover::new(half(), 2);
    assert_eq!(answers(&hangover, &[0, 1, 0, 0, 0, 0, 1, 0, 1, 0, 0, 0]), [0, 1, 1, 1, 0, 0, 1, 1, 1, 1, 1, 0]);
    assert_eq!(hangover.hold(), 2);
    assert_eq!(hangover.inner().thr(), value(0.5));
}

#[test]
fn hangover_of_zero_passes_everything() {
    let flags = [0, 1, 0, 1, 1, 0, 0];
    assert_eq!(answers(&Hangover::new(half(), 0), &flags), flags);
}

#[test]
fn hangover_of_the_largest_distance_never_releases() {
    let mut gate = Hangover::new(half(), usize::MAX).gate();
    assert_eq!(gate.push(&window(false, 0, 1)), Ok(false));
    assert_eq!(gate.push(&window(true, 0, 1)), Ok(true));
    assert_eq!(gate.push(&window(false, usize::MAX - 1, 1)), Ok(true));
}

#[test]
fn hangover_keeps_the_farthest_end() {
    let mut gate = Hangover::new(half(), 2).gate();
    assert_eq!(gate.push(&window(true, 0, 10)), Ok(true));
    assert_eq!(gate.push(&window(true, 2, 3)), Ok(true));
    assert_eq!(gate.push(&window(false, 6, 1)), Ok(true));
    assert_eq!(gate.push(&window(false, 11, 1)), Ok(true));
    assert_eq!(gate.push(&window(false, 12, 1)), Ok(false));
}

#[test]
fn hangover_refuses_a_backward_window_and_stays_as_it_was() {
    let mut gate = Hangover::new(half(), 3).gate();
    assert_eq!(gate.push(&window(true, 5, 1)), Ok(true));
    assert_eq!(
        gate.push(&window(true, 4, 1)),
        Err(WinditError::NonMonotonicSpan { prev_start: 5, start: 4 })
    );
    assert_eq!(gate.push(&window(false, 8, 1)), Ok(true));
    assert_eq!(gate.push(&window(false, 9, 1)), Ok(false));
    gate.reset();
    assert_eq!(gate.push(&window(false, 0, 1)), Ok(false));
}

#[test]
fn held_flags_do_not_bridge_uncovered_elements() {
    let windows = [window(true, 0, 2), window(false, 3, 2), window(false, 20, 2)];
    let ranges = Hangover::new(half(), 4).segment(&SegmentOptions::new(), &windows).unwrap();
    assert_eq!(ranges, [Range::new(0, 2), Range::new(3, 5)]);
}

#[test]
fn combinators_nest_and_box() {
    let policy = Hangover::new(Dwell::new(half(), 2), 1);
    assert_eq!(answers(&policy, &[1, 1, 0, 0, 1, 0]), [0, 1, 1, 0, 0, 0]);
    let mut boxed: Box<dyn Gate<Binary32>> = Box::new(policy.gate());
    assert_eq!(boxed.push(&window(true, 0, 2)), Ok(true));
    boxed.reset();
    assert_eq!(boxed.push(&window(false, 0, 2)), Ok(false));
    // The outer stage refuses first, so the inner one is not advanced.
    let mut gate = Dwell::new(Hangover::new(half(), 1), 1).gate();
    assert_eq!(gate.push(&window(true, 3, 1)), Ok(true));
    assert_eq!(
        gate.push(&window(true, 2, 1)),
        Err(WinditError::NonMonotonicSpan { prev_start: 3, start: 2 })
    );
}

#[test]
fn a_hysteresis_step_latches_between_its_thresholds() {
    let gate = Hysteresis::new(value(0.7), value(0.3));
    for (active, x, want) in [
        (false, 0.7, true),
        (false, 0.69, false),
        (true, 0.3, true),
        (true, 0.29, false),
        (true, f32::NAN, true),
        (false, f32::NAN, false),
    ] {
        assert_eq!(gate.step(active, value(x)), want, "from {active} at {x}");
    }
}

#[test]
fn infinities_at_the_latch() {
    let (inf, nan) = (f32::INFINITY, f32::NAN);
    // The thresholds, a score, and whether the latch is on before it and after it.
    for (on, off, score, before, after) in [
        (0.7, 0.3, inf, false, true),
        (inf, 0.3, inf, false, true),
        (nan, 0.3, inf, false, false),
        (0.7, 0.3, -inf, true, false),
        (-inf, 0.3, -inf, false, true),
        (0.7, -inf, -inf, true, true),
        (0.7, nan, -inf, true, true),
    ] {
        let mut gate = Hysteresis::new(value(on), value(off)).gate();
        if before {
            assert_eq!(gate.push(&Windowed::new(value(inf), Span::new(0, 1, 1))), Ok(true));
        }
        let got = gate.push(&Windowed::new(value(score), Span::new(1, 1, 1)));
        assert_eq!(got, Ok(after), "on {on}, off {off}, score {score}");
    }
}

#[test]
fn a_dwell_no_longer_than_the_windows_suppresses_nothing() {
    let mut gate = Dwell::new(half(), 4).gate();
    for (i, active) in [true, true, false, true, false, false, true].into_iter().enumerate() {
        assert_eq!(gate.push(&window(active, 2 * i, 4)), Ok(active));
    }
    // One element more, and the head of every run is suppressed.
    let mut gate = Dwell::new(half(), 5).gate();
    assert_eq!(gate.push(&window(true, 0, 4)), Ok(false));
    assert_eq!(gate.push(&window(true, 2, 4)), Ok(true));
}

#[test]
fn a_hangover_of_one_holds_a_touching_window() {
    let mut gate = Hangover::new(half(), 1).gate();
    assert_eq!(gate.push(&window(true, 0, 4)), Ok(true));
    assert_eq!(gate.push(&window(false, 2, 4)), Ok(true));
    assert_eq!(gate.push(&window(false, 4, 4)), Ok(true));
    assert_eq!(gate.push(&window(false, 5, 4)), Ok(false));
}

/// Windows of varied placement in span order, with the flags of the inner gate.
fn varied() -> Vec<(bool, usize, usize)> {
    vec![
        (true, 0, 3),
        (true, 1, 9),
        (true, 4, 2),
        (false, 12, 1),
        (true, 13, 2),
        (true, 14, 1),
        (false, 15, 4),
        (false, 17, 1),
        (true, 30, 5),
        (true, 30, 1),
        (false, 36, 1),
        (false, 50, 2),
    ]
}

#[test]
fn dwell_answers_in_closed_form() {
    let seq = varied();
    for confirm in [0, 1, 2, 3, 4, 5, 9, 10, 11, usize::MAX] {
        let mut gate = Dwell::new(half(), confirm).gate();
        for n in 0..seq.len() {
            let (active, start, len) = seq[n];
            let got = gate.push(&window(active, start, len)).unwrap();
            let first = (0..=n).rev().take_while(|&i| seq[i].0).last();
            let want = match first {
                Some(k) => {
                    let end = (k..=n).map(|i| seq[i].1 + seq[i].2).max().unwrap();
                    confirm != usize::MAX && end - seq[k].1 >= confirm
                }
                None => false,
            };
            assert_eq!(got, want, "confirm {confirm} at window {n}");
        }
    }
}

#[test]
fn hangover_answers_in_closed_form() {
    let seq = varied();
    for hold in [0, 1, 2, 3, 5, 8, 20, usize::MAX] {
        let mut gate = Hangover::new(half(), hold).gate();
        for n in 0..seq.len() {
            let (active, start, len) = seq[n];
            let got = gate.push(&window(active, start, len)).unwrap();
            let end = (0..n).filter(|&i| seq[i].0).map(|i| seq[i].1 + seq[i].2).max();
            let held = end.is_some_and(|end| start.saturating_sub(end) < hold);
            assert_eq!(got, active || held, "hold {hold} at window {n}");
        }
    }
}

#[test]
fn combinators_hand_a_break_on_as_a_break() {
    #[derive(Clone, Copy, Debug, PartialEq)]
    struct Counter {
        resets: usize,
        breaks: usize,
    }
    impl Gate<Binary32> for Counter {
        fn push(&mut self, w: &Windowed<Binary32>) -> Result<bool, WinditError> {
            Ok(w.span().start() % 2 == self.breaks % 2)
        }
        fn reset(&mut self) {
            self.resets += 1;
        }
        fn discontinuity(&mut self) {
            self.breaks += 1;
        }
    }
    impl GatePolicy<Binary32> for Counter {
        type Gate = Counter;
        fn gate(&self) -> Counter {
            *self
        }
    }
    let fresh = Counter { resets: 0, breaks: 0 };
    // The inner gate answers even starts before a break and odd ones after it; a reset
    // changes nothing.
    let mut dwell = Dwell::new(fresh, 0).gate();
    let mut hangover = Hangover::new(fresh, 0).gate();
    let mut boxed: Box<dyn Gate<Binary32>> = Box::new(fresh);
    let gates: [&mut dyn Gate<Binary32>; 3] = [&mut dwell, &mut hangover, &mut boxed];
    for gate in gates {
        assert_eq!(gate.push(&window(true, 4, 1)), Ok(true));
        assert_eq!(gate.push(&window(true, 5, 1)), Ok(false));
        gate.reset();
        assert_eq!(gate.push(&window(true, 4, 1)), Ok(true));
        gate.discontinuity();
        assert_eq!(gate.push(&window(true, 3, 1)), Ok(true));
        assert_eq!(gate.push(&window(true, 4, 1)), Ok(false));
    }
}

#[test]
fn configurations_compare_their_cutoffs_as_numbers() {
    assert_eq!(Threshold::new(value(0.0)), Threshold::new(value(-0.0)));
    assert_ne!(Threshold::new(value(f32::NAN)), Threshold::new(value(f32::NAN)));
    assert_eq!(
        Hysteresis::new(value(1.0), value(0.0)),
        Hysteresis::new(value(1.0), value(-0.0))
    );
    assert_eq!(Vote::new(1, 2, value(0.0)), Vote::new(1, 2, value(-0.0)));
    assert_ne!(Vote::new(1, 2, value(f32::NAN)), Vote::new(1, 2, value(f32::NAN)));
    assert_eq!(
        Dwell::new(Threshold::new(value(0.0)), 3).gate(),
        Dwell::new(Threshold::new(value(-0.0)), 3).gate()
    );
}

#[test]
fn a_refused_backward_span_changes_no_field() {
    let mut dwell = Dwell::new(half(), 4).gate();
    let mut hangover = Hangover::new(half(), 4).gate();
    for (active, start) in [(false, 2), (true, 5), (true, 7)] {
        dwell.push(&window(active, start, 2)).unwrap();
        hangover.push(&window(active, start, 2)).unwrap();
    }
    let (dwell_before, hangover_before) = (dwell, hangover);
    let refusal = Err(WinditError::NonMonotonicSpan { prev_start: 7, start: 6 });
    assert_eq!(dwell.push(&window(false, 6, 9)), refusal);
    assert_eq!(hangover.push(&window(true, 6, 9)), refusal);
    assert_eq!(dwell, dwell_before);
    assert_eq!(hangover, hangover_before);
}

#[test]
fn the_constructors_of_ranges_and_votes_agree() {
    for (start, end) in [(0, 0), (3, 9), (0, usize::MAX)] {
        assert_eq!(Range::try_new(start, end), Ok(Range::new(start, end)));
    }
    for (need, of) in [(1, 1), (1, 64), (64, 64), (3, 5)] {
        assert_eq!(
            Vote::try_new(need, of, value(0.5)),
            Ok(Vote::new(need, of, value(0.5)))
        );
    }
}
