//! The N-of-M voting gate.
use vstd::prelude::*;

use crate::behaviour;
use crate::behaviour::Behaviour;
use crate::binary::Binary32;
use crate::error::WinditError;
use crate::segment::gate::{Gate, GatePolicy};
use crate::windowed::Windowed;

verus! {

/// The number of true votes.
pub open spec fn count_true(votes: Seq<bool>) -> nat
    decreases votes.len(),
{
    if votes.len() == 0 {
        0
    } else {
        count_true(votes.drop_last()) + if votes.last() {
            1nat
        } else {
            0nat
        }
    }
}

/// N-of-M voting gate: active once at least `need` of the last `of` per-window
/// comparisons `value >= thr` were true.
///
/// A window not yet pushed in the current epoch counts as an inactive vote, so the
/// gate starts inactive and its decision is causal and deterministic from the very
/// first push. The comparison itself is raw IEEE, exactly
/// [`Threshold`](crate::segment::Threshold)'s table. Only the vote *counts* are
/// checked at construction.
#[derive(Clone, Copy, Debug, PartialEq)]
pub struct Vote {
    need: usize,
    of: usize,
    thr: Binary32,
}

/// Whether the counts of a voting gate are valid.
pub open spec fn valid_counts(need: usize, of: usize) -> bool {
    1 <= need <= of <= 64
}

impl Vote {
    /// The invariant of a configuration: its counts are valid.
    #[verifier::type_invariant]
    spec fn inv(self) -> bool {
        valid_counts(self.need(), self.of())
    }

    /// The required-true count.
    pub closed spec fn spec_need(&self) -> usize {
        self.need
    }

    /// The vote window length.
    pub closed spec fn spec_of(&self) -> usize {
        self.of
    }

    /// The cutoff.
    pub closed spec fn spec_thr(&self) -> Binary32 {
        self.thr
    }

    /// A vote gate active once at least `need` of the last `of` comparisons
    /// `value >= thr` are true.
    ///
    /// Use [`try_new`](Vote::try_new) to handle untrusted counts instead.
    #[must_use]
    pub fn new(need: usize, of: usize, thr: Binary32) -> (r: Vote)
        requires
            valid_counts(need, of),
        ensures
            r.need() == need,
            r.of() == of,
            r.thr() == thr,
    {
        Vote { need, of, thr }
    }

    /// The checked counterpart of [`new`](Vote::new): validate the counts.
    ///
    /// Returns [`WinditError::InvalidVote`] unless `1 <= need <= of <= 64`.
    pub fn try_new(need: usize, of: usize, thr: Binary32) -> (r: Result<Vote, WinditError>)
        ensures
            r is Ok <==> valid_counts(need, of),
            r matches Ok(v) ==> v.need() == need && v.of() == of && v.thr() == thr,
            r matches Err(e) ==> e == (WinditError::InvalidVote { need, of }),
    {
        if need >= 1 && need <= of && of <= 64 {
            Ok(Vote { need, of, thr })
        } else {
            Err(WinditError::InvalidVote { need, of })
        }
    }

    /// The required-true count out of the last [`of`](Vote::of) votes.
    #[verifier::when_used_as_spec(spec_need)]
    #[must_use]
    pub fn need(&self) -> (r: usize)
        ensures
            r == self.need(),
            valid_counts(self.need(), self.of()),
    {
        proof {
            use_type_invariant(self);
        }
        self.need
    }

    /// The vote window length: how many recent comparisons are considered.
    #[verifier::when_used_as_spec(spec_of)]
    #[must_use]
    pub fn of(&self) -> (r: usize)
        ensures
            r == self.of(),
            valid_counts(self.need(), self.of()),
    {
        proof {
            use_type_invariant(self);
        }
        self.of
    }

    /// The cutoff each window's value is compared against: a vote is true when
    /// `value >= thr`.
    #[verifier::when_used_as_spec(spec_thr)]
    #[must_use]
    pub fn thr(&self) -> (r: Binary32)
        ensures
            r == self.thr(),
    {
        self.thr
    }
}

/// The two constructors agree: what [`Vote::try_new`] accepts, [`Vote::new`] may be given, and
/// both make the same configuration of it; what it rejects are no valid counts.
pub proof fn vote_constructors_agree(
    need: usize,
    of: usize,
    thr: Binary32,
    checked: Result<Vote, WinditError>,
    vote: Vote,
)
    requires
        call_ensures(Vote::try_new, (need, of, thr), checked),
    ensures
        checked is Ok ==> call_requires(Vote::new, (need, of, thr)),
        checked is Ok && call_ensures(Vote::new, (need, of, thr), vote) ==> checked == Ok::<
            Vote,
            WinditError,
        >(vote),
        checked is Err ==> !valid_counts(need, of),
        checked is Ok <==> 1 <= need && need <= of && of <= 64,
        checked matches Ok(made) ==> made.need() == need && made.of() == of && made.thr() == thr,
{
}

/// The streaming state of a [`Vote`] gate: the cutoff plus a one-machine-word ring
/// buffer of the last 64 votes, all false until the first push.
///
/// The ring holds the newest vote in its lowest bit.
#[derive(Clone, Copy, Debug, PartialEq)]
pub struct VoteState {
    thr: Binary32,
    need: u8,
    of: u8,
    ring: u64,
}

/// The vote `age` pushes ago, zero being the newest.
spec fn ring_vote(ring: u64, age: int) -> bool {
    (ring >> (age as u64)) & 1 == 1
}

impl VoteState {
    /// The invariant of a state: its counts are valid.
    #[verifier::type_invariant]
    spec fn inv(self) -> bool {
        1 <= self.need <= self.of <= 64
    }

    /// The cutoff.
    pub closed spec fn thr(&self) -> Binary32 {
        self.thr
    }

    /// The required-true count.
    pub closed spec fn need(&self) -> nat {
        self.need as nat
    }

    /// The vote window length.
    pub closed spec fn of(&self) -> nat {
        self.of as nat
    }

    /// The last 64 votes, the newest first.
    pub closed spec fn votes(&self) -> Seq<bool> {
        Seq::new(64, |age: int| ring_vote(self.ring, age))
    }

    /// The number of true votes among the newest `of`.
    fn tally(&self) -> (r: u8)
        ensures
            r == count_true(self.votes().take(self.of() as int)),
            1 <= self.of() <= 64,
    {
        proof {
            use_type_invariant(self);
        }
        let mut tally: u8 = 0;
        let mut age: u8 = 0;
        let ghost votes = self.votes();
        assert(votes.take(0).len() == 0);
        while age < self.of
            invariant
                age <= self.of,
                self.of <= 64,
                votes == self.votes(),
                tally <= age,
                tally == count_true(votes.take(age as int)),
            decreases self.of - age,
        {
            proof {
                assert(votes.take(age + 1).drop_last() =~= votes.take(age as int));
                assert(votes.take(age + 1).last() == ring_vote(self.ring, age as int));
            }
            if (self.ring >> (age as u64)) & 1 == 1 {
                tally = tally + 1;
            }
            age = age + 1;
        }
        tally
    }
}

/// Shifting a vote in makes every other one older.
proof fn lemma_ring_shift(ring: u64, vote: u64)
    requires
        vote <= 1,
    ensures
        ring_vote((ring << 1u64) | vote, 0) == (vote == 1),
        forall|age: int|
            1 <= age < 64 ==> #[trigger] ring_vote((ring << 1u64) | vote, age) == ring_vote(
                ring,
                age - 1,
            ),
{
    let shifted = (ring << 1u64) | vote;
    assert((((ring << 1u64) | vote) >> 0u64) & 1 == vote) by (bit_vector)
        requires
            vote <= 1,
    ;
    assert forall|age: int| 1 <= age < 64 implies #[trigger] ring_vote(shifted, age) == ring_vote(
        ring,
        age - 1,
    ) by {
        let a = age as u64;
        let b = (age - 1) as u64;
        assert((((ring << 1u64) | vote) >> a) & 1 == (ring >> b) & 1) by (bit_vector)
            requires
                vote <= 1,
                1 <= a < 64,
                b == a - 1,
        ;
    }
}

/// The votes before any window.
pub open spec fn no_votes() -> Seq<bool> {
    Seq::new(64, |age: int| false)
}

/// The transition of a voting gate: the comparison becomes the newest vote, the
/// oldest is forgotten, and the newest `of` decide.
pub open spec fn vote_step(thr: Binary32, need: nat, of: nat) -> spec_fn(
    Seq<bool>,
    Windowed<Binary32>,
) -> (Seq<bool>, Result<bool, WinditError>) {
    |votes: Seq<bool>, w: Windowed<Binary32>|
        {
            let next = seq![w.value.at_least(thr)] + votes.take(63);
            (next, Ok::<bool, WinditError>(count_true(next.take(of as int)) >= need))
        }
}

impl Gate<Binary32> for VoteState {
    open spec fn behaviour(&self) -> Behaviour<Binary32, bool> {
        behaviour::automaton(vote_step(self.thr(), self.need(), self.of()), self.votes())
    }

    open spec fn fresh(&self) -> Behaviour<Binary32, bool> {
        behaviour::automaton(vote_step(self.thr(), self.need(), self.of()), no_votes())
    }

    fn push(&mut self, w: &Windowed<Binary32>) -> (out: Result<bool, WinditError>)
        ensures
            final(self).thr() == old(self).thr(),
            final(self).need() == old(self).need(),
            final(self).of() == old(self).of(),
            final(self).votes() == seq![w.value.at_least(old(self).thr())] + old(self).votes().take(63),
            out == Ok::<bool, WinditError>(
                count_true(final(self).votes().take(final(self).of() as int)) >= final(self).need(),
            ),
    {
        proof {
            use_type_invariant(&*self);
            behaviour::automaton_steps(
                vote_step(self.thr(), self.need(), self.of()),
                self.votes(),
                *w,
            );
        }
        let vote: u64 = if w.value.at_least(self.thr) {
            1
        } else {
            0
        };
        let ghost before = self.votes();
        proof {
            lemma_ring_shift(self.ring, vote);
        }
        self.ring = (self.ring << 1u64) | vote;
        assert(self.votes() =~= seq![w.value.at_least(self.thr)] + before.take(63));
        let tally: u8 = self.tally();
        assert(self.behaviour() == behaviour::after(old(self).behaviour(), *w));
        assert(self.fresh() == old(self).fresh());
        Ok(tally >= self.need)
    }

    fn reset(&mut self)
        ensures
            final(self).thr() == old(self).thr(),
            final(self).need() == old(self).need(),
            final(self).of() == old(self).of(),
            final(self).votes() == no_votes(),
    {
        proof {
            use_type_invariant(&*self);
            lemma_empty_ring();
        }
        self.ring = 0;
        assert(self.votes() =~= no_votes());
        assert(self.behaviour() == old(self).fresh() && self.fresh() == old(self).fresh());
    }
}

/// An empty ring holds no true votes.
proof fn lemma_empty_ring()
    ensures
        forall|age: int| 0 <= age < 64 ==> !#[trigger] ring_vote(0, age),
{
    assert forall|age: int| 0 <= age < 64 implies !#[trigger] ring_vote(0, age) by {
        let a = age as u64;
        assert((0u64 >> a) & 1 == 0) by (bit_vector);
    }
}

impl GatePolicy<Binary32> for Vote {
    type Gate = VoteState;

    open spec fn behaviour(&self) -> Behaviour<Binary32, bool> {
        behaviour::automaton(
            vote_step(self.thr(), self.need() as nat, self.of() as nat),
            no_votes(),
        )
    }

    fn gate(&self) -> (gate: VoteState)
        ensures
            gate.thr() == self.thr(),
            gate.need() == self.need(),
            gate.of() == self.of(),
            gate.votes() == no_votes(),
    {
        proof {
            use_type_invariant(self);
            lemma_empty_ring();
        }
        let gate = VoteState { thr: self.thr, need: self.need as u8, of: self.of as u8, ring: 0 };
        assert(gate.votes() =~= no_votes());
        assert(gate.behaviour() == self.behaviour() && gate.fresh() == self.behaviour());
        gate
    }
}

/// The comparisons of the last `of` windows, the newest first: `w`, then those fed
/// before it; a window before the first counts as a false vote.
pub open spec fn recent_votes(
    fed: Seq<Windowed<Binary32>>,
    w: Windowed<Binary32>,
    thr: Binary32,
    of: nat,
) -> Seq<bool> {
    let all = fed.push(w);
    Seq::new(
        of,
        |age: int| age < all.len() && all[all.len() - 1 - age].value.at_least(thr),
    )
}

/// A fresh voting gate is active at a window exactly when at least `need` of the last
/// `of` comparisons, that window's included, were true.
pub proof fn vote_counts_recent_windows(
    cfg: Vote,
    fed: Seq<Windowed<Binary32>>,
    w: Windowed<Binary32>,
)
    requires
        valid_counts(cfg.need(), cfg.of()),
    ensures
        cfg.behaviour()(fed, w) == Ok::<bool, WinditError>(
            count_true(recent_votes(fed, w, cfg.thr(), cfg.of() as nat)) >= cfg.need(),
        ),
{
    let step = vote_step(cfg.thr(), cfg.need() as nat, cfg.of() as nat);
    lemma_votes_so_far(cfg, fed);
    let votes = behaviour::run(step, no_votes(), fed);
    let next = seq![w.value.at_least(cfg.thr())] + votes.take(63);
    assert(next.take(cfg.of() as int) =~= recent_votes(fed, w, cfg.thr(), cfg.of() as nat));
    assert(cfg.behaviour()(fed, w) == step(votes, w).1);
}

/// The votes that a gate remembers are those on the last windows.
proof fn lemma_votes_so_far(cfg: Vote, fed: Seq<Windowed<Binary32>>)
    ensures
        ({
            let step = vote_step(cfg.thr(), cfg.need() as nat, cfg.of() as nat);
            behaviour::run(step, no_votes(), fed) == Seq::new(
                64,
                |age: int| age < fed.len() && fed[fed.len() - 1 - age].value.at_least(cfg.thr()),
            )
        }),
    decreases fed.len(),
{
    let step = vote_step(cfg.thr(), cfg.need() as nat, cfg.of() as nat);
    let all = Seq::new(
        64,
        |age: int| age < fed.len() && fed[fed.len() - 1 - age].value.at_least(cfg.thr()),
    );
    if fed.len() > 0 {
        lemma_votes_so_far(cfg, fed.drop_last());
    }
    assert(behaviour::run(step, no_votes(), fed) =~= all);
}

/// Counting the newest comparisons is counting the windows among the last ones that pass.
proof fn lemma_votes_are_windows(all: Seq<Windowed<Binary32>>, thr: Binary32, k: nat)
    ensures
        ({
            let votes = Seq::new(
                k,
                |age: int| age < all.len() && all[all.len() - 1 - age].value.at_least(thr),
            );
            let from = if k <= all.len() {
                all.len() - k
            } else {
                0
            };
            count_true(votes) == all.subrange(from, all.len() as int).filter(
                |v: Windowed<Binary32>| v.value.at_least(thr),
            ).len()
        }),
    decreases k,
{
    let n = all.len();
    let passes = |v: Windowed<Binary32>| v.value.at_least(thr);
    let votes = Seq::new(k, |age: int| age < n && all[n - 1 - age].value.at_least(thr));
    if k == 0 {
        reveal(Seq::filter);
        assert(all.subrange(n as int, n as int).len() == 0);
        assert(all.subrange(n as int, n as int).filter(passes).len() == 0);
    } else {
        let shorter = (k - 1) as nat;
        lemma_votes_are_windows(all, thr, shorter);
        assert(votes.drop_last() =~= Seq::new(
            shorter,
            |age: int| age < n && all[n - 1 - age].value.at_least(thr),
        ));
        if k <= n {
            let first = seq![all[n - k]];
            let rest = all.subrange(n - k + 1, n as int);
            assert(all.subrange(n - k, n as int) =~= first + rest);
            Seq::filter_distributes_over_add(first, rest, passes);
            reveal(Seq::filter);
            assert(first.drop_last() =~= Seq::<Windowed<Binary32>>::empty());
            assert(first.drop_last().filter(passes) =~= Seq::<Windowed<Binary32>>::empty());
            assert(first.filter(passes).len() == if all[n - k].value.at_least(thr) {
                1nat
            } else {
                0nat
            });
            assert(votes.last() == all[n - k].value.at_least(thr));
        } else {
            assert(!votes.last());
        }
    }
}

/// A fresh voting gate is active at a window exactly when, among the last `of` windows up to and
/// including it, at least `need` have a score at or above the cutoff.
pub proof fn vote_counts_passing_windows(
    cfg: Vote,
    fed: Seq<Windowed<Binary32>>,
    w: Windowed<Binary32>,
)
    requires
        valid_counts(cfg.need(), cfg.of()),
    ensures
        ({
            let all = fed.push(w);
            let from = if cfg.of() <= all.len() {
                all.len() - cfg.of()
            } else {
                0
            };
            cfg.behaviour()(fed, w) == Ok::<bool, WinditError>(
                all.subrange(from, all.len() as int).filter(
                    |v: Windowed<Binary32>| v.value.at_least(cfg.thr()),
                ).len() >= cfg.need(),
            )
        }),
{
    vote_counts_recent_windows(cfg, fed, w);
    lemma_votes_are_windows(fed.push(w), cfg.thr(), cfg.of() as nat);
}

} // verus!
