//! The exponential moving average policy.
//!
//! Its weights are a ladder of products, so they carry an error that the fold cannot know
//! of. The policy states a bound on that error, and the threshold of the fold is raised by
//! it.
use vstd::prelude::*;

use crate::aggregate::domain::{check_inputs, vectors};
use crate::aggregate::fold::{self, try_zeroed, weighted_sum_renorm, Weighting};
use crate::aggregate::norm::{self, equals, l2_norm};
use crate::aggregate::policy::AggregatePolicy;
use crate::arith;
use crate::binary::{Binary32, Binary64};
use crate::error::WinditError;
use crate::scalar::{equal_values, Real};

verus! {

/// Exponential moving average across the window sequence, then L2 renormalization.
///
/// The state advances `s_i = alpha * e_i + (1 - alpha) * s_{i-1}` from `s_0 = e_0`, so
/// later windows weigh more. Coverages are ignored beyond the check of the input. An
/// `alpha` outside of `[0, 1]` is reported where it is used, as
/// [`WinditError::AlphaOutOfRange`].
#[derive(Debug, PartialEq)]
pub struct EmaRenormalized<C: Real = Binary64> {
    alpha: C,
}

impl<C: Real> Clone for EmaRenormalized<C> {
    fn clone(&self) -> (r: Self)
        ensures
            r == *self,
    {
        *self
    }
}

impl<C: Real> Copy for EmaRenormalized<C> {

}

/// The `k`-th power of the complement, by repeated multiplication.
pub open spec fn power<C: Real>(complement: C, k: nat) -> C
    decreases k,
{
    if k == 0 {
        C::spec_one()
    } else {
        power(complement, (k - 1) as nat).spec_times(complement)
    }
}

/// The weights of an exponential moving average over `n` windows: the oldest has the bare
/// power of the complement, every other one that power times `alpha`.
pub open spec fn ladder<C: Real>(alpha: C, n: nat) -> Seq<C> {
    let complement = C::spec_one().spec_minus(alpha);
    Seq::new(
        n,
        |i: int|
            if i == 0 {
                power(complement, (n - 1) as nat)
            } else {
                alpha.spec_times(power(complement, (n - 1 - i) as nat))
            },
    )
}

/// The binary32 value one half.
pub open spec fn half() -> Binary32 {
    Binary32 { bits: 0x3f00_0000 }
}

/// The binary64 value two.
pub open spec fn two() -> Binary64 {
    Binary64 { bits: 0x4000_0000_0000_0000 }
}

/// Whether the ladder is exact as long as it stays in range: from one half on, with a
/// complement that is a power of two.
pub open spec fn exact_chain<C: Real>(alpha: C, complement: C) -> bool {
    alpha.spec_at_least(C::spec_from_f32(half())) && equal_values(
        C::spec_one().spec_ldexp(complement.spec_exponent()),
        complement,
    )
}

/// A bound on the number of roundings, `2k + 2`, in a weight that `k` windows follow.
pub open spec fn roundings(k: nat) -> Binary64 {
    two().times(arith::signed(false, arith::nearest(k * vstd::arithmetic::power2::pow2(1074), 1)))
        .plus(two())
}

/// The smallest positive value.
pub open spec fn grid<C: Real>() -> C {
    C::spec_min_normal().spec_times(C::spec_epsilon())
}

/// The absolute part of the error of a weight below the normal range. The chain's own
/// roundings are damped by the decay of the ladder; the oldest window has no last
/// multiplication by `alpha`, which would damp them further and round once more.
pub open spec fn absolute_error<C: Real>(alpha: C, complement: C, oldest: bool) -> C {
    if complement.spec_below(C::spec_one()) {
        let damping = C::spec_one().spec_over(C::spec_one().spec_minus(complement));
        if oldest {
            damping.spec_times(grid())
        } else {
            C::spec_one().spec_plus(alpha.spec_times(damping)).spec_times(grid())
        }
    } else {
        C::spec_zero()
    }
}

/// The bound on the error of the weight `w` of window `i` out of `n`.
pub open spec fn weight_error<C: Real>(alpha: C, complement: C, w: C, i: nat, n: nat) -> C {
    let relative = if exact_chain(alpha, complement) {
        C::spec_zero()
    } else {
        C::spec_from_f64(roundings((n - 1 - i) as nat)).spec_times(
            C::spec_epsilon(),
        ).spec_times(w)
    };
    if w.spec_below(C::spec_min_normal()) {
        relative.spec_plus(absolute_error(alpha, complement, i == 0))
    } else {
        relative
    }
}

/// The bound on the error of the first `i` weights, each against the norm of its window.
pub open spec fn slack_of<C: Real>(
    weights: Seq<C>,
    embeddings: Seq<Seq<C>>,
    alpha: C,
    complement: C,
    i: nat,
) -> C
    decreases i,
{
    if i == 0 {
        C::spec_zero()
    } else {
        let rest = slack_of(weights, embeddings, alpha, complement, (i - 1) as nat);
        let error = weight_error(
            alpha,
            complement,
            weights[i - 1],
            (i - 1) as nat,
            weights.len(),
        );
        if C::spec_zero().spec_below(error) {
            rest.spec_plus(error.spec_times(norm::norm(embeddings[i - 1])))
        } else {
            rest
        }
    }
}

/// What the policy owes the threshold for the formation of its weights: nothing where
/// every weight is exact, which it is at both ends of the range of `alpha`.
pub open spec fn formation_slack<C: Real>(
    weights: Seq<C>,
    embeddings: Seq<Seq<C>>,
    alpha: C,
    complement: C,
) -> C {
    if equal_values(complement, C::spec_zero()) || equal_values(alpha, C::spec_zero()) {
        C::spec_zero()
    } else {
        slack_of(weights, embeddings, alpha, complement, weights.len())
    }
}

/// Whether the smoothing factor is between zero and one.
pub open spec fn alpha_in_range<C: Real>(alpha: C) -> bool {
    alpha.spec_at_least(C::spec_zero()) && C::spec_one().spec_at_least(alpha)
}

impl<C: Real> EmaRenormalized<C> {
    /// The smoothing factor.
    pub closed spec fn spec_alpha(&self) -> C {
        self.alpha
    }

    /// An EMA aggregation with the given smoothing factor.
    #[must_use]
    pub fn new(alpha: C) -> (r: Self)
        ensures
            r.alpha() == alpha,
    {
        EmaRenormalized { alpha }
    }

    /// The smoothing factor: larger values track recent windows more.
    #[must_use]
    #[verifier::when_used_as_spec(spec_alpha)]
    pub fn alpha(&self) -> (r: C)
        ensures
            r == self.alpha(),
    {
        self.alpha
    }
}

/// The bound on the error of one weight.
fn formation_error<C: Real>(
    w: C,
    i: usize,
    n: usize,
    exact: bool,
    absolute: C,
    absolute_oldest: C,
    Ghost(alpha): Ghost<C>,
    Ghost(b): Ghost<C>,
) -> (r: C)
    requires
        i < n,
        exact == exact_chain(alpha, b),
        absolute == absolute_error(alpha, b, false),
        absolute_oldest == absolute_error(alpha, b, true),
    ensures
        r == weight_error(alpha, b, w, i as nat, n as nat),
{
    let relative: C = if exact {
        C::zero()
    } else {
        let two: Binary64 = Binary64 { bits: 0x4000_0000_0000_0000 };
        let count: Binary64 = two.times(Binary64::from_u64((n - 1 - i) as u64)).plus(two);
        C::from_f64(count).times(C::epsilon()).times(w)
    };
    if w.below(C::min_normal()) {
        if i == 0 {
            relative.plus(absolute_oldest)
        } else {
            relative.plus(absolute)
        }
    } else {
        relative
    }
}

/// The term that [`EmaRenormalized`] owes the threshold for the weights that it could not
/// form exactly: the sum over the windows of a bound on the error of the weight, times
/// the norm of the window.
pub fn ema_formation_slack<C: Real>(weights: &[C], embeddings: &[&[C]], alpha: C, b: C) -> (r: C)
    requires
        weights@.len() == embeddings@.len(),
    ensures
        r == formation_slack(weights@, vectors(embeddings@), alpha, b),
{
    if equals(b, C::zero()) || equals(alpha, C::zero()) {
        return C::zero();
    }
    let ghost embs = vectors(embeddings@);
    let n: usize = weights.len();
    let exact = alpha.at_least(C::from_f32(Binary32 { bits: 0x3f00_0000 })) && equals(
        C::one().ldexp(b.exponent()),
        b,
    );
    let (absolute, absolute_oldest): (C, C) = if b.below(C::one()) {
        let damping: C = C::one().over(C::one().minus(b));
        let grid: C = C::min_normal().times(C::epsilon());
        (C::one().plus(alpha.times(damping)).times(grid), damping.times(grid))
    } else {
        (C::zero(), C::zero())
    };
    let mut slack: C = C::zero();
    let mut i: usize = 0;
    while i < n
        invariant
            i <= n == weights@.len() == embeddings@.len(),
            embs == vectors(embeddings@),
            exact == exact_chain(alpha, b),
            absolute == absolute_error(alpha, b, false),
            absolute_oldest == absolute_error(alpha, b, true),
            slack == slack_of(weights@, embs, alpha, b, i as nat),
        decreases n - i,
    {
        let w: C = weights[i];
        let error: C = formation_error(
            w,
            i,
            n,
            exact,
            absolute,
            absolute_oldest,
            Ghost(alpha),
            Ghost(b),
        );
        if C::zero().below(error) {
            let emb: &[C] = embeddings[i];
            assert(embs[i as int] == emb@);
            slack = slack.plus(error.times(l2_norm(emb)));
        }
        i = i + 1;
    }
    slack
}

/// Fill in the weights of an exponential moving average, one for each element.
pub fn fill_ladder<C: Real>(weights: &mut Vec<C>, alpha: C)
    ensures
        final(weights)@ == ladder(alpha, old(weights)@.len()),
{
    let complement: C = C::one().minus(alpha);
    let n: usize = weights.len();
    if n > 0 {
        // One backward pass; the oldest window gets the bare power.
        let mut current: C = C::one();
        let mut i: usize = n - 1;
        while i > 0
            invariant
                i < n,
                weights@.len() == n,
                complement == C::spec_one().spec_minus(alpha),
                current == power(complement, (n - 1 - i) as nat),
                forall|j: int| i < j < n ==> #[trigger] weights@[j] == ladder(alpha, n as nat)[j],
            decreases i,
        {
            let w: C = alpha.times(current);
            weights.set(i, w);
            current = current.times(complement);
            i = i - 1;
        }
        weights.set(0, current);
    }
    assert(weights@ =~= ladder(alpha, n as nat));
}

impl<C: Real> AggregatePolicy<C> for EmaRenormalized<C> {
    open spec fn aggregates(
        &self,
        embeddings: Seq<Seq<C>>,
        coverages: Seq<Binary64>,
        dim: usize,
        r: Result<Vec<C>, WinditError>,
    ) -> bool {
        if !alpha_in_range(self.alpha()) {
            r == Err::<Vec<C>, WinditError>(WinditError::AlphaOutOfRange)
        } else {
            let complement = C::spec_one().spec_minus(self.alpha());
            let weights = ladder(self.alpha(), embeddings.len());
            ||| fold::is_fold(
                weights,
                embeddings,
                coverages,
                dim,
                formation_slack(weights, embeddings, self.alpha(), complement),
                r,
            )
            ||| embeddings.len() > 0 && r == Err::<Vec<C>, WinditError>(
                WinditError::AllocFailed { elements: embeddings.len() as usize },
            )
        }
    }

    fn aggregate_values(
        &self,
        embeddings: &[&[C]],
        coverages: &[Binary64],
        dim: usize,
    ) -> (r: Result<Vec<C>, WinditError>) {
        let alpha: C = self.alpha;
        if !(alpha.at_least(C::zero()) && C::one().at_least(alpha)) {
            return Err(WinditError::AlphaOutOfRange);
        }
        let complement: C = C::one().minus(alpha);
        let n: usize = embeddings.len();
        let mut weights: Vec<C> = match try_zeroed(n) {
            Ok(v) => v,
            Err(e) => {
                return Err(e);
            },
        };
        fill_ladder(&mut weights, alpha);
        match check_inputs(embeddings, coverages, dim) {
            Ok(()) => {},
            Err(e) => {
                return Err(e);
            },
        }
        let slack: C = ema_formation_slack(weights.as_slice(), embeddings, alpha, complement);
        let weighting: Weighting<C> = Weighting::Given(weights.as_slice());
        proof {
            assert(weighting.weights(n as nat) =~= weights@);
        }
        weighted_sum_renorm(embeddings, coverages, dim, weighting, slack)
    }
}

} // verus!
