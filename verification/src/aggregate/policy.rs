//! The policy trait and the policies whose weights need no ladder.
use vstd::prelude::*;

use crate::aggregate::domain::{self, check_inputs, vectors};
use crate::aggregate::fold::{self, try_vec_with_capacity, weighted_sum_renorm, Weighting};
use crate::aggregate::norm::{self, l2_norm, max_magnitude, min_positive_magnitude};
use crate::binary::Binary64;
use crate::error::WinditError;
use crate::scalar::Real;

verus! {

/// A policy that combines a sequence of window embeddings into one embedding.
///
/// The single method operates on plain slices, so the trait is object-safe. Rebuilding an
/// embedding is left to [`aggregate`](crate::aggregate::aggregate).
pub trait AggregatePolicy<C: Real = Binary64> {
    /// Whether `r` is an outcome of the policy. What an implementation outside of verified
    /// code returns is left open.
    open spec fn aggregates(
        &self,
        embeddings: Seq<Seq<C>>,
        coverages: Seq<Binary64>,
        dim: usize,
        r: Result<Vec<C>, WinditError>,
    ) -> bool {
        true
    }

    /// Combine `embeddings`, each of length `dim`, with their matching `coverages` into a
    /// single vector of length `dim`.
    ///
    /// Every component must be finite and either zero or of a magnitude between
    /// [`Real::min_agg_magnitude`] and [`Real::max_agg_magnitude`], and every coverage
    /// between zero and one.
    fn aggregate_values(
        &self,
        embeddings: &[&[C]],
        coverages: &[Binary64],
        dim: usize,
    ) -> (r: Result<Vec<C>, WinditError>)
        ensures
            self.aggregates(vectors(embeddings@), coverages@, dim, r),
    ;
}

/// Coverage-weighted mean, then L2 renormalization (the default strategy).
///
/// Each window contributes in proportion to its coverage, so a padded ragged tail counts
/// less than a full window. The weights are the coverages divided by the largest of them,
/// so only the ratios between coverages carry any information; the whole slice is first
/// lifted by one power of two where a ratio would otherwise not be rounded relatively.
#[derive(Clone, Copy, Debug, PartialEq, Eq, Structural)]
pub struct CoverageWeightedMean;

/// Uniform (unweighted) mean, then L2 renormalization.
///
/// Every window contributes equally regardless of coverage.
#[derive(Clone, Copy, Debug, PartialEq, Eq, Structural)]
pub struct MeanRenormalized;

/// L2-norm-weighted mean, then renormalization: inputs of a higher magnitude dominate.
///
/// Coverages are ignored beyond the check of the input.
#[derive(Clone, Copy, Debug, PartialEq, Eq, Structural)]
pub struct SaliencyWeighted;

impl Default for CoverageWeightedMean {
    fn default() -> (r: Self)
        ensures
            r == CoverageWeightedMean,
    {
        CoverageWeightedMean
    }
}

impl Default for MeanRenormalized {
    fn default() -> (r: Self)
        ensures
            r == MeanRenormalized,
    {
        MeanRenormalized
    }
}

impl Default for SaliencyWeighted {
    fn default() -> (r: Self)
        ensures
            r == SaliencyWeighted,
    {
        SaliencyWeighted
    }
}

/// The binary exponent of the smallest positive normal value, `2^-1022`.
pub const MIN_NORMAL_EXPONENT: i32 = -1022;

/// The exponent of the common power of two that a coverage slice is lifted by: zero
/// unless the smallest weight would be below the normal range, and then what brings it
/// into that range with one bit to spare.
pub open spec fn lift(coverages: Seq<Binary64>, largest: Binary64) -> i32 {
    if (Binary64 { bits: 0 }).below(largest) && largest.is_finite() {
        let e = norm::smallest(coverages).over(largest).exponent();
        if e < MIN_NORMAL_EXPONENT {
            (MIN_NORMAL_EXPONENT + 1 - e) as i32
        } else {
            0
        }
    } else {
        0
    }
}

/// The weights of a coverage-weighted mean.
pub open spec fn coverage_weights<C: Real>(coverages: Seq<Binary64>) -> Seq<C> {
    let largest = norm::largest(coverages);
    Seq::new(
        coverages.len(),
        |i: int| fold::coverage_weight(coverages[i], largest, lift(coverages, largest)),
    )
}

/// The weights of a mean over `n` windows.
pub open spec fn uniform_weights<C: Real>(n: nat) -> Seq<C> {
    Seq::new(n, |i: int| C::spec_one())
}

/// The weights of a saliency-weighted mean.
pub open spec fn saliency_weights<C: Real>(embeddings: Seq<Seq<C>>) -> Seq<C> {
    Seq::new(embeddings.len(), |i: int| norm::norm(embeddings[i]))
}

/// The exponent of the common power of two that a coverage slice is lifted by before it is
/// divided by its largest entry, so that no weight is formed below the normal range.
pub fn normalizing_shift(coverages: &[Binary64], largest: Binary64) -> (r: i32)
    ensures
        r == lift(coverages@, largest),
        0 <= r <= 53,
{
    if !((Binary64 { bits: 0 }).below(largest) && largest.is_finite()) {
        return 0;
    }
    let smallest: Binary64 = min_positive_magnitude(coverages);
    let smallest_weight: i32 = smallest.over(largest).exponent();
    if smallest_weight < MIN_NORMAL_EXPONENT {
        MIN_NORMAL_EXPONENT + 1 - smallest_weight
    } else {
        0
    }
}

/// Append the norm of every window.
pub fn push_norms<C: Real>(weights: &mut Vec<C>, embeddings: &[&[C]])
    ensures
        final(weights)@ == old(weights)@ + saliency_weights(vectors(embeddings@)),
{
    let ghost embs = vectors(embeddings@);
    let ghost before = weights@;
    let mut i: usize = 0;
    assert(before + saliency_weights(embs).take(0) =~= before);
    while i < embeddings.len()
        invariant
            i <= embeddings@.len(),
            embs == vectors(embeddings@),
            weights@ == before + saliency_weights(embs).take(i as int),
        decreases embeddings@.len() - i,
    {
        let emb: &[C] = embeddings[i];
        assert(embs[i as int] == emb@);
        weights.push(l2_norm(emb));
        i = i + 1;
        assert(weights@ =~= before + saliency_weights(embs).take(i as int));
    }
    assert(saliency_weights(embs).take(i as int) =~= saliency_weights(embs));
}

impl<C: Real> AggregatePolicy<C> for CoverageWeightedMean {
    open spec fn aggregates(
        &self,
        embeddings: Seq<Seq<C>>,
        coverages: Seq<Binary64>,
        dim: usize,
        r: Result<Vec<C>, WinditError>,
    ) -> bool {
        fold::is_fold(
            coverage_weights(coverages),
            embeddings,
            coverages,
            dim,
            C::spec_zero(),
            r,
        )
    }

    fn aggregate_values(
        &self,
        embeddings: &[&[C]],
        coverages: &[Binary64],
        dim: usize,
    ) -> (r: Result<Vec<C>, WinditError>) {
        let largest: Binary64 = max_magnitude(coverages);
        let shift: i32 = normalizing_shift(coverages, largest);
        let weighting: Weighting<C> = Weighting::Coverage { coverages, largest, shift };
        proof {
            if coverages@.len() == embeddings@.len() {
                assert(weighting.weights(embeddings@.len()) =~= coverage_weights(coverages@));
            }
        }
        weighted_sum_renorm(embeddings, coverages, dim, weighting, C::zero())
    }
}

impl<C: Real> AggregatePolicy<C> for MeanRenormalized {
    open spec fn aggregates(
        &self,
        embeddings: Seq<Seq<C>>,
        coverages: Seq<Binary64>,
        dim: usize,
        r: Result<Vec<C>, WinditError>,
    ) -> bool {
        fold::is_fold(
            uniform_weights(embeddings.len()),
            embeddings,
            coverages,
            dim,
            C::spec_zero(),
            r,
        )
    }

    fn aggregate_values(
        &self,
        embeddings: &[&[C]],
        coverages: &[Binary64],
        dim: usize,
    ) -> (r: Result<Vec<C>, WinditError>) {
        let weighting: Weighting<C> = Weighting::Uniform;
        proof {
            assert(weighting.weights(embeddings@.len()) =~= uniform_weights(embeddings@.len()));
        }
        weighted_sum_renorm(embeddings, coverages, dim, weighting, C::zero())
    }
}

impl<C: Real> AggregatePolicy<C> for SaliencyWeighted {
    open spec fn aggregates(
        &self,
        embeddings: Seq<Seq<C>>,
        coverages: Seq<Binary64>,
        dim: usize,
        r: Result<Vec<C>, WinditError>,
    ) -> bool {
        ||| fold::is_fold(
            saliency_weights(embeddings),
            embeddings,
            coverages,
            dim,
            C::spec_zero(),
            r,
        )
        ||| {
            &&& domain::input_error(embeddings, coverages, dim) is None
            &&& embeddings.len() > 0
            &&& r == Err::<Vec<C>, WinditError>(
                WinditError::AllocFailed { elements: embeddings.len() as usize },
            )
        }
    }

    fn aggregate_values(
        &self,
        embeddings: &[&[C]],
        coverages: &[Binary64],
        dim: usize,
    ) -> (r: Result<Vec<C>, WinditError>) {
        match check_inputs(embeddings, coverages, dim) {
            Ok(()) => {},
            Err(e) => {
                return Err(e);
            },
        }
        let mut weights: Vec<C> = match try_vec_with_capacity(embeddings.len()) {
            Ok(v) => v,
            Err(e) => {
                return Err(e);
            },
        };
        push_norms(&mut weights, embeddings);
        let weighting: Weighting<C> = Weighting::Given(weights.as_slice());
        proof {
            assert(weighting.weights(embeddings@.len()) =~= saliency_weights(
                vectors(embeddings@),
            ));
        }
        weighted_sum_renorm(embeddings, coverages, dim, weighting, C::zero())
    }
}

} // verus!
