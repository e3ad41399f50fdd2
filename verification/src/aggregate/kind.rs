//! A selector over the built-in policies.
use vstd::prelude::*;

use crate::aggregate::ema::EmaRenormalized;
use crate::aggregate::policy::{
    AggregatePolicy, CoverageWeightedMean, MeanRenormalized, SaliencyWeighted,
};
use crate::binary::Binary64;
use crate::error::WinditError;
use crate::scalar::Real;

verus! {

/// A selector over the built-in aggregation policies.
///
/// It is read before any embedding is in sight, so its smoothing factor is a plain
/// [`Binary64`].
#[derive(Clone, Copy, Debug, PartialEq)]
pub enum AggregatePolicyKind {
    /// Selects [`CoverageWeightedMean`].
    CoverageWeightedMean,
    /// Selects [`MeanRenormalized`].
    MeanRenormalized,
    /// Selects [`EmaRenormalized`] with the given smoothing factor.
    Ema {
        /// The smoothing factor, widened into the compute domain.
        alpha: Binary64,
    },
    /// Selects [`SaliencyWeighted`].
    SaliencyWeighted,
}

/// One of the built-in policies, in the compute domain `C`.
pub enum BuiltinPolicy<C: Real = Binary64> {
    /// The coverage-weighted mean.
    Coverage(CoverageWeightedMean),
    /// The uniform mean.
    Mean(MeanRenormalized),
    /// The exponential moving average.
    Ema(EmaRenormalized<C>),
    /// The mean weighted by norms.
    Saliency(SaliencyWeighted),
}

impl<C: Real> AggregatePolicy<C> for BuiltinPolicy<C> {
    open spec fn aggregates(
        &self,
        embeddings: Seq<Seq<C>>,
        coverages: Seq<Binary64>,
        dim: usize,
        r: Result<Vec<C>, WinditError>,
    ) -> bool {
        match self {
            BuiltinPolicy::Coverage(policy) => policy.aggregates(embeddings, coverages, dim, r),
            BuiltinPolicy::Mean(policy) => policy.aggregates(embeddings, coverages, dim, r),
            BuiltinPolicy::Ema(policy) => policy.aggregates(embeddings, coverages, dim, r),
            BuiltinPolicy::Saliency(policy) => policy.aggregates(embeddings, coverages, dim, r),
        }
    }

    fn aggregate_values(
        &self,
        embeddings: &[&[C]],
        coverages: &[Binary64],
        dim: usize,
    ) -> (r: Result<Vec<C>, WinditError>) {
        match self {
            BuiltinPolicy::Coverage(policy) => policy.aggregate_values(embeddings, coverages, dim),
            BuiltinPolicy::Mean(policy) => policy.aggregate_values(embeddings, coverages, dim),
            BuiltinPolicy::Ema(policy) => policy.aggregate_values(embeddings, coverages, dim),
            BuiltinPolicy::Saliency(policy) => policy.aggregate_values(embeddings, coverages, dim),
        }
    }
}

impl AggregatePolicyKind {
    /// Build the boxed built-in policy this kind selects, in the compute domain `C`.
    #[must_use]
    pub fn into_policy<C: Real>(self) -> (r: Box<BuiltinPolicy<C>>)
        ensures
            match self {
                AggregatePolicyKind::CoverageWeightedMean => *r is Coverage,
                AggregatePolicyKind::MeanRenormalized => *r is Mean,
                AggregatePolicyKind::Ema { alpha } => *r matches BuiltinPolicy::Ema(policy)
                    && policy.alpha() == C::spec_from_f64(alpha),
                AggregatePolicyKind::SaliencyWeighted => *r is Saliency,
            },
    {
        match self {
            AggregatePolicyKind::CoverageWeightedMean => Box::new(
                BuiltinPolicy::Coverage(CoverageWeightedMean),
            ),
            AggregatePolicyKind::MeanRenormalized => Box::new(
                BuiltinPolicy::Mean(MeanRenormalized),
            ),
            AggregatePolicyKind::Ema { alpha } => Box::new(
                BuiltinPolicy::Ema(EmaRenormalized::new(C::from_f64(alpha))),
            ),
            AggregatePolicyKind::SaliencyWeighted => Box::new(
                BuiltinPolicy::Saliency(SaliencyWeighted),
            ),
        }
    }
}

/// A kind answers as the policy that it names, the smoothing factor taken over.
pub proof fn kinds_answer_as_their_policies(
    kind: AggregatePolicyKind,
    made: Box<BuiltinPolicy<Binary64>>,
    embeddings: Seq<Seq<Binary64>>,
    coverages: Seq<Binary64>,
    dim: usize,
    r: Result<Vec<Binary64>, WinditError>,
)
    requires
        call_ensures(AggregatePolicyKind::into_policy::<Binary64>, (kind,), made),
        made.aggregates(embeddings, coverages, dim, r),
    ensures
        kind is CoverageWeightedMean ==> CoverageWeightedMean.aggregates(
            embeddings,
            coverages,
            dim,
            r,
        ),
        kind is MeanRenormalized ==> MeanRenormalized.aggregates(embeddings, coverages, dim, r),
        kind is SaliencyWeighted ==> SaliencyWeighted.aggregates(embeddings, coverages, dim, r),
        kind matches AggregatePolicyKind::Ema { alpha } ==> exists|ema: EmaRenormalized<Binary64>|
            ema.alpha() == alpha && #[trigger] ema.aggregates(embeddings, coverages, dim, r),
{
    match *made {
        BuiltinPolicy::Coverage(policy) => {
            assert(policy == CoverageWeightedMean);
        },
        BuiltinPolicy::Mean(policy) => {
            assert(policy == MeanRenormalized);
        },
        BuiltinPolicy::Ema(policy) => {
            assert(policy.aggregates(embeddings, coverages, dim, r));
        },
        BuiltinPolicy::Saliency(policy) => {
            assert(policy == SaliencyWeighted);
        },
    }
}

} // verus!
