//! The input domain of aggregation.
use vstd::prelude::*;

use crate::aggregate::norm;
use crate::binary::{Binary64, ONE64};
use crate::error::WinditError;
use crate::scalar::{equal_values, Real};

verus! {

/// The components of a sequence of vectors.
pub open spec fn vectors<C>(embeddings: Seq<&[C]>) -> Seq<Seq<C>> {
    Seq::new(embeddings.len(), |i: int| embeddings[i]@)
}

/// Whether the magnitude of a finite component is in range: zero, or between the two
/// bounds.
pub open spec fn magnitude_in_range<C: Real>(x: C) -> bool {
    equal_values(x, C::spec_zero()) || !(x.spec_abs().spec_below(C::spec_min_agg_magnitude())
        || C::spec_max_agg_magnitude().spec_below(x.spec_abs()))
}

/// Whether a coverage is a fraction between zero and one.
pub open spec fn coverage_in_range(c: Binary64) -> bool {
    c.at_least(Binary64 { bits: 0 }) && (Binary64 { bits: ONE64 }).at_least(c)
}

/// The error of the first component of `v`, from `k` on, that is outside of the domain.
pub open spec fn component_error<C: Real>(v: Seq<C>, window: nat, k: nat) -> Option<WinditError>
    decreases v.len() - k,
{
    if k >= v.len() {
        None
    } else if !v[k as int].spec_is_finite() {
        Some(WinditError::NonFinite)
    } else if !magnitude_in_range(v[k as int]) {
        Some(
            WinditError::MagnitudeOutOfRange { window: window as usize, component: k as usize },
        )
    } else {
        component_error(v, window, k + 1)
    }
}

/// The error of one window: its length first, then its coverage, then its components in
/// order.
pub open spec fn window_error<C: Real>(
    v: Seq<C>,
    coverage: Binary64,
    dim: usize,
    window: nat,
) -> Option<WinditError> {
    if v.len() != dim {
        Some(WinditError::DimMismatch { got: v.len() as usize, expected: dim })
    } else if !coverage_in_range(coverage) {
        Some(WinditError::CoverageOutOfRange { window: window as usize })
    } else {
        component_error(v, window, 0)
    }
}

/// The error of the first window, from `i` on, that is outside of the domain.
pub open spec fn windows_error<C: Real>(
    embeddings: Seq<Seq<C>>,
    coverages: Seq<Binary64>,
    dim: usize,
    i: nat,
) -> Option<WinditError>
    decreases embeddings.len() - i,
{
    if i >= embeddings.len() {
        None
    } else {
        match window_error(embeddings[i as int], coverages[i as int], dim, i) {
            Some(e) => Some(e),
            None => windows_error(embeddings, coverages, dim, i + 1),
        }
    }
}

/// The error of an input outside of the aggregation domain: no windows, a coverage slice
/// of another length, and then the first window that is outside.
pub open spec fn input_error<C: Real>(
    embeddings: Seq<Seq<C>>,
    coverages: Seq<Binary64>,
    dim: usize,
) -> Option<WinditError> {
    if embeddings.len() == 0 {
        Some(WinditError::Empty)
    } else if coverages.len() != embeddings.len() {
        Some(
            WinditError::DimMismatch {
                got: coverages.len() as usize,
                expected: embeddings.len() as usize,
            },
        )
    } else {
        windows_error(embeddings, coverages, dim, 0)
    }
}

/// Check one window against the domain.
fn check_window<C: Real>(emb: &[C], coverage: Binary64, dim: usize, window: usize) -> (r: Result<
    (),
    WinditError,
>)
    ensures
        match window_error(emb@, coverage, dim, window as nat) {
            None => r is Ok,
            Some(e) => r == Err::<(), WinditError>(e),
        },
{
    if emb.len() != dim {
        return Err(WinditError::DimMismatch { got: emb.len(), expected: dim });
    }
    if !(coverage.at_least(Binary64 { bits: 0 }) && (Binary64 { bits: ONE64 }).at_least(
        coverage,
    )) {
        return Err(WinditError::CoverageOutOfRange { window });
    }
    let mut k: usize = 0;
    while k < emb.len()
        invariant
            k <= emb@.len(),
            component_error(emb@, window as nat, 0) == component_error(
                emb@,
                window as nat,
                k as nat,
            ),
            window_error(emb@, coverage, dim, window as nat) == component_error(
                emb@,
                window as nat,
                0,
            ),
        decreases emb@.len() - k,
    {
        let x: C = emb[k];
        if !x.is_finite() {
            return Err(WinditError::NonFinite);
        }
        if !norm::equals(x, C::zero()) && (x.abs().below(C::min_agg_magnitude())
            || C::max_agg_magnitude().below(x.abs())) {
            return Err(WinditError::MagnitudeOutOfRange { window, component: k });
        }
        k = k + 1;
    }
    Ok(())
}

/// Validate `embeddings`, `coverages`, and every component against the aggregation input
/// domain, before any arithmetic runs.
pub fn check_inputs<C: Real>(embeddings: &[&[C]], coverages: &[Binary64], dim: usize) -> (r: Result<
    (),
    WinditError,
>)
    ensures
        match input_error(vectors(embeddings@), coverages@, dim) {
            None => r is Ok,
            Some(e) => r == Err::<(), WinditError>(e),
        },
{
    let ghost embs = vectors(embeddings@);
    if embeddings.len() == 0 {
        return Err(WinditError::Empty);
    }
    if coverages.len() != embeddings.len() {
        return Err(
            WinditError::DimMismatch { got: coverages.len(), expected: embeddings.len() },
        );
    }
    let mut i: usize = 0;
    while i < embeddings.len()
        invariant
            i <= embeddings@.len() == coverages@.len(),
            embs == vectors(embeddings@),
            input_error(embs, coverages@, dim) == windows_error(embs, coverages@, dim, i as nat),
        decreases embeddings@.len() - i,
    {
        let emb: &[C] = embeddings[i];
        assert(embs[i as int] == emb@);
        match check_window(emb, coverages[i], dim, i) {
            Ok(()) => {},
            Err(e) => {
                return Err(e);
            },
        }
        i = i + 1;
    }
    Ok(())
}

/// Where the input is in the domain, every window has the expected length.
pub proof fn lemma_lengths<C: Real>(
    embeddings: Seq<Seq<C>>,
    coverages: Seq<Binary64>,
    dim: usize,
    i: nat,
)
    requires
        windows_error(embeddings, coverages, dim, i) is None,
    ensures
        forall|j: int| i <= j < embeddings.len() ==> (#[trigger] embeddings[j]).len() == dim,
    decreases embeddings.len() - i,
{
    if i < embeddings.len() {
        lemma_lengths(embeddings, coverages, dim, i + 1);
    }
}

/// The vectors of a sequence of slices are the slices, in order.
pub proof fn vectors_are_the_slices<C>(embeddings: Seq<&[C]>, i: int)
    requires
        0 <= i < embeddings.len(),
    ensures
        vectors(embeddings).len() == embeddings.len(),
        vectors(embeddings)[i] == embeddings[i]@,
{
}

} // verus!
