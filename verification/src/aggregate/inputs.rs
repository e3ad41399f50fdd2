//! Which inputs the policies refuse, by the numbers alone.
use vstd::arithmetic::power2::{lemma_pow2_adds, pow2};
use vstd::prelude::*;

use crate::aggregate::domain::{
    component_error, coverage_in_range, input_error, magnitude_in_range, window_error,
    windows_error,
};
use crate::aggregate::ema::EmaRenormalized;
use crate::aggregate::laws::{self, one};
use crate::aggregate::policy::{
    AggregatePolicy, CoverageWeightedMean, MeanRenormalized, SaliencyWeighted,
};
use crate::binary::{
    binary64_comparisons_at_the_ends, binary64_comparisons_compare_values, Binary64, HIDDEN64,
};
use crate::error::WinditError;
use crate::exact;
use crate::rounding::units64;

verus! {

/// Whether a component may be aggregated: zero, or between `2^-400` and `2^400` in size.
pub open spec fn sound_component(x: Binary64) -> bool {
    x.is_finite() && (x.units() == 0 || pow2(674) <= x.units() <= pow2(1474))
}

/// Whether a coverage is a number from zero to one.
pub open spec fn sound_coverage(c: Binary64) -> bool {
    c.is_finite() && 0 <= c.value() <= pow2(1074)
}

/// Whether a window may be aggregated in `dim` dimensions.
pub open spec fn sound_window(v: Seq<Binary64>, c: Binary64, dim: usize) -> bool {
    &&& v.len() == dim
    &&& sound_coverage(c)
    &&& forall|k: int| 0 <= k < v.len() ==> sound_component(#[trigger] v[k])
}

/// A number between zero and one, by the comparisons.
pub(crate) proof fn lemma_fraction(x: Binary64)
    ensures
        (x.at_least(laws::zero()) && one().at_least(x)) == sound_coverage(x),
{
    laws::lemma_one_units();
    assert(units64(0) == 0);
    binary64_comparisons_at_the_ends(x, laws::zero());
    binary64_comparisons_at_the_ends(x, one());
    if x.is_finite() {
        binary64_comparisons_compare_values(x, laws::zero());
        binary64_comparisons_compare_values(one(), x);
    }
}

/// The magnitude of a finite component, by the comparisons.
pub(crate) proof fn lemma_sound_component(x: Binary64)
    requires
        x.is_finite(),
    ensures
        magnitude_in_range(x) == sound_component(x),
{
    let (low, high) = (0x26f0_0000_0000_0000nat, 0x58f0_0000_0000_0000nat);
    vstd::arithmetic::power2::lemma2_to64_rest();
    lemma_pow2_adds(52, 1422);
    lemma_pow2_adds(52, 622);
    assert(units64(high) == (HIDDEN64 + 0) * pow2(1422));
    assert(units64(low) == (HIDDEN64 + 0) * pow2(622));
    assert(units64(0) == 0);
    let m = x.magnitude() as nat;
    exact::lemma_signed_value(false, m);
    exact::lemma_order(0, m);
    exact::lemma_order(m, 0);
    exact::lemma_order(low, m);
    exact::lemma_order(m, low);
    exact::lemma_order(high, m);
    exact::lemma_order(m, high);
    assert((x.units() == 0) == (m == 0));
    assert(x.absolute().magnitude() == m);
}

/// The components from `from` on are sound exactly where they have no error.
proof fn lemma_components(v: Seq<Binary64>, window: nat, from: nat)
    ensures
        component_error(v, window, from) is None <==> forall|k: int|
            from <= k < v.len() ==> sound_component(#[trigger] v[k]),
    decreases v.len() - from,
{
    if from < v.len() {
        lemma_components(v, window, from + 1);
        let x = v[from as int];
        if x.is_finite() {
            lemma_sound_component(x);
        }
    }
}

/// The first unsound component gives the error.
proof fn lemma_first_component(v: Seq<Binary64>, window: nat, from: nat, k: int)
    requires
        from <= k < v.len(),
        forall|l: int| from <= l < k ==> sound_component(#[trigger] v[l]),
        !sound_component(v[k]),
    ensures
        component_error(v, window, from) == Some(
            if v[k].is_finite() {
                WinditError::MagnitudeOutOfRange { window: window as usize, component: k as usize }
            } else {
                WinditError::NonFinite
            },
        ),
    decreases v.len() - from,
{
    let x = v[from as int];
    if x.is_finite() {
        lemma_sound_component(x);
    }
    if from < k {
        assert(sound_component(v[from as int]));
        lemma_first_component(v, window, from + 1, k);
    }
}

/// A window is sound exactly where it has no error.
proof fn lemma_window(v: Seq<Binary64>, c: Binary64, dim: usize, window: nat)
    ensures
        window_error(v, c, dim, window) is None <==> sound_window(v, c, dim),
{
    lemma_fraction(c);
    assert(coverage_in_range(c) == sound_coverage(c));
    lemma_components(v, window, 0);
}

/// The windows from `from` on are sound exactly where they have no error.
proof fn lemma_windows(
    embeddings: Seq<Seq<Binary64>>,
    coverages: Seq<Binary64>,
    dim: usize,
    from: nat,
)
    ensures
        windows_error(embeddings, coverages, dim, from) is None <==> forall|i: int|
            from <= i < embeddings.len() ==> sound_window(
                #[trigger] embeddings[i],
                coverages[i],
                dim,
            ),
    decreases embeddings.len() - from,
{
    if from < embeddings.len() {
        lemma_windows(embeddings, coverages, dim, from + 1);
        lemma_window(embeddings[from as int], coverages[from as int], dim, from);
    }
}

/// The first unsound window gives the error.
proof fn lemma_first_window(
    embeddings: Seq<Seq<Binary64>>,
    coverages: Seq<Binary64>,
    dim: usize,
    from: nat,
    i: int,
)
    requires
        from <= i < embeddings.len(),
        forall|l: int|
            from <= l < i ==> sound_window(#[trigger] embeddings[l], coverages[l], dim),
        !sound_window(embeddings[i], coverages[i], dim),
    ensures
        windows_error(embeddings, coverages, dim, from) == window_error(
            embeddings[i],
            coverages[i],
            dim,
            i as nat,
        ),
    decreases embeddings.len() - from,
{
    lemma_window(embeddings[from as int], coverages[from as int], dim, from);
    if from < i {
        assert(sound_window(embeddings[from as int], coverages[from as int], dim));
        lemma_first_window(embeddings, coverages, dim, from + 1, i);
    }
}

/// Which inputs are accepted: at least one window, one coverage for each, all of them vectors of
/// `dim` numbers that are zero or between `2^-400` and `2^400` in size, with coverages between
/// zero and one.
pub proof fn the_domain_is_accepted(
    embeddings: Seq<Seq<Binary64>>,
    coverages: Seq<Binary64>,
    dim: usize,
)
    ensures
        input_error(embeddings, coverages, dim) is None <==> {
            &&& embeddings.len() > 0
            &&& coverages.len() == embeddings.len()
            &&& forall|i: int|
                0 <= i < embeddings.len() ==> sound_window(
                    #[trigger] embeddings[i],
                    coverages[i],
                    dim,
                )
        },
        embeddings.len() == 0 ==> input_error(embeddings, coverages, dim) == Some(
            WinditError::Empty,
        ),
        embeddings.len() > 0 && coverages.len() != embeddings.len() ==> input_error(
            embeddings,
            coverages,
            dim,
        ) == Some(
            WinditError::DimMismatch {
                got: coverages.len() as usize,
                expected: embeddings.len() as usize,
            },
        ),
{
    lemma_windows(embeddings, coverages, dim, 0);
}

/// What the first window outside of the domain is refused for: its length, before its coverage,
/// before its first component that may not be aggregated.
pub proof fn the_first_unsound_window_is_reported(
    embeddings: Seq<Seq<Binary64>>,
    coverages: Seq<Binary64>,
    dim: usize,
    i: int,
    k: int,
)
    requires
        coverages.len() == embeddings.len(),
        0 <= i < embeddings.len(),
        forall|l: int| 0 <= l < i ==> sound_window(#[trigger] embeddings[l], coverages[l], dim),
    ensures
        embeddings[i].len() != dim ==> input_error(embeddings, coverages, dim) == Some(
            WinditError::DimMismatch { got: embeddings[i].len() as usize, expected: dim },
        ),
        embeddings[i].len() == dim && !sound_coverage(coverages[i]) ==> input_error(
            embeddings,
            coverages,
            dim,
        ) == Some(WinditError::CoverageOutOfRange { window: i as usize }),
        embeddings[i].len() == dim && sound_coverage(coverages[i]) && 0 <= k < dim
            && !sound_component(embeddings[i][k]) && (forall|l: int|
            0 <= l < k ==> sound_component(#[trigger] embeddings[i][l])) ==> input_error(
            embeddings,
            coverages,
            dim,
        ) == Some(
            if embeddings[i][k].is_finite() {
                WinditError::MagnitudeOutOfRange { window: i as usize, component: k as usize }
            } else {
                WinditError::NonFinite
            },
        ),
{
    lemma_fraction(coverages[i]);
    if !sound_window(embeddings[i], coverages[i], dim) {
        lemma_first_window(embeddings, coverages, dim, 0, i);
        if embeddings[i].len() == dim && sound_coverage(coverages[i]) && 0 <= k < dim
            && !sound_component(embeddings[i][k]) && (forall|l: int|
            0 <= l < k ==> sound_component(#[trigger] embeddings[i][l])) {
            lemma_first_component(embeddings[i], i as nat, 0, k);
        }
    }
}

/// An input outside of the domain is refused by every policy, with its own error.
pub proof fn every_policy_refuses_what_is_outside(
    ema: EmaRenormalized<Binary64>,
    embeddings: Seq<Seq<Binary64>>,
    coverages: Seq<Binary64>,
    dim: usize,
    e: WinditError,
    r: Result<Vec<Binary64>, WinditError>,
)
    requires
        input_error(embeddings, coverages, dim) == Some(e),
    ensures
        MeanRenormalized.aggregates(embeddings, coverages, dim, r) ==> r == Err::<
            Vec<Binary64>,
            WinditError,
        >(e),
        CoverageWeightedMean.aggregates(embeddings, coverages, dim, r) ==> r == Err::<
            Vec<Binary64>,
            WinditError,
        >(e),
        SaliencyWeighted.aggregates(embeddings, coverages, dim, r) ==> r == Err::<
            Vec<Binary64>,
            WinditError,
        >(e),
        ema.aggregates(embeddings, coverages, dim, r) ==> r == Err::<Vec<Binary64>, WinditError>(e)
            || r == Err::<Vec<Binary64>, WinditError>(WinditError::AlphaOutOfRange) || r == Err::<
            Vec<Binary64>,
            WinditError,
        >(WinditError::AllocFailed { elements: embeddings.len() as usize }),
{
}

/// No component error is about a smoothing factor.
proof fn lemma_component_errors(v: Seq<Binary64>, window: nat, from: nat)
    ensures
        component_error(v, window, from) matches Some(e) ==> e != WinditError::AlphaOutOfRange,
    decreases v.len() - from,
{
    if from < v.len() {
        lemma_component_errors(v, window, from + 1);
    }
}

/// No input error is about a smoothing factor.
proof fn lemma_input_errors(
    embeddings: Seq<Seq<Binary64>>,
    coverages: Seq<Binary64>,
    dim: usize,
    from: nat,
)
    ensures
        windows_error(embeddings, coverages, dim, from) matches Some(e) ==> e
            != WinditError::AlphaOutOfRange,
    decreases embeddings.len() - from,
{
    if from < embeddings.len() {
        lemma_component_errors(embeddings[from as int], from, 0);
        lemma_input_errors(embeddings, coverages, dim, from + 1);
    }
}

/// Which smoothing factors are refused, whatever the input: exactly those that are not numbers
/// from zero to one, both included.
pub proof fn smoothing_factors_are_fractions(
    ema: EmaRenormalized<Binary64>,
    embeddings: Seq<Seq<Binary64>>,
    coverages: Seq<Binary64>,
    dim: usize,
    r: Result<Vec<Binary64>, WinditError>,
)
    requires
        ema.aggregates(embeddings, coverages, dim, r),
    ensures
        r == Err::<Vec<Binary64>, WinditError>(WinditError::AlphaOutOfRange) <==> !(
        ema.alpha().is_finite() && 0 <= ema.alpha().value() <= pow2(1074)),
{
    lemma_fraction(ema.alpha());
    lemma_input_errors(embeddings, coverages, dim, 0);
}

/// What a policy may answer to an input inside of the domain: a vector of `dim` components, that
/// there is no direction, or a refused allocation.
#[verifier::spinoff_prover]
#[verifier::rlimit(40)]
pub proof fn the_domain_is_answered(
    ema: EmaRenormalized<Binary64>,
    embeddings: Seq<Seq<Binary64>>,
    coverages: Seq<Binary64>,
    dim: usize,
    r: Result<Vec<Binary64>, WinditError>,
)
    requires
        input_error(embeddings, coverages, dim) is None,
        MeanRenormalized.aggregates(embeddings, coverages, dim, r)
            || CoverageWeightedMean.aggregates(embeddings, coverages, dim, r)
            || SaliencyWeighted.aggregates(embeddings, coverages, dim, r) || (ema.aggregates(
            embeddings,
            coverages,
            dim,
            r,
        ) && ema.alpha().is_finite() && 0 <= ema.alpha().value() <= pow2(1074)),
    ensures
        r matches Ok(v) ==> v@.len() == dim,
        r matches Err(e) ==> e == WinditError::NonFinite || e == (WinditError::AllocFailed {
            elements: dim,
        }) || e == (WinditError::AllocFailed { elements: embeddings.len() as usize }),
{
    lemma_fraction(ema.alpha());
}

} // verus!
