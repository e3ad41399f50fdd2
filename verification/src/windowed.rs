//! A value together with the window it was computed from.
use vstd::arithmetic::power2::pow2;
use vstd::prelude::*;

use crate::aggregate::fold::try_vec_with_capacity;
use crate::binary::{Binary32, Binary64};
use crate::error::WinditError;
use crate::ieee;
use crate::plan::Span;
use crate::scalar::Scalar;
use crate::widen::{Bfloat16, Binary16};

verus! {

/// A value together with the [`Span`] of the window it belongs to.
///
/// This is what a model yields per window (a score, a label, an embedding) and
/// what every post-processing stage consumes.
#[derive(Debug, PartialEq, Eq)]
pub struct Windowed<V> {
    /// The value of the window.
    pub value: V,
    /// The placement of the window.
    pub span: Span,
}

impl<V: Clone> Clone for Windowed<V> {
    fn clone(&self) -> (r: Self)
        ensures
            cloned(self.value, r.value),
            r.span == self.span,
    {
        Windowed { value: self.value.clone(), span: self.span }
    }
}

impl<V: Copy> Copy for Windowed<V> {

}

impl<V> Windowed<V> {
    /// Pair `value` with the `span` of the window it was computed from.
    #[must_use]
    pub fn new(value: V, span: Span) -> (r: Windowed<V>)
        ensures
            r.value == value,
            r.span == span,
    {
        Windowed { value, span }
    }

    /// The value of the window.
    #[must_use]
    pub fn value(&self) -> (r: &V)
        ensures
            *r == self.value,
    {
        &self.value
    }

    /// The placement of the window.
    #[must_use]
    pub fn span(&self) -> (r: Span)
        ensures
            r == self.span,
            r.wf(),
    {
        let span = self.span;
        proof {
            use_type_invariant(&span);
        }
        span
    }
}

/// An embedding together with the window it was computed from.
pub type WindowEmbedding<E> = Windowed<E>;

/// The domain that the aggregation of an embedding runs in.
pub type ComputeOf<E> = <<E as Vector>::Scalar as Scalar>::Compute;

/// Whether `r` is the widening of every stored scalar, or the refusal of a code scalar,
/// or a refused allocation, which no scalars at all do not need.
pub open spec fn is_projection<S: Scalar>(
    stored: Seq<S>,
    r: Result<Vec<S::Compute>, WinditError>,
) -> bool {
    if !S::TO_COMPUTE_IS_VALUE {
        r == Err::<Vec<S::Compute>, WinditError>(WinditError::MissingDequantization)
    } else {
        match r {
            Ok(v) => v@.len() == stored.len() && forall|i: int|
                0 <= i < stored.len() ==> (#[trigger] stored[i]).widens_to(v@[i]),
            Err(e) => stored.len() > 0 && e == (WinditError::AllocFailed {
                elements: stored.len() as usize,
            }),
        }
    }
}

/// Append the widening of every stored scalar.
pub fn widen_into<S: Scalar>(stored: &[S], out: &mut Vec<S::Compute>)
    requires
        old(out)@.len() == 0,
    ensures
        final(out)@.len() == stored@.len(),
        forall|i: int|
            0 <= i < stored@.len() ==> (#[trigger] stored@[i]).widens_to(final(out)@[i]),
{
    let n: usize = stored.len();
    let borrowed: Option<&[S::Compute]> = S::as_compute_slice(stored);
    let mut i: usize = 0;
    while i < n
        invariant
            n == stored@.len(),
            out@.len() == i <= n,
            borrowed matches Some(s) ==> s@.len() == n && forall|j: int|
                0 <= j < n ==> (#[trigger] stored@[j]).widens_to(s@[j]),
            forall|j: int| 0 <= j < i ==> (#[trigger] stored@[j]).widens_to(out@[j]),
        decreases n - i,
    {
        match borrowed {
            Some(s) => out.push(s[i]),
            None => out.push(stored[i].to_compute()),
        }
        i = i + 1;
    }
}

/// Widen every stored scalar into the compute domain. A code scalar is refused: its codes
/// are no values.
pub fn project<S: Scalar>(stored: &[S]) -> (r: Result<Vec<S::Compute>, WinditError>)
    ensures
        is_projection(stored@, r),
        S::TO_COMPUTE_IS_VALUE && stored@.len() == 0 ==> r is Ok,
{
    if !S::TO_COMPUTE_IS_VALUE {
        return Err(WinditError::MissingDequantization);
    }
    let mut out: Vec<S::Compute> = match try_vec_with_capacity(stored.len()) {
        Ok(v) => v,
        Err(e) => {
            return Err(e);
        },
    };
    widen_into(stored, &mut out);
    Ok(out)
}

/// An embedding vector.
pub trait Vector: Sized {
    /// The scalar that the components are stored in.
    type Scalar: Scalar;

    /// The components as they are stored.
    open spec fn stored(&self) -> Seq<Self::Scalar> {
        vstd::pervasive::arbitrary()
    }

    /// The stored components.
    fn as_slice(&self) -> (r: &[Self::Scalar])
        ensures
            r@ == self.stored(),
    ;

    /// The number of components.
    ///
    /// The default counts the stored ones.
    fn dim(&self) -> (r: usize)
        default_ensures
            r == self.stored().len(),
    {
        self.as_slice().len()
    }

    /// The components in the compute domain.
    ///
    /// The default widens every stored scalar and refuses a code scalar with
    /// [`WinditError::MissingDequantization`]; quantized storage overrides it with its own
    /// dequantization.
    fn compute_components(&self) -> (r: Result<Vec<ComputeOf<Self>>, WinditError>)
        default_ensures
            is_projection(self.stored(), r),
    {
        project(self.as_slice())
    }

    /// An embedding from components that need not be normalized.
    fn from_unnormalized(raw: &[ComputeOf<Self>]) -> Result<Self, WinditError>;
}

/// What a projection of stored binary32 scalars, which are values, gives: every one of them, in
/// order and unchanged but for the unit it is counted in, unless the buffer is refused.
pub proof fn projections_keep_every_value(
    stored: Seq<Binary32>,
    r: Result<Vec<Binary64>, WinditError>,
)
    requires
        is_projection(stored, r),
        <Binary32 as Scalar>::TO_COMPUTE_IS_VALUE,
    ensures
        r matches Ok(v) ==> v@.len() == stored.len() && forall|i: int|
            0 <= i < stored.len() && (#[trigger] stored[i]).is_finite() ==> v@[i].is_finite()
                && v@[i].value() == stored[i].value() * pow2(925),
        r matches Err(e) ==> stored.len() > 0 && e == (WinditError::AllocFailed {
            elements: stored.len() as usize,
        }),
{
    if let Ok(v) = r {
        assert forall|i: int| 0 <= i < stored.len() && (
        #[trigger] stored[i]).is_finite() implies v@[i].is_finite() && v@[i].value()
            == stored[i].value() * pow2(925) by {
            assert(stored[i].widens_to(v@[i]));
            ieee::widening_keeps_the_value(
                stored[i],
                Binary16 { bits: 0 },
                Bfloat16 { bits: 0 },
            );
        }
    }
}

} // verus!
