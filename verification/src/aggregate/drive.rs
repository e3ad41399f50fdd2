//! Aggregation of window embeddings.
use vstd::prelude::*;

use crate::aggregate::domain::vectors;
use crate::aggregate::fold::try_vec_with_capacity;
use crate::aggregate::policy::AggregatePolicy;
use crate::binary::Binary64;
use crate::error::WinditError;
use crate::ratio;
use crate::windowed::{ComputeOf, Vector, WindowEmbedding};

verus! {

/// Whether `coverages` are the coverages of the windows.
pub open spec fn are_coverages<E>(
    windows: Seq<WindowEmbedding<E>>,
    coverages: Seq<Binary64>,
) -> bool {
    &&& coverages.len() == windows.len()
    &&& forall|i: int|
        0 <= i < windows.len() ==> ratio::is_ratio(
            #[trigger] coverages[i],
            windows[i].span.len() as nat,
            windows[i].span.window() as nat,
        )
}

/// Whether `components` are answers of [`Vector::compute_components`] for the leading
/// windows.
pub open spec fn are_projected<E: Vector>(
    windows: Seq<WindowEmbedding<E>>,
    components: Seq<Vec<ComputeOf<E>>>,
) -> bool {
    &&& components.len() <= windows.len()
    &&& forall|i: int|
        0 <= i < components.len() ==> call_ensures(
            E::compute_components,
            (&windows[i].value,),
            Ok::<Vec<ComputeOf<E>>, WinditError>(#[trigger] components[i]),
        )
}

/// The elements of a sequence of vectors.
pub open spec fn contents<C>(components: Seq<Vec<C>>) -> Seq<Seq<C>> {
    Seq::new(components.len(), |i: int| components[i]@)
}

/// Whether `e` is the refusal of the first window that has no components.
pub open spec fn first_refusal<E: Vector>(
    windows: Seq<WindowEmbedding<E>>,
    e: WinditError,
) -> bool {
    exists|components: Seq<Vec<ComputeOf<E>>>|
        {
            &&& components.len() < windows.len()
            &&& #[trigger] are_projected(windows, components)
            &&& call_ensures(
                E::compute_components,
                (&windows[components.len() as int].value,),
                Err::<Vec<ComputeOf<E>>, WinditError>(e),
            )
        }
}

/// Whether `r` is what the policy, and then the reconstruction, answer.
pub open spec fn is_combined<E: Vector, P: AggregatePolicy<ComputeOf<E>> + ?Sized>(
    policy: &P,
    components: Seq<Seq<ComputeOf<E>>>,
    coverages: Seq<Binary64>,
    dim: usize,
    r: Result<E, WinditError>,
) -> bool {
    exists|raw: Result<Vec<ComputeOf<E>>, WinditError>|
        {
            &&& #[trigger] policy.aggregates(components, coverages, dim, raw)
            &&& match raw {
                Ok(v) => exists|s: &[ComputeOf<E>]|
                    s@ == v@ && #[trigger] call_ensures(E::from_unnormalized, (s,), r),
                Err(e) => r == Err::<E, WinditError>(e),
            }
        }
}

/// Whether `r` is an outcome of [`aggregate`] over a nonempty sequence: the first refusal
/// of a projection, or what the policy and then the reconstruction answer, or a refused
/// allocation.
pub open spec fn is_aggregate<E: Vector, P: AggregatePolicy<ComputeOf<E>> + ?Sized>(
    policy: &P,
    windows: Seq<WindowEmbedding<E>>,
    r: Result<E, WinditError>,
) -> bool {
    ||| r == Err::<E, WinditError>(WinditError::AllocFailed { elements: windows.len() as usize })
    ||| r matches Err(e) && first_refusal(windows, e)
    ||| exists|components: Seq<Vec<ComputeOf<E>>>, coverages: Seq<Binary64>, dim: usize|
        {
            &&& components.len() == windows.len()
            &&& are_projected(windows, components)
            &&& are_coverages(windows, coverages)
            &&& call_ensures(E::dim, (&windows[0].value,), dim)
            &&& #[trigger] is_combined(policy, contents(components), coverages, dim, r)
        }
}

/// What a function answers, as a fact about the function.
fn ask<A, R, F: Fn(A) -> R>(f: F, a: A) -> (r: R)
    requires
        call_requires(f, (a,)),
    ensures
        call_ensures(f, (a,), r),
{
    f(a)
}

/// Append the coverage of every window.
pub fn push_coverages<E>(windows: &[WindowEmbedding<E>], out: Vec<Binary64>) -> (r: Vec<Binary64>)
    requires
        out@.len() == 0,
    ensures
        are_coverages(windows@, r@),
{
    let mut out = out;
    let mut i: usize = 0;
    while i < windows.len()
        invariant
            i <= windows@.len(),
            out@.len() == i,
            forall|j: int|
                0 <= j < i ==> ratio::is_ratio(
                    #[trigger] out@[j],
                    windows@[j].span.len() as nat,
                    windows@[j].span.window() as nat,
                ),
        decreases windows@.len() - i,
    {
        out.push(windows[i].span.coverage());
        i = i + 1;
    }
    out
}

/// Append the components of every window, up to the first that has none.
pub fn push_components<E: Vector>(
    windows: &[WindowEmbedding<E>],
    out: Vec<Vec<ComputeOf<E>>>,
) -> (r: Result<Vec<Vec<ComputeOf<E>>>, WinditError>)
    requires
        out@.len() == 0,
    ensures
        match r {
            Ok(components) => components@.len() == windows@.len() && are_projected(
                windows@,
                components@,
            ),
            Err(e) => first_refusal(windows@, e),
        },
{
    let mut out = out;
    let mut i: usize = 0;
    while i < windows.len()
        invariant
            i <= windows@.len(),
            out@.len() == i,
            are_projected(windows@, out@),
        decreases windows@.len() - i,
    {
        let r: Result<Vec<ComputeOf<E>>, WinditError> = ask(
            E::compute_components,
            &windows[i].value,
        );
        match r {
            Ok(v) => {
                out.push(v);
            },
            Err(e) => {
                assert(are_projected(windows@, out@));
                return Err(e);
            },
        }
        i = i + 1;
    }
    Ok(out)
}

/// Run `policy` over components and coverages, and reconstruct `E` from its answer.
pub fn combine<'a, E, P>(
    policy: &P,
    components: &'a [Vec<ComputeOf<E>>],
    coverages: &[Binary64],
    dim: usize,
    embeddings: Vec<&'a [ComputeOf<E>]>,
) -> (r: Result<E, WinditError>)
    where
        E: Vector,
        P: AggregatePolicy<ComputeOf<E>> + ?Sized,

    requires
        embeddings@.len() == 0,
    ensures
        is_combined(policy, contents(components@), coverages@, dim, r),
{
    let mut embeddings = embeddings;
    let mut i: usize = 0;
    while i < components.len()
        invariant
            i <= components@.len(),
            embeddings@.len() == i,
            forall|j: int| 0 <= j < i ==> (#[trigger] embeddings@[j])@ == components@[j]@,
        decreases components@.len() - i,
    {
        embeddings.push(components[i].as_slice());
        i = i + 1;
    }
    let raw: Result<Vec<ComputeOf<E>>, WinditError> = policy.aggregate_values(
        embeddings.as_slice(),
        coverages,
        dim,
    );
    proof {
        assert(vectors(embeddings@) =~= contents(components@));
        assert(policy.aggregates(contents(components@), coverages@, dim, raw));
    }
    match raw {
        Ok(v) => ask(E::from_unnormalized, v.as_slice()),
        Err(e) => Err(e),
    }
}

/// Aggregate a sequence of window embeddings into one embedding of type `E`.
///
/// Projects each window into the compute domain, pairs it with its coverage, runs `policy`
/// there, and reconstructs `E`. What is returned once the buffers are allocated is said by
/// [`push_components`] and [`combine`].
pub fn aggregate<E, P>(policy: &P, windows: &[WindowEmbedding<E>]) -> (r: Result<E, WinditError>)
    where
        E: Vector,
        P: AggregatePolicy<ComputeOf<E>> + ?Sized,

    ensures
        windows@.len() == 0 ==> r == Err::<E, WinditError>(WinditError::Empty),
        windows@.len() > 0 ==> is_aggregate(policy, windows@, r),
{
    let n: usize = windows.len();
    if n == 0 {
        return Err(WinditError::Empty);
    }
    let dim: usize = ask(E::dim, &windows[0].value);
    let coverages: Vec<Binary64> = match try_vec_with_capacity(n) {
        Ok(v) => push_coverages(windows, v),
        Err(e) => {
            return Err(e);
        },
    };
    let components: Vec<Vec<ComputeOf<E>>> = match try_vec_with_capacity(n) {
        Ok(v) => match push_components(windows, v) {
            Ok(components) => components,
            Err(e) => {
                return Err(e);
            },
        },
        Err(e) => {
            return Err(e);
        },
    };
    let embeddings: Vec<&[ComputeOf<E>]> = match try_vec_with_capacity(n) {
        Ok(v) => v,
        Err(e) => {
            return Err(e);
        },
    };
    let r: Result<E, WinditError> = combine(
        policy,
        components.as_slice(),
        coverages.as_slice(),
        dim,
        embeddings,
    );
    proof {
        assert(are_projected(windows@, components@));
        assert(is_combined(policy, contents(components@), coverages@, dim, r));
    }
    r
}

/// The multi-vector path: return every window unchanged.
///
/// The counterpart to [`aggregate`], for callers that keep per-window embeddings instead of
/// collapsing them.
#[must_use]
pub fn keep_separate<E>(windows: Vec<WindowEmbedding<E>>) -> (r: Vec<WindowEmbedding<E>>)
    ensures
        r == windows,
{
    windows
}

/// What an aggregate is of: every window takes part, in order, with components that its own
/// embedding projects to, and with the coverage nearest to its fraction of real elements; the
/// policy is asked once, and what it gives is what the embedding is rebuilt from. Otherwise the
/// error is that of the policy or the reconstruction, the first refused projection, or a refused
/// allocation.
pub proof fn aggregates_are_of_every_window<E: Vector, P: AggregatePolicy<ComputeOf<E>> + ?Sized>(
    policy: &P,
    windows: Seq<WindowEmbedding<E>>,
    r: Result<E, WinditError>,
)
    requires
        is_aggregate(policy, windows, r),
    ensures
        ({
            ||| r == Err::<E, WinditError>(
                WinditError::AllocFailed { elements: windows.len() as usize },
            )
            ||| r matches Err(e) && exists|k: int|
                0 <= k < windows.len() && call_ensures(
                    E::compute_components,
                    (&(#[trigger] windows[k]).value,),
                    Err::<Vec<ComputeOf<E>>, WinditError>(e),
                )
            ||| exists|
                parts: Seq<Vec<ComputeOf<E>>>,
                components: Seq<Seq<ComputeOf<E>>>,
                coverages: Seq<Binary64>,
                dim: usize,
                raw: Result<Vec<ComputeOf<E>>, WinditError>,
            |
                {
                    &&& #[trigger] parts.len() == windows.len()
                    &&& components.len() == windows.len()
                    &&& coverages.len() == windows.len()
                    &&& #[trigger] policy.aggregates(components, coverages, dim, raw)
                    &&& call_ensures(E::dim, (&windows[0].value,), dim)
                    &&& forall|i: int|
                        0 <= i < windows.len() ==> ratio::is_ratio(
                            #[trigger] coverages[i],
                            windows[i].span.len() as nat,
                            windows[i].span.window() as nat,
                        )
                    &&& forall|i: int|
                        0 <= i < windows.len() ==> components[i] == (#[trigger] parts[i])@
                            && call_ensures(
                            E::compute_components,
                            (&windows[i].value,),
                            Ok::<Vec<ComputeOf<E>>, WinditError>(parts[i]),
                        )
                    &&& match raw {
                        Ok(v) => exists|s: &[ComputeOf<E>]|
                            s@ == v@ && #[trigger] call_ensures(E::from_unnormalized, (s,), r),
                        Err(e) => r == Err::<E, WinditError>(e),
                    }
                }
        }),
{
    if r == Err::<E, WinditError>(WinditError::AllocFailed { elements: windows.len() as usize }) {
    } else if r is Err && first_refusal(windows, r->Err_0) {
        let components = choose|components: Seq<Vec<ComputeOf<E>>>|
            {
                &&& components.len() < windows.len()
                &&& #[trigger] are_projected(windows, components)
                &&& call_ensures(
                    E::compute_components,
                    (&windows[components.len() as int].value,),
                    Err::<Vec<ComputeOf<E>>, WinditError>(r->Err_0),
                )
            };
        let k = components.len() as int;
        assert(call_ensures(
            E::compute_components,
            (&windows[k].value,),
            Err::<Vec<ComputeOf<E>>, WinditError>(r->Err_0),
        ));
    } else {
        let (components, coverages, dim) = choose|
            components: Seq<Vec<ComputeOf<E>>>,
            coverages: Seq<Binary64>,
            dim: usize,
        |
            {
                &&& components.len() == windows.len()
                &&& are_projected(windows, components)
                &&& are_coverages(windows, coverages)
                &&& call_ensures(E::dim, (&windows[0].value,), dim)
                &&& #[trigger] is_combined(policy, contents(components), coverages, dim, r)
            };
        let seqs = contents(components);
        let raw = choose|raw: Result<Vec<ComputeOf<E>>, WinditError>|
            {
                &&& #[trigger] policy.aggregates(seqs, coverages, dim, raw)
                &&& match raw {
                    Ok(v) => exists|s: &[ComputeOf<E>]|
                        s@ == v@ && #[trigger] call_ensures(E::from_unnormalized, (s,), r),
                    Err(e) => r == Err::<E, WinditError>(e),
                }
            };
        assert(policy.aggregates(seqs, coverages, dim, raw));
        assert(components.len() == windows.len());
    }
}

} // verus!
