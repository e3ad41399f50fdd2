//! The weighted sum that every policy folds through.
//!
//! The sum is compensated, and beside it the fold adds up the magnitudes of its terms.
//! A determinacy gate then refuses a sum that lies at or below the rounding floor of the
//! fold: there is no direction in it at working precision.
use vstd::prelude::*;

use crate::aggregate::domain::{self, check_inputs, vectors};
use crate::aggregate::norm::{self, l2_norm, l2_renorm};
use crate::binary::{Binary32, Binary64};
use crate::error::WinditError;
use crate::scalar::Real;

verus! {

/// One dimension of the running fold.
#[verifier::ext_equal]
pub struct Column<C> {
    /// The rounded sum of the terms.
    pub acc: C,
    /// What the rounded sum has left out.
    pub comp: C,
    /// The sum of the magnitudes of the terms.
    pub mag: C,
}

/// The compensation that one more term adds: the part of the smaller of the two addends
/// that the rounded sum could not hold.
pub open spec fn lost<C: Real>(acc: C, term: C) -> C {
    let sum = acc.spec_plus(term);
    if acc.spec_abs().spec_at_least(term.spec_abs()) {
        acc.spec_minus(sum).spec_plus(term)
    } else {
        term.spec_minus(sum).spec_plus(acc)
    }
}

impl<C: Real> Column<C> {
    /// The fold of no terms.
    pub open spec fn empty() -> Column<C> {
        Column { acc: C::spec_zero(), comp: C::spec_zero(), mag: C::spec_zero() }
    }

    /// The fold of one more term.
    pub open spec fn step(self, term: C) -> Column<C> {
        Column {
            acc: self.acc.spec_plus(term),
            comp: self.comp.spec_plus(lost(self.acc, term)),
            mag: self.mag.spec_plus(term.spec_abs()),
        }
    }
}

/// Dimension `j` of the fold of the first `n` windows.
pub open spec fn column<C: Real>(
    weights: Seq<C>,
    embeddings: Seq<Seq<C>>,
    j: int,
    n: nat,
) -> Column<C>
    decreases n,
{
    if n == 0 {
        Column::empty()
    } else {
        column(weights, embeddings, j, (n - 1) as nat).step(
            weights[n - 1].spec_times(embeddings[n - 1][j]),
        )
    }
}

/// The compensated weighted sum of all windows.
pub open spec fn weighted_sum<C: Real>(
    weights: Seq<C>,
    embeddings: Seq<Seq<C>>,
    dim: nat,
) -> Seq<C> {
    Seq::new(
        dim,
        |j: int|
            {
                let c = column(weights, embeddings, j, embeddings.len());
                c.acc.spec_plus(c.comp)
            },
    )
}

/// The sums of the magnitudes of the terms.
pub open spec fn masses<C: Real>(weights: Seq<C>, embeddings: Seq<Seq<C>>, dim: nat) -> Seq<C> {
    Seq::new(dim, |j: int| column(weights, embeddings, j, embeddings.len()).mag)
}

/// The binary32 value sixteen.
pub open spec fn sixteen() -> Binary32 {
    Binary32 { bits: 0x4180_0000 }
}

/// The norm at or below which a sum has no direction at working precision: sixteen units
/// of roundoff of the mass, the absolute floor, and what the policy owes for the
/// formation of its weights.
pub open spec fn threshold<C: Real>(masses: Seq<C>, slack: C) -> C {
    C::spec_from_f32(sixteen()).spec_times(C::spec_epsilon()).spec_times(norm::norm(masses))
        .spec_plus(C::spec_min_gate_threshold()).spec_plus(slack)
}

/// The outcome of the fold of an input inside the domain.
pub open spec fn folded<C: Real>(
    weights: Seq<C>,
    embeddings: Seq<Seq<C>>,
    dim: nat,
    slack: C,
) -> Result<Seq<C>, WinditError> {
    let sum = weighted_sum(weights, embeddings, dim);
    if threshold(masses(weights, embeddings, dim), slack).spec_at_least(norm::norm(sum)) {
        Err(WinditError::NonFinite)
    } else {
        norm::direction(sum)
    }
}

/// Whether `r` is the given outcome.
pub open spec fn is_outcome<C>(
    outcome: Result<Seq<C>, WinditError>,
    r: Result<Vec<C>, WinditError>,
) -> bool {
    match r {
        Ok(v) => outcome == Ok::<Seq<C>, WinditError>(v@),
        Err(e) => outcome == Err::<Seq<C>, WinditError>(e),
    }
}

/// Whether `r` is what the fold gives: the error of an input outside of the domain, and
/// otherwise the folded outcome, or a refused allocation of `dim` elements.
pub open spec fn is_fold<C: Real>(
    weights: Seq<C>,
    embeddings: Seq<Seq<C>>,
    coverages: Seq<Binary64>,
    dim: usize,
    slack: C,
    r: Result<Vec<C>, WinditError>,
) -> bool {
    match domain::input_error(embeddings, coverages, dim) {
        Some(e) => r == Err::<Vec<C>, WinditError>(e),
        None => {
            ||| dim > 0 && r == Err::<Vec<C>, WinditError>(
                WinditError::AllocFailed { elements: dim },
            )
            ||| is_outcome(folded(weights, embeddings, dim as nat, slack), r)
        },
    }
}

/// The weights of a fold, one for each window.
pub enum Weighting<'a, C> {
    /// Every window weighs one.
    Uniform,
    /// Every window weighs its coverage, lifted by `2^shift` and divided by the largest.
    Coverage {
        /// The coverages of the windows.
        coverages: &'a [Binary64],
        /// The largest of them.
        largest: Binary64,
        /// The exponent of the common lift.
        shift: i32,
    },
    /// The weights as given.
    Given(&'a [C]),
}

/// The weight of a coverage: its lifted quotient by the largest, and zero where every
/// coverage is zero.
pub open spec fn coverage_weight<C: Real>(c: Binary64, largest: Binary64, shift: i32) -> C {
    if (Binary64 { bits: 0 }).below(largest) {
        C::spec_from_f64(c.scaled(shift).over(largest))
    } else {
        C::spec_zero()
    }
}

impl<'a, C: Real> Weighting<'a, C> {
    /// The weights of the first `n` windows.
    pub open spec fn weights(self, n: nat) -> Seq<C> {
        match self {
            Weighting::Uniform => Seq::new(n, |i: int| C::spec_one()),
            Weighting::Coverage { coverages, largest, shift } => Seq::new(
                n,
                |i: int| coverage_weight(coverages@[i], largest, shift),
            ),
            Weighting::Given(weights) => weights@.take(n as int),
        }
    }

    /// Whether there is a weight for each of `n` windows.
    pub open spec fn covers(self, n: nat) -> bool {
        match self {
            Weighting::Uniform => true,
            Weighting::Coverage { coverages, .. } => coverages@.len() == n,
            Weighting::Given(weights) => weights@.len() == n,
        }
    }

    /// The weight of window `i`.
    fn weight(&self, i: usize, Ghost(n): Ghost<nat>) -> (r: C)
        requires
            self.covers(n),
            i < n,
        ensures
            r == self.weights(n)[i as int],
    {
        match self {
            Weighting::Uniform => C::one(),
            Weighting::Coverage { coverages, largest, shift } => {
                if (Binary64 { bits: 0 }).below(*largest) {
                    C::from_f64(coverages[i].scaled(*shift).over(*largest))
                } else {
                    C::zero()
                }
            },
            Weighting::Given(weights) => weights[i],
        }
    }
}

/// A vector that can hold `n` elements, or [`WinditError::AllocFailed`] where the
/// allocator cannot provide the space. Room for nothing is not asked for.
pub fn try_vec_with_capacity<T>(n: usize) -> (r: Result<Vec<T>, WinditError>)
    ensures
        match r {
            Ok(v) => v@ == Seq::<T>::empty(),
            Err(e) => e == (WinditError::AllocFailed { elements: n }),
        },
        n == 0 ==> r is Ok,
{
    let mut v: Vec<T> = Vec::new();
    if n == 0 {
        return Ok(v);
    }
    match v.try_reserve(n) {
        Ok(()) => Ok(v),
        Err(_) => Err(WinditError::AllocFailed { elements: n }),
    }
}

/// A vector of `dim` zeros, or [`WinditError::AllocFailed`].
pub fn try_zeroed<C: Real>(dim: usize) -> (r: Result<Vec<C>, WinditError>)
    ensures
        match r {
            Ok(v) => v@ == Seq::new(dim as nat, |j: int| C::spec_zero()),
            Err(e) => e == (WinditError::AllocFailed { elements: dim }),
        },
        dim == 0 ==> r is Ok,
{
    let mut v: Vec<C> = match try_vec_with_capacity(dim) {
        Ok(v) => v,
        Err(e) => {
            return Err(e);
        },
    };
    let mut j: usize = 0;
    while j < dim
        invariant
            j <= dim,
            v@ == Seq::new(j as nat, |j: int| C::spec_zero()),
        decreases dim - j,
    {
        v.push(C::zero());
        j = j + 1;
        assert(v@ =~= Seq::new(j as nat, |j: int| C::spec_zero()));
    }
    Ok(v)
}

/// Add `term` into the running sum `acc` with its compensation `comp`.
pub fn neumaier_add<C: Real>(acc: &mut C, comp: &mut C, term: C)
    ensures
        *final(acc) == old(acc).spec_plus(term),
        *final(comp) == old(comp).spec_plus(lost(*old(acc), term)),
{
    let sum: C = acc.plus(term);
    let rest: C = if acc.abs().at_least(term.abs()) {
        acc.minus(sum).plus(term)
    } else {
        term.minus(sum).plus(*acc)
    };
    *comp = comp.plus(rest);
    *acc = sum;
}

/// Fold one window into the running sums.
fn add_window<C: Real>(
    acc: &mut Vec<C>,
    comp: &mut Vec<C>,
    mag: &mut Vec<C>,
    w: C,
    emb: &[C],
)
    requires
        old(acc)@.len() == old(comp)@.len() == old(mag)@.len() == emb@.len(),
    ensures
        final(acc)@.len() == final(comp)@.len() == final(mag)@.len() == emb@.len(),
        forall|j: int|
            0 <= j < emb@.len() ==> (#[trigger] final(acc)@[j]) == old(acc)@[j].spec_plus(
                w.spec_times(emb@[j]),
            ),
        forall|j: int|
            0 <= j < emb@.len() ==> (#[trigger] final(comp)@[j]) == old(comp)@[j].spec_plus(
                lost(old(acc)@[j], w.spec_times(emb@[j])),
            ),
        forall|j: int|
            0 <= j < emb@.len() ==> (#[trigger] final(mag)@[j]) == old(mag)@[j].spec_plus(
                w.spec_times(emb@[j]).spec_abs(),
            ),
{
    let ghost (a, c, m) = (acc@, comp@, mag@);
    let mut j: usize = 0;
    while j < emb.len()
        invariant
            j <= emb@.len(),
            a.len() == c.len() == m.len() == emb@.len(),
            acc@.len() == comp@.len() == mag@.len() == emb@.len(),
            forall|k: int|
                0 <= k < j ==> (#[trigger] acc@[k]) == a[k].spec_plus(w.spec_times(emb@[k])),
            forall|k: int|
                0 <= k < j ==> (#[trigger] comp@[k]) == c[k].spec_plus(
                    lost(a[k], w.spec_times(emb@[k])),
                ),
            forall|k: int|
                0 <= k < j ==> (#[trigger] mag@[k]) == m[k].spec_plus(
                    w.spec_times(emb@[k]).spec_abs(),
                ),
            forall|k: int| j <= k < emb@.len() ==> #[trigger] acc@[k] == a[k],
            forall|k: int| j <= k < emb@.len() ==> #[trigger] comp@[k] == c[k],
            forall|k: int| j <= k < emb@.len() ==> #[trigger] mag@[k] == m[k],
        decreases emb@.len() - j,
    {
        let term: C = w.times(emb[j]);
        let mut sum: C = acc[j];
        let mut rest: C = comp[j];
        neumaier_add(&mut sum, &mut rest, term);
        let mass: C = mag[j].plus(term.abs());
        acc.set(j, sum);
        comp.set(j, rest);
        mag.set(j, mass);
        j = j + 1;
    }
}

/// Fold an input inside the domain into sums that start at zero.
///
/// The weighted sum of the windows is accumulated in `acc` and compensated in `comp`, and
/// the magnitudes of its terms are added up in `mag`. The sum is then held against its own
/// rounding floor and normalized.
pub fn fold_into<C: Real>(
    embeddings: &[&[C]],
    dim: usize,
    weighting: Weighting<C>,
    slack: C,
    acc: Vec<C>,
    comp: Vec<C>,
    mag: Vec<C>,
) -> (r: Result<Vec<C>, WinditError>)
    requires
        weighting.covers(embeddings@.len()),
        forall|i: int|
            0 <= i < embeddings@.len() ==> (#[trigger] vectors(embeddings@)[i]).len() == dim,
        acc@ == Seq::new(dim as nat, |j: int| C::spec_zero()),
        comp@ == Seq::new(dim as nat, |j: int| C::spec_zero()),
        mag@ == Seq::new(dim as nat, |j: int| C::spec_zero()),
    ensures
        is_outcome(
            folded(
                weighting.weights(embeddings@.len()),
                vectors(embeddings@),
                dim as nat,
                slack,
            ),
            r,
        ),
{
    let ghost embs = vectors(embeddings@);
    let ghost n = embeddings@.len();
    let ghost weights = weighting.weights(n);
    let mut acc = acc;
    let mut comp = comp;
    let mut mag = mag;
    let mut i: usize = 0;
    while i < embeddings.len()
        invariant
            i <= n == embeddings@.len(),
            embs == vectors(embeddings@),
            weights == weighting.weights(n),
            weighting.covers(n),
            forall|j: int| 0 <= j < n ==> (#[trigger] embs[j]).len() == dim,
            acc@.len() == comp@.len() == mag@.len() == dim,
            forall|j: int|
                0 <= j < dim ==> #[trigger] acc@[j] == column(weights, embs, j, i as nat).acc,
            forall|j: int|
                0 <= j < dim ==> #[trigger] comp@[j] == column(weights, embs, j, i as nat).comp,
            forall|j: int|
                0 <= j < dim ==> #[trigger] mag@[j] == column(weights, embs, j, i as nat).mag,
        decreases n - i,
    {
        let w: C = weighting.weight(i, Ghost(n));
        let emb: &[C] = embeddings[i];
        assert(embs[i as int] == emb@);
        add_window(&mut acc, &mut comp, &mut mag, w, emb);
        i = i + 1;
    }
    let mut j: usize = 0;
    while j < dim
        invariant
            j <= dim,
            acc@.len() == comp@.len() == dim,
            forall|k: int|
                0 <= k < j ==> #[trigger] acc@[k] == weighted_sum(weights, embs, dim as nat)[k],
            forall|k: int|
                j <= k < dim ==> #[trigger] acc@[k] == column(weights, embs, k, embs.len()).acc,
            forall|k: int|
                0 <= k < dim ==> #[trigger] comp@[k] == column(weights, embs, k, embs.len()).comp,
        decreases dim - j,
    {
        let total: C = acc[j].plus(comp[j]);
        acc.set(j, total);
        j = j + 1;
    }
    proof {
        assert(acc@ =~= weighted_sum(weights, embs, dim as nat));
        assert(mag@ =~= masses(weights, embs, dim as nat));
    }
    let tau: C = C::from_f32(Binary32 { bits: 0x4180_0000 }).times(C::epsilon()).times(
        l2_norm(mag.as_slice()),
    ).plus(C::min_gate_threshold()).plus(slack);
    if tau.at_least(l2_norm(acc.as_slice())) {
        return Err(WinditError::NonFinite);
    }
    match l2_renorm(&mut acc) {
        Ok(()) => Ok(acc),
        Err(e) => Err(e),
    }
}

/// Check the input, then accumulate the weighted sum of the windows, hold it against its
/// own rounding floor, and normalize it.
///
/// `slack` is what the policy owes the threshold for the formation of its weights. What is
/// returned once the sums are allocated is said by [`fold_into`].
pub fn weighted_sum_renorm<C: Real>(
    embeddings: &[&[C]],
    coverages: &[Binary64],
    dim: usize,
    weighting: Weighting<C>,
    slack: C,
) -> (r: Result<Vec<C>, WinditError>)
    requires
        coverages@.len() == embeddings@.len() ==> weighting.covers(embeddings@.len()),
    ensures
        is_fold(
            weighting.weights(embeddings@.len()),
            vectors(embeddings@),
            coverages@,
            dim,
            slack,
            r,
        ),
{
    match check_inputs(embeddings, coverages, dim) {
        Ok(()) => {},
        Err(e) => {
            return Err(e);
        },
    }
    proof {
        domain::lemma_lengths(vectors(embeddings@), coverages@, dim, 0);
    }
    let acc: Vec<C> = match try_zeroed(dim) {
        Ok(v) => v,
        Err(e) => {
            return Err(e);
        },
    };
    let comp: Vec<C> = match try_zeroed(dim) {
        Ok(v) => v,
        Err(e) => {
            return Err(e);
        },
    };
    let mag: Vec<C> = match try_zeroed(dim) {
        Ok(v) => v,
        Err(e) => {
            return Err(e);
        },
    };
    fold_into(embeddings, dim, weighting, slack, acc, comp, mag)
}

} // verus!
