//! The error of a fold as a vector.
use vstd::prelude::*;

use crate::aggregate::accuracy::{self, exact_mass, ideal_sum, round_ideals, tame, FEW};
use crate::aggregate::fold::weighted_sum;
use crate::binary::Binary64;
use crate::close::lemma_size_times;
use crate::exact::size;
use crate::roundoff::PRECISION;
use crate::triangle::{self, square_sum};

verus! {

/// The exact masses of the terms of all dimensions.
pub open spec fn exact_masses(
    weights: Seq<Binary64>,
    embeddings: Seq<Seq<Binary64>>,
    dim: nat,
) -> Seq<int> {
    Seq::new(dim, |j: int| exact_mass(weights, embeddings, j, embeddings.len()) as int)
}

/// How far the fold is from the exact weighted sum in every dimension, times the denominator
/// of the weights and `2^53`.
pub open spec fn errors(
    weights: Seq<Binary64>,
    ideal: Seq<nat>,
    denominator: nat,
    embeddings: Seq<Seq<Binary64>>,
    dim: nat,
) -> Seq<int> {
    Seq::new(
        dim,
        |j: int|
            (weighted_sum(weights, embeddings, dim)[j].value() * denominator - ideal_sum(
                ideal,
                embeddings,
                j,
                embeddings.len(),
            )) * PRECISION,
    )
}

/// A vector that is no larger in any component is no longer.
pub proof fn lemma_no_longer(x: Seq<int>, y: Seq<int>)
    requires
        x.len() == y.len(),
        forall|i: int| 0 <= i < x.len() ==> size(#[trigger] x[i]) <= y[i],
    ensures
        square_sum(x) <= square_sum(y),
    decreases x.len(),
{
    if x.len() > 0 {
        let (a, b) = (x.drop_last(), y.drop_last());
        assert forall|i: int| 0 <= i < a.len() implies size(#[trigger] a[i]) <= b[i] by {
            assert(a[i] == x[i] && b[i] == y[i]);
        }
        lemma_no_longer(a, b);
        let (p, q) = (x.last(), y.last());
        assert(x[x.len() - 1] == p && y[x.len() - 1] == q);
        assert(p * p <= q * q) by (nonlinear_arith)
            requires
                -q <= p <= q,
        ;
    }
}

/// The length of a vector of equal components.
pub proof fn lemma_equal_components(c: nat, dim: nat, side: nat)
    requires
        dim <= side * side,
    ensures
        square_sum(Seq::new(dim, |j: int| c as int)) <= (c * side) * (c * side),
{
    lemma_equal_squares(c, dim);
    assert(dim * (c * c) <= (c * side) * (c * side)) by (nonlinear_arith)
        requires
            dim <= side * side,
    ;
}

/// The sum of the squares of equal components.
proof fn lemma_equal_squares(c: nat, dim: nat)
    ensures
        square_sum(Seq::new(dim, |j: int| c as int)) == dim * (c * c),
    decreases dim,
{
    let v = Seq::new(dim, |j: int| c as int);
    if dim == 0 {
        assert(0 * (c * c) == 0) by (nonlinear_arith);
    } else {
        let k = (dim - 1) as nat;
        lemma_equal_squares(c, k);
        assert(v.drop_last() =~= Seq::new(k, |j: int| c as int));
        assert(k * (c * c) + c * c == dim * (c * c)) by (nonlinear_arith)
            requires
                dim == k + 1,
        ;
    }
}

/// The fold is accurate as a vector: with `mass` a bound on the length of the vector of
/// masses and `side` one on the root of the dimension, it is within four units of roundoff of
/// `mass`, and `side` least positive numbers for each window, of the exact weighted sum.
pub proof fn the_sum_is_accurate(
    weights: Seq<Binary64>,
    ideal: Seq<nat>,
    denominator: nat,
    embeddings: Seq<Seq<Binary64>>,
    dim: nat,
    mass: nat,
    side: nat,
)
    requires
        embeddings.len() == weights.len() <= FEW,
        round_ideals(weights, ideal, denominator),
        forall|j: int| 0 <= j < dim ==> #[trigger] tame(weights, embeddings, j),
        square_sum(exact_masses(weights, embeddings, dim)) <= mass * mass,
        dim <= side * side,
    ensures
        ({
            let bound = denominator * (8 * mass + embeddings.len() * PRECISION * side);
            square_sum(errors(weights, ideal, denominator, embeddings, dim)) <= bound * bound
        }),
{
    let n = embeddings.len();
    let p = PRECISION as nat;
    let e = errors(weights, ideal, denominator, embeddings, dim);
    let m = exact_masses(weights, embeddings, dim);
    let (f, c) = (8 * denominator, denominator * (n * p));
    let x = Seq::new(m.len(), |j: int| f * m[j]);
    let y = Seq::new(dim, |j: int| c as int);
    let both = triangle::combined(x, y, 1, 1);
    assert forall|j: int| 0 <= j < e.len() implies size(#[trigger] e[j]) <= both[j] by {
        assert(tame(weights, embeddings, j));
        accuracy::the_fold_is_accurate(weights, ideal, denominator, embeddings, dim, j);
        let r = weighted_sum(weights, embeddings, dim)[j].value();
        lemma_size_times(r * denominator - ideal_sum(ideal, embeddings, j, n), p);
        let k = exact_mass(weights, embeddings, j, n);
        assert(denominator * (8 * k + n * p) == f * k + c) by (nonlinear_arith)
            requires
                f == 8 * denominator,
                c == denominator * (n * p),
        ;
        assert(both[j] == 1 * x[j] + 1 * y[j]);
    }
    lemma_no_longer(e, both);
    triangle::lengths_scale(m, f as int);
    let s = square_sum(m);
    assert(f * f * s <= (f * mass) * (f * mass)) by (nonlinear_arith)
        requires
            s <= mass * mass,
    ;
    lemma_equal_components(c, dim, side);
    triangle::lengths_add_up(x, y, f * mass, c * side);
    assert(f * mass + c * side == denominator * (8 * mass + n * p * side)) by (nonlinear_arith)
        requires
            f == 8 * denominator,
            c == denominator * (n * p),
    ;
}

} // verus!
