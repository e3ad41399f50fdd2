//! Lengths of vectors of integers, and the triangle inequality.
use vstd::arithmetic::mul::lemma_mul_inequality_converse;
use vstd::prelude::*;

use crate::exact::size;

verus! {

/// The sum of the squares of the components.
pub open spec fn square_sum(v: Seq<int>) -> int
    decreases v.len(),
{
    if v.len() == 0 {
        0
    } else {
        square_sum(v.drop_last()) + v.last() * v.last()
    }
}

/// The inner product of two vectors of one length.
pub open spec fn inner(x: Seq<int>, y: Seq<int>) -> int
    decreases x.len(),
{
    if x.len() == 0 {
        0
    } else {
        inner(x.drop_last(), y.drop_last()) + x.last() * y.last()
    }
}

/// The combination `s * x + t * y`.
pub open spec fn combined(x: Seq<int>, y: Seq<int>, s: int, t: int) -> Seq<int> {
    Seq::new(x.len(), |i: int| s * x[i] + t * y[i])
}

/// A sum of squares is not negative.
pub proof fn square_sums_are_not_negative(v: Seq<int>)
    ensures
        square_sum(v) >= 0,
    decreases v.len(),
{
    if v.len() > 0 {
        square_sums_are_not_negative(v.drop_last());
        let x = v.last();
        assert(x * x >= 0) by (nonlinear_arith);
    }
}

/// The square of a combination.
pub proof fn square_of_a_combination(x: Seq<int>, y: Seq<int>, s: int, t: int)
    requires
        x.len() == y.len(),
    ensures
        square_sum(combined(x, y, s, t)) == s * s * square_sum(x) + 2 * (s * t * inner(x, y)) + t
            * t * square_sum(y),
    decreases x.len(),
{
    let v = combined(x, y, s, t);
    if x.len() == 0 {
        assert(s * s * 0 == 0 && s * t * 0 == 0 && t * t * 0 == 0) by (nonlinear_arith);
    } else {
        let (x0, y0) = (x.drop_last(), y.drop_last());
        square_of_a_combination(x0, y0, s, t);
        assert(v.drop_last() =~= combined(x0, y0, s, t));
        let (a, b) = (x.last(), y.last());
        assert(v.last() == s * a + t * b);
        let (p, q, r) = (square_sum(x0), inner(x0, y0), square_sum(y0));
        let (u, w) = (s * a, t * b);
        assert((u + w) * (u + w) == u * u + 2 * (u * w) + w * w) by (nonlinear_arith);
        assert((s * a) * (s * a) == s * s * (a * a)) by (nonlinear_arith);
        assert((s * a) * (t * b) == s * t * (a * b)) by (nonlinear_arith);
        assert((t * b) * (t * b) == t * t * (b * b)) by (nonlinear_arith);
        assert(s * s * (p + a * a) == s * s * p + s * s * (a * a)) by (nonlinear_arith);
        assert(s * t * (q + a * b) == s * t * q + s * t * (a * b)) by (nonlinear_arith);
        assert(t * t * (r + b * b) == t * t * r + t * t * (b * b)) by (nonlinear_arith);
    }
}

/// A vector without length has no inner product with another.
proof fn lemma_no_length(x: Seq<int>, y: Seq<int>)
    requires
        x.len() == y.len(),
        square_sum(y) == 0,
    ensures
        inner(x, y) == 0,
    decreases x.len(),
{
    if x.len() > 0 {
        let (x0, y0) = (x.drop_last(), y.drop_last());
        square_sums_are_not_negative(y0);
        let b = y.last();
        assert(b * b >= 0) by (nonlinear_arith);
        assert(b == 0) by (nonlinear_arith)
            requires
                b * b <= 0,
        ;
        let a = x.last();
        assert(a * 0 == 0) by (nonlinear_arith);
        lemma_no_length(x0, y0);
    }
}

/// The inequality of Cauchy and Schwarz.
pub proof fn inner_products_are_bounded(x: Seq<int>, y: Seq<int>)
    requires
        x.len() == y.len(),
    ensures
        inner(x, y) * inner(x, y) <= square_sum(x) * square_sum(y),
{
    let (p, q, r) = (square_sum(x), inner(x, y), square_sum(y));
    square_sums_are_not_negative(y);
    if r == 0 {
        lemma_no_length(x, y);
        assert(p * 0 == 0) by (nonlinear_arith);
    } else {
        square_of_a_combination(x, y, r, -q);
        square_sums_are_not_negative(combined(x, y, r, -q));
        assert(r * r * p + 2 * (r * (-q) * q) + (-q) * (-q) * r == (p * r - q * q) * r)
            by (nonlinear_arith);
        lemma_mul_inequality_converse(0, p * r - q * q, r);
    }
}

/// A square is at most another one only where the number is at most the other in size.
proof fn lemma_root_order(x: int, y: nat)
    requires
        x * x <= y * y,
    ensures
        x <= y,
{
    if x > y {
        assert(x * x > y * y) by (nonlinear_arith)
            requires
                x > y,
                y >= 0,
        ;
    }
}

/// The triangle inequality, for bounds on the lengths.
pub proof fn lengths_add_up(x: Seq<int>, y: Seq<int>, a: nat, b: nat)
    requires
        x.len() == y.len(),
        square_sum(x) <= a * a,
        square_sum(y) <= b * b,
    ensures
        square_sum(combined(x, y, 1, 1)) <= (a + b) * (a + b),
{
    let (p, q, r) = (square_sum(x), inner(x, y), square_sum(y));
    square_of_a_combination(x, y, 1, 1);
    inner_products_are_bounded(x, y);
    square_sums_are_not_negative(x);
    square_sums_are_not_negative(y);
    vstd::arithmetic::mul::lemma_mul_upper_bound(p, (a * a) as int, r, (b * b) as int);
    assert((a * a) * (b * b) == (a * b) * (a * b)) by (nonlinear_arith);
    lemma_root_order(q, a * b);
    assert(1 * 1 * p == p && 1 * 1 * q == q && 1 * 1 * r == r) by (nonlinear_arith);
    assert((a + b) * (a + b) == a * a + 2 * (a * b) + b * b) by (nonlinear_arith);
}

/// The length of a multiple.
pub proof fn lengths_scale(x: Seq<int>, s: int)
    ensures
        square_sum(Seq::new(x.len(), |i: int| s * x[i])) == s * s * square_sum(x),
    decreases x.len(),
{
    let v = Seq::new(x.len(), |i: int| s * x[i]);
    if x.len() == 0 {
        assert(s * s * 0 == 0) by (nonlinear_arith);
    } else {
        let x0 = x.drop_last();
        lengths_scale(x0, s);
        assert(v.drop_last() =~= Seq::new(x0.len(), |i: int| s * x0[i]));
        let (a, p) = (x.last(), square_sum(x0));
        assert((s * a) * (s * a) == s * s * (a * a)) by (nonlinear_arith);
        assert(s * s * (p + a * a) == s * s * p + s * s * (a * a)) by (nonlinear_arith);
    }
}

/// The sum over the first `n` rows of row `i` times `factors[i]`, in column `j`.
pub open spec fn row_sum(factors: Seq<int>, rows: Seq<Seq<int>>, j: int, n: nat) -> int
    decreases n,
{
    if n == 0 {
        0
    } else {
        row_sum(factors, rows, j, (n - 1) as nat) + factors[n - 1] * rows[n - 1][j]
    }
}

/// The sum of the first `n` bounds, each times the size of its factor.
pub open spec fn length_sum(factors: Seq<int>, lengths: Seq<nat>, n: nat) -> nat
    decreases n,
{
    if n == 0 {
        0
    } else {
        length_sum(factors, lengths, (n - 1) as nat) + size(factors[n - 1]) * lengths[n - 1]
    }
}

/// A combination of vectors is no longer than the combination of their lengths.
pub proof fn combinations_are_bounded(
    factors: Seq<int>,
    rows: Seq<Seq<int>>,
    lengths: Seq<nat>,
    dim: nat,
    n: nat,
)
    requires
        n <= rows.len(),
        forall|i: int|
            0 <= i < n ==> (#[trigger] rows[i]).len() == dim && square_sum(rows[i]) <= lengths[i]
                * lengths[i],
    ensures
        square_sum(Seq::new(dim, |j: int| row_sum(factors, rows, j, n))) <= length_sum(
            factors,
            lengths,
            n,
        ) * length_sum(factors, lengths, n),
    decreases n,
{
    let v = Seq::new(dim, |j: int| row_sum(factors, rows, j, n));
    if n == 0 {
        lemma_zeros(v);
        assert(0 * 0 == 0);
    } else {
        let k = (n - 1) as nat;
        let x = Seq::new(dim, |j: int| row_sum(factors, rows, j, k));
        combinations_are_bounded(factors, rows, lengths, dim, k);
        let (f, row, l) = (factors[n - 1], rows[n - 1], lengths[n - 1]);
        assert(row.len() == dim && square_sum(row) <= l * l);
        let y = Seq::new(row.len(), |j: int| f * row[j]);
        lengths_scale(row, f);
        let s = size(f);
        assert(f * f == s * s) by {
            assert((-f) * (-f) == f * f) by (nonlinear_arith);
        }
        assert(s * s * square_sum(row) <= (s * l) * (s * l)) by (nonlinear_arith)
            requires
                square_sum(row) <= l * l,
        ;
        lengths_add_up(x, y, length_sum(factors, lengths, k), s * l);
        assert(combined(x, y, 1, 1) =~= v) by {
            assert forall|j: int| 0 <= j < dim implies 1 * x[j] + 1 * y[j] == #[trigger] v[j] by {}
        }
    }
}

/// A vector of zeros has no length.
proof fn lemma_zeros(v: Seq<int>)
    requires
        forall|j: int| 0 <= j < v.len() ==> #[trigger] v[j] == 0,
    ensures
        square_sum(v) == 0,
    decreases v.len(),
{
    if v.len() > 0 {
        assert(v[v.len() - 1] == v.last());
        let rest = v.drop_last();
        assert forall|j: int| 0 <= j < rest.len() implies #[trigger] rest[j] == 0 by {
            assert(rest[j] == v[j]);
        }
        lemma_zeros(rest);
    }
}

} // verus!
