//! Relative closeness of nonnegative integers.
use vstd::arithmetic::mul::{lemma_mul_inequality, lemma_mul_inequality_converse};
use vstd::prelude::*;

use crate::exact::size;
use crate::roundoff::PRECISION;

verus! {

/// Whether `a` is within one part in `k` of `b`.
pub open spec fn close(a: nat, b: nat, k: nat) -> bool {
    size(a - b) * k <= b
}

/// The size of a product with a nonnegative number.
pub proof fn lemma_size_times(a: int, b: nat)
    ensures
        size(a * b) == size(a) * b,
{
    assert((-a) * b == -(a * b)) by (nonlinear_arith);
    if a < 0 {
        lemma_mul_inequality(a, 0, b as int);
    } else {
        lemma_mul_inequality(0, a, b as int);
    }
}

/// Closeness adds up.
pub proof fn closeness_adds_up(a: nat, b: nat, c: nat, k: nat)
    requires
        k > 0,
        close(a, b, 4 * k),
        close(b, c, 4 * k),
    ensures
        close(a, c, k),
{
    let (x, y, z) = (size(a - b), size(b - c), size(a - c));
    assert(x * (4 * k) == 4 * (x * k) && y * (4 * k) == 4 * (y * k)) by (nonlinear_arith);
    assert(y <= y * k) by (nonlinear_arith)
        requires
            k >= 1,
    ;
    assert(z * k <= x * k + y * k) by (nonlinear_arith)
        requires
            z <= x + y,
    ;
}

/// A common factor keeps closeness.
pub proof fn closeness_scales(a: nat, b: nat, k: nat, g: nat)
    requires
        close(a, b, k),
    ensures
        close(a * g, b * g, k),
{
    let x = size(a - b);
    assert((a - b) * g == a * g - b * g) by (nonlinear_arith);
    lemma_size_times(a - b, g);
    lemma_mul_inequality((x * k) as int, b as int, g as int);
    assert((x * k) * g == (x * g) * k) by (nonlinear_arith);
}

/// A common factor can be left out.
pub proof fn closeness_cancels(a: nat, b: nat, k: nat, g: nat)
    requires
        g > 0,
        close(a * g, b * g, k),
    ensures
        close(a, b, k),
{
    let x = size(a - b);
    assert((a - b) * g == a * g - b * g) by (nonlinear_arith);
    lemma_size_times(a - b, g);
    assert((x * k) * g == (x * g) * k) by (nonlinear_arith);
    lemma_mul_inequality_converse((x * k) as int, b as int, g as int);
}

/// Squares of close numbers are close.
pub proof fn squares_stay_close(a: nat, b: nat, k: nat)
    requires
        k > 0,
        close(a, b, 4 * k),
    ensures
        close(a * a, b * b, k),
{
    let x = size(a - b);
    assert(x * (4 * k) == 4 * (x * k)) by (nonlinear_arith);
    assert(x <= x * k) by (nonlinear_arith)
        requires
            k >= 1,
    ;
    assert(x <= b && a + b <= 3 * b);
    assert(a * a - b * b == (a - b) * (a + b)) by (nonlinear_arith);
    lemma_size_times(a - b, a + b);
    assert((x * (a + b)) * k == (x * k) * (a + b)) by (nonlinear_arith);
    let y = x * k;
    assert(y * (a + b) <= y * (3 * b)) by (nonlinear_arith)
        requires
            a + b <= 3 * b,
    ;
    assert((4 * y) * b <= b * b) by (nonlinear_arith)
        requires
            4 * y <= b,
    ;
    assert(y * (3 * b) <= (4 * y) * b) by (nonlinear_arith);
}

/// Closeness to the first of two numbers is closeness to the second.
pub proof fn closeness_turns_around(a: nat, b: nat, k: nat)
    requires
        k > 0,
        close(b, a, 2 * k),
    ensures
        close(a, b, k),
{
    let x = size(a - b);
    assert(size(b - a) == x);
    assert(x * (2 * k) == 2 * (x * k)) by (nonlinear_arith);
    assert(x <= x * k) by (nonlinear_arith)
        requires
            k >= 1,
    ;
}

/// Closeness to a smaller part is closeness to a larger one.
pub proof fn closeness_weakens(a: nat, b: nat, k: nat, l: nat)
    requires
        l <= k,
        close(a, b, k),
    ensures
        close(a, b, l),
{
    lemma_mul_inequality(l as int, k as int, size(a - b) as int);
    assert(l * size(a - b) == size(a - b) * l && k * size(a - b) == size(a - b) * k)
        by (nonlinear_arith);
}

/// Whether `a` is within `k` half units of roundoff of `b`.
pub open spec fn near(a: nat, b: nat, k: nat) -> bool {
    size(a - b) * PRECISION <= k * b
}

/// Nearness adds up, with one half unit more for the errors of the errors.
pub proof fn nearness_adds_up(a: nat, b: nat, c: nat, j: nat, k: nat)
    requires
        near(a, b, j),
        near(b, c, k),
        j * k <= PRECISION,
    ensures
        near(a, c, j + k + 1),
{
    let p = PRECISION as nat;
    let (x, y) = (size(a - b), size(b - c));
    assert(j * b <= j * (c + y)) by (nonlinear_arith)
        requires
            b <= c + y,
    ;
    assert(j * (c + y) == j * c + j * y) by (nonlinear_arith);
    assert((j * y) * p <= p * c) by (nonlinear_arith)
        requires
            y * p <= k * c,
            j * k <= p,
    ;
    lemma_mul_inequality_converse((j * y) as int, c as int, p as int);
    assert(size(a - c) * p <= (x + y) * p) by (nonlinear_arith)
        requires
            size(a - c) <= x + y,
    ;
    assert((x + y) * p == x * p + y * p) by (nonlinear_arith);
    assert((j + k + 1) * c == j * c + k * c + c) by (nonlinear_arith);
}

/// A common factor keeps nearness.
pub proof fn nearness_scales(a: nat, b: nat, k: nat, g: nat)
    requires
        near(a, b, k),
    ensures
        near(a * g, b * g, k),
{
    let x = size(a - b);
    assert((a - b) * g == a * g - b * g) by (nonlinear_arith);
    lemma_size_times(a - b, g);
    lemma_mul_inequality((x * PRECISION) as int, (k * b) as int, g as int);
    assert((x * PRECISION) * g == (x * g) * PRECISION && (k * b) * g == k * (b * g))
        by (nonlinear_arith);
}

/// A common factor can be left out of nearness.
pub proof fn nearness_cancels(a: nat, b: nat, k: nat, g: nat)
    requires
        g > 0,
        near(a * g, b * g, k),
    ensures
        near(a, b, k),
{
    let x = size(a - b);
    assert((a - b) * g == a * g - b * g) by (nonlinear_arith);
    lemma_size_times(a - b, g);
    assert((x * g) * PRECISION == (x * PRECISION) * g && k * (b * g) == (k * b) * g)
        by (nonlinear_arith);
    lemma_mul_inequality_converse((x * PRECISION) as int, (k * b) as int, g as int);
}

/// Squares of numbers within two half units are within five.
pub proof fn nearness_squares(a: nat, b: nat)
    requires
        near(a, b, 2),
    ensures
        near(a * a, b * b, 5),
{
    let p = PRECISION as nat;
    let x = size(a - b);
    assert(2 * x <= b && a + b <= 2 * b + x);
    assert(a * a - b * b == (a - b) * (a + b)) by (nonlinear_arith);
    lemma_size_times(a - b, a + b);
    assert((x * (a + b)) * p <= (2 * b) * (a + b)) by (nonlinear_arith)
        requires
            x * p <= 2 * b,
    ;
    assert((2 * b) * (a + b) <= (2 * b) * (2 * b + x)) by (nonlinear_arith)
        requires
            a + b <= 2 * b + x,
    ;
    assert((2 * b) * (2 * b + x) == 4 * (b * b) + b * (2 * x)) by (nonlinear_arith);
    assert(b * (2 * x) <= b * b) by (nonlinear_arith)
        requires
            2 * x <= b,
    ;
}

} // verus!
