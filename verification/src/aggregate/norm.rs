//! Norms and directions of vectors.
//!
//! A norm is taken against the vector's own power-of-two scale, so that the sum of
//! squares never leaves the compute domain even where the norm itself would.
use vstd::prelude::*;

use crate::error::WinditError;
use crate::scalar::{equal_values, Real};

verus! {

/// The largest magnitude of `v`, and zero for an empty one. What is not a number never
/// becomes the largest.
pub open spec fn largest<C: Real>(v: Seq<C>) -> C
    decreases v.len(),
{
    if v.len() == 0 {
        C::spec_zero()
    } else {
        let rest = largest(v.drop_last());
        let m = v.last().spec_abs();
        if rest.spec_below(m) {
            m
        } else {
            rest
        }
    }
}

/// The smallest nonzero magnitude of `v`, and zero where there is none. What is not a
/// number never becomes the smallest.
pub open spec fn smallest<C: Real>(v: Seq<C>) -> C
    decreases v.len(),
{
    if v.len() == 0 {
        C::spec_zero()
    } else {
        let rest = smallest(v.drop_last());
        let m = v.last().spec_abs();
        if C::spec_zero().spec_below(m) && (equal_values(rest, C::spec_zero()) || m.spec_below(
            rest,
        )) {
            m
        } else {
            rest
        }
    }
}

/// The exponent of the largest magnitude of `v`: none where `v` is all zero or has an
/// infinite component.
pub open spec fn scale_of<C: Real>(v: Seq<C>) -> Option<i32> {
    let m = largest(v);
    if equal_values(m, C::spec_zero()) || !m.spec_is_finite() {
        None
    } else {
        Some(m.spec_exponent())
    }
}

/// The sum of the squares of `v` divided by `scale`, added up in order.
pub open spec fn squares<C: Real>(v: Seq<C>, scale: C) -> C
    decreases v.len(),
{
    if v.len() == 0 {
        C::spec_zero()
    } else {
        let ratio = v.last().spec_over(scale);
        squares(v.drop_last(), scale).spec_plus(ratio.spec_times(ratio))
    }
}

/// The power of two that a vector with the scale exponent `exp` is divided by.
pub open spec fn unit_of_scale<C: Real>(exp: i32) -> C {
    C::spec_one().spec_ldexp(exp)
}

/// The L2 norm of `v`. A vector without a scale has its largest magnitude for a norm.
pub open spec fn norm<C: Real>(v: Seq<C>) -> C {
    match scale_of(v) {
        None => largest(v),
        Some(exp) => squares(v, unit_of_scale(exp)).spec_sqrt().spec_ldexp(exp),
    }
}

/// The norm of `v` with its scale divided out.
pub open spec fn scaled_norm<C: Real>(v: Seq<C>, exp: i32) -> C {
    squares(v, unit_of_scale(exp)).spec_sqrt()
}

/// `v` normalized to unit L2 length: an error where `v` is all zero or has a component
/// that is not finite.
pub open spec fn direction<C: Real>(v: Seq<C>) -> Result<Seq<C>, WinditError> {
    match scale_of(v) {
        None => Err(WinditError::NonFinite),
        Some(exp) => if scaled_norm(v, exp).spec_is_finite() {
            Ok(
                Seq::new(
                    v.len(),
                    |i: int| v[i].spec_over(unit_of_scale(exp)).spec_over(scaled_norm(v, exp)),
                ),
            )
        } else {
            Err(WinditError::NonFinite)
        },
    }
}

/// Whether two values are equal as numbers; false where either is not one.
pub fn equals<C: Real>(x: C, y: C) -> (r: bool)
    ensures
        r == equal_values(x, y),
{
    x.at_least(y) && y.at_least(x)
}

/// The largest absolute component of `v`, or zero for an empty one.
pub fn max_magnitude<C: Real>(v: &[C]) -> (r: C)
    ensures
        r == largest(v@),
{
    let mut max: C = C::zero();
    let mut i: usize = 0;
    while i < v.len()
        invariant
            i <= v@.len(),
            max == largest(v@.take(i as int)),
        decreases v@.len() - i,
    {
        let m: C = v[i].abs();
        proof {
            assert(v@.take(i + 1).drop_last() =~= v@.take(i as int));
        }
        if max.below(m) {
            max = m;
        }
        i = i + 1;
    }
    assert(v@.take(i as int) =~= v@);
    max
}

/// The smallest nonzero absolute component of `v`, or zero where there is none.
pub fn min_positive_magnitude<C: Real>(v: &[C]) -> (r: C)
    ensures
        r == smallest(v@),
{
    let mut min: C = C::zero();
    let mut i: usize = 0;
    while i < v.len()
        invariant
            i <= v@.len(),
            min == smallest(v@.take(i as int)),
        decreases v@.len() - i,
    {
        let m: C = v[i].abs();
        proof {
            assert(v@.take(i + 1).drop_last() =~= v@.take(i as int));
        }
        if C::zero().below(m) && (equals(min, C::zero()) || m.below(min)) {
            min = m;
        }
        i = i + 1;
    }
    assert(v@.take(i as int) =~= v@);
    min
}

/// The exponent of the power of two that a reduction over `v` divides by: that of its
/// largest component.
///
/// `None` where `v` is empty or all zero, or has an infinite component.
pub fn scale_exponent<C: Real>(v: &[C]) -> (r: Option<i32>)
    ensures
        r == scale_of(v@),
{
    let m: C = max_magnitude(v);
    if equals(m, C::zero()) || !m.is_finite() {
        return None;
    }
    Some(m.exponent())
}

/// `sum_i (v_i / 2^exp)^2`, as a left fold from zero.
pub fn scaled_sum_of_squares<C: Real>(v: &[C], exp: i32) -> (r: C)
    ensures
        r == squares(v@, unit_of_scale(exp)),
{
    let scale: C = C::one().ldexp(exp);
    let mut sum: C = C::zero();
    let mut i: usize = 0;
    while i < v.len()
        invariant
            i <= v@.len(),
            scale == unit_of_scale::<C>(exp),
            sum == squares(v@.take(i as int), scale),
        decreases v@.len() - i,
    {
        let r: C = v[i].over(scale);
        proof {
            assert(v@.take(i + 1).drop_last() =~= v@.take(i as int));
        }
        sum = sum.plus(r.times(r));
        i = i + 1;
    }
    assert(v@.take(i as int) =~= v@);
    sum
}

/// The L2 norm of `v`.
pub fn l2_norm<C: Real>(v: &[C]) -> (r: C)
    ensures
        r == norm(v@),
{
    match scale_exponent(v) {
        None => max_magnitude(v),
        Some(exp) => scaled_sum_of_squares(v, exp).sqrt().ldexp(exp),
    }
}

/// Normalize `v` to unit L2 length in place. A vector that has no direction is left as it
/// was.
pub fn l2_renorm<C: Real>(v: &mut Vec<C>) -> (r: Result<(), WinditError>)
    ensures
        match direction(old(v)@) {
            Ok(unit) => r is Ok && final(v)@ == unit,
            Err(e) => r == Err::<(), WinditError>(e) && final(v)@ == old(v)@,
        },
{
    let exp: i32 = match scale_exponent(v.as_slice()) {
        None => {
            return Err(WinditError::NonFinite);
        },
        Some(exp) => exp,
    };
    let scale: C = C::one().ldexp(exp);
    let unit: C = scaled_sum_of_squares(v.as_slice(), exp).sqrt();
    if !unit.is_finite() {
        return Err(WinditError::NonFinite);
    }
    let ghost before = v@;
    let mut i: usize = 0;
    while i < v.len()
        invariant
            i <= v@.len() == before.len(),
            scale == unit_of_scale::<C>(exp),
            unit == scaled_norm(before, exp),
            forall|j: int|
                0 <= j < i ==> #[trigger] v@[j] == before[j].spec_over(scale).spec_over(unit),
            forall|j: int| i <= j < before.len() ==> #[trigger] v@[j] == before[j],
        decreases v@.len() - i,
    {
        let x: C = v[i].over(scale).over(unit);
        v.set(i, x);
        i = i + 1;
    }
    assert(v@ =~= direction(before)->Ok_0);
    Ok(())
}

} // verus!
