//! The value of a leaf and the gain of a split, from the sums of the gradients
//! and of the hessians of the samples in a node.
//!
//! With `g` the sum of the gradients, `h` the sum of the hessians and `l2` the
//! strength of the L2 regularisation, the loss of a leaf with value `w` is
//! `g * w + (h + l2) * w * w / 2`, up to a constant. It is least at
//! `w = -g / (h + l2)`, where it is `-g * g / (h + l2) / 2`. The gain is minus
//! twice the loss, so that a greater gain is a better leaf.

use crate::numeric::{
    above, at_most, below, exact_add, exact_div, exact_mul, exact_neg, exact_order, may_add,
    may_divide, may_multiply, may_negate, negation_of, ordered_pair, product_of, quotient_of,
    sum_of, total_add, total_div, total_mul, total_neg,
};
use core::ops::{Add, Div, Mul, Neg};
use vstd::prelude::*;

verus! {

/// How the prediction may depend on a feature.
#[derive(Clone, Copy, Debug, PartialEq, Eq)]
pub enum Constraint {
    /// The prediction does not fall as the feature grows.
    Positive,
    /// The prediction does not rise as the feature grows.
    Negative,
    /// The prediction may depend on the feature in any way.
    Unconstrained,
}

/// A monotonic constraint is in force.
pub open spec fn is_active(constraint: Option<&Constraint>) -> bool {
    match constraint {
        None => false,
        Some(Constraint::Unconstrained) => false,
        Some(_) => true,
    }
}

/// The value of a leaf that minimises the loss: `-(g / (h + l2))`.
pub open spec fn weight_spec<T: Add<Output = T> + Div<Output = T> + Neg<Output = T>>(
    l2: T,
    gradient_sum: T,
    hessian_sum: T,
) -> T {
    negation_of(quotient_of(gradient_sum, sum_of(hessian_sum, l2)))
}

/// The gain of a leaf at its best value: `(g * g) / (h + l2)`.
pub open spec fn gain_spec<T: Add<Output = T> + Mul<Output = T> + Div<Output = T>>(
    l2: T,
    gradient_sum: T,
    hessian_sum: T,
) -> T {
    quotient_of(product_of(gradient_sum, gradient_sum), sum_of(hessian_sum, l2))
}

/// The gain of a leaf that is held at the value `w`:
/// `-((g + g) * w + (h + l2) * (w * w))`. Twice the sum of the gradients is
/// formed as `g + g`, which in binary floating point is `2 * g` to the bit.
pub open spec fn gain_given_weight_spec<T: Add<Output = T> + Mul<Output = T> + Neg<Output = T>>(
    l2: T,
    gradient_sum: T,
    hessian_sum: T,
    weight: T,
) -> T {
    negation_of(
        sum_of(
            product_of(sum_of(gradient_sum, gradient_sum), weight),
            product_of(sum_of(hessian_sum, l2), product_of(weight, weight)),
        ),
    )
}

/// The leaf weight can be computed: its arithmetic is total, or it is exact and
/// the sum, the quotient and the negation that the weight takes may be formed.
pub open spec fn weight_defined<T: Add<Output = T> + Div<Output = T> + Neg<Output = T>>(
    l2: T,
    gradient_sum: T,
    hessian_sum: T,
) -> bool {
    ||| total_add::<T>() && total_div::<T>() && total_neg::<T>()
    ||| {
        &&& exact_weight::<T>()
        &&& may_add(hessian_sum, l2)
        &&& may_divide(gradient_sum, sum_of(hessian_sum, l2))
        &&& may_negate(quotient_of(gradient_sum, sum_of(hessian_sum, l2)))
    }
}

/// The arithmetic of the gain returns what its model says.
pub open spec fn exact_gain<T: Add<Output = T> + Mul<Output = T> + Div<Output = T>>() -> bool {
    exact_add::<T>() && exact_mul::<T>() && exact_div::<T>()
}

/// The gain can be computed: its arithmetic is total, or it is exact and the
/// square, the sum and the quotient that the gain takes may be formed.
pub open spec fn gain_defined<T: Add<Output = T> + Mul<Output = T> + Div<Output = T>>(
    l2: T,
    gradient_sum: T,
    hessian_sum: T,
) -> bool {
    ||| total_add::<T>() && total_mul::<T>() && total_div::<T>()
    ||| {
        &&& exact_gain::<T>()
        &&& may_multiply(gradient_sum, gradient_sum)
        &&& may_add(hessian_sum, l2)
        &&& may_divide(product_of(gradient_sum, gradient_sum), sum_of(hessian_sum, l2))
    }
}

/// The arithmetic of the gain at a given weight returns what its model says.
pub open spec fn exact_gain_given_weight<
    T: Add<Output = T> + Mul<Output = T> + Neg<Output = T>,
>() -> bool {
    exact_add::<T>() && exact_mul::<T>() && exact_neg::<T>()
}

/// The gain at a given weight can be computed: its arithmetic is total, or it is
/// exact and each sum, each product and the negation that the gain takes may be
/// formed.
pub open spec fn gain_given_weight_defined<
    T: Add<Output = T> + Mul<Output = T> + Neg<Output = T>,
>(l2: T, gradient_sum: T, hessian_sum: T, weight: T) -> bool {
    ||| total_add::<T>() && total_mul::<T>() && total_neg::<T>()
    ||| {
        let twice = sum_of(gradient_sum, gradient_sum);
        let linear = product_of(twice, weight);
        let curvature = sum_of(hessian_sum, l2);
        let square = product_of(weight, weight);
        let quadratic = product_of(curvature, square);
        &&& exact_gain_given_weight::<T>()
        &&& may_add(gradient_sum, gradient_sum)
        &&& may_multiply(twice, weight)
        &&& may_add(hessian_sum, l2)
        &&& may_multiply(weight, weight)
        &&& may_multiply(curvature, square)
        &&& may_add(linear, quadratic)
        &&& may_negate(sum_of(linear, quadratic))
    }
}

/// A weight brought into the bounds: the upper bound where the weight is above
/// it, else the lower bound where the weight is below it, else the weight.
pub open spec fn clamped<T: PartialOrd>(weight: T, lower_bound: T, upper_bound: T) -> T {
    if above(weight, upper_bound) {
        upper_bound
    } else if below(weight, lower_bound) {
        lower_bound
    } else {
        weight
    }
}

/// The bounds are numbers in order: each is at most itself, which a NaN is not,
/// and the lower is at most the upper.
pub open spec fn valid_bounds<T: PartialOrd>(lower_bound: T, upper_bound: T) -> bool {
    &&& at_most(lower_bound, lower_bound)
    &&& at_most(upper_bound, upper_bound)
    &&& at_most(lower_bound, upper_bound)
}

/// The weights of the two children run against the direction that the
/// constraint asks for: the left above the right under a positive constraint,
/// the left below the right under a negative one.
pub open spec fn violates<T: PartialOrd>(
    constraint: Option<&Constraint>,
    left_weight: T,
    right_weight: T,
) -> bool {
    match constraint {
        Some(Constraint::Positive) => above(left_weight, right_weight),
        Some(Constraint::Negative) => below(left_weight, right_weight),
        _ => false,
    }
}

/// The arithmetic of the leaf weight returns what its model says.
pub open spec fn exact_weight<T: Add<Output = T> + Div<Output = T> + Neg<Output = T>>() -> bool {
    exact_add::<T>() && exact_div::<T>() && exact_neg::<T>()
}

/// The value of a leaf that minimises the regularised loss, from the sums of
/// the gradients and hessians of its samples.
#[inline]
pub fn weight<T: Copy + Add<Output = T> + Div<Output = T> + Neg<Output = T>>(
    l2: &T,
    gradient_sum: T,
    hessian_sum: T,
) -> (w: T)
    requires
        weight_defined(*l2, gradient_sum, hessian_sum),
    ensures
        exact_weight::<T>() ==> w == weight_spec(*l2, gradient_sum, hessian_sum),
{
    (gradient_sum / (hessian_sum + *l2)).neg()
}

/// The gain that a node contributes when its samples form a leaf of their own
/// at the best value.
#[inline]
pub fn gain<T: Copy + Add<Output = T> + Mul<Output = T> + Div<Output = T>>(
    l2: &T,
    gradient_sum: T,
    hessian_sum: T,
) -> (gain: T)
    requires
        gain_defined(*l2, gradient_sum, hessian_sum),
    ensures
        exact_gain::<T>() ==> gain == gain_spec(*l2, gradient_sum, hessian_sum),
{
    (gradient_sum * gradient_sum) / (hessian_sum + *l2)
}

/// The gain that a node contributes when its leaf is held at a given value, as
/// it is when a monotonic constraint has clamped the best value.
#[inline]
pub fn gain_given_weight<T: Copy + Add<Output = T> + Mul<Output = T> + Neg<Output = T>>(
    l2: &T,
    gradient_sum: T,
    hessian_sum: T,
    weight: T,
) -> (gain: T)
    requires
        gain_given_weight_defined(*l2, gradient_sum, hessian_sum, weight),
    ensures
        exact_gain_given_weight::<T>() ==> gain == gain_given_weight_spec(
            *l2,
            gradient_sum,
            hessian_sum,
            weight,
        ),
{
    ((gradient_sum + gradient_sum) * weight + (hessian_sum + *l2) * (weight * weight)).neg()
}

/// The value of a leaf under a constraint: the best value, brought into the
/// bounds where a monotonic constraint is in force.
///
/// Without a constraint, or with [`Constraint::Unconstrained`], the bounds are
/// not looked at and the best value is returned as it is.
#[inline]
pub fn constrained_weight<
    T: Copy + PartialOrd + Add<Output = T> + Div<Output = T> + Neg<Output = T>,
>(
    l2: &T,
    gradient_sum: T,
    hessian_sum: T,
    lower_bound: T,
    upper_bound: T,
    constraint: Option<&Constraint>,
) -> (w: T)
    requires
        weight_defined(*l2, gradient_sum, hessian_sum),
    ensures
        exact_weight::<T>() && !is_active(constraint) ==> w == weight_spec(
            *l2,
            gradient_sum,
            hessian_sum,
        ),
        exact_weight::<T>() && exact_order::<T>() && is_active(constraint) ==> w == clamped(
            weight_spec(*l2, gradient_sum, hessian_sum),
            lower_bound,
            upper_bound,
        ),
        exact_weight::<T>() && exact_order::<T>() && is_active(constraint) && valid_bounds(
            lower_bound,
            upper_bound,
        ) && ordered_pair(weight_spec(*l2, gradient_sum, hessian_sum), lower_bound) && ordered_pair(
            weight_spec(*l2, gradient_sum, hessian_sum),
            upper_bound,
        ) ==> at_most(lower_bound, w) && at_most(w, upper_bound),
{
    let weight = weight(l2, gradient_sum, hessian_sum);
    match constraint {
        None | Some(Constraint::Unconstrained) => weight,
        _ => {
            if weight > upper_bound {
                upper_bound
            } else if weight < lower_bound {
                lower_bound
            } else {
                weight
            }
        },
    }
}

/// A clamped weight lies within the bounds: it is at least the lower bound and
/// at most the upper bound, where the bounds are numbers in order and the weight
/// stands in the order with both of them.
pub proof fn lemma_clamped_within_bounds<T: PartialOrd>(weight: T, lower_bound: T, upper_bound: T)
    requires
        valid_bounds(lower_bound, upper_bound),
        ordered_pair(weight, lower_bound),
        ordered_pair(weight, upper_bound),
    ensures
        at_most(lower_bound, clamped(weight, lower_bound, upper_bound)),
        at_most(clamped(weight, lower_bound, upper_bound), upper_bound),
{
}

/// Culls the gain of a split whose children would break a monotonic
/// constraint: `None` where the weights of the children run against the
/// constraint, and the gain as it is in every other case.
///
/// A culled gain stands for a split that must never be chosen; a caller that
/// ranks gains as numbers puts negative infinity in its place.
#[inline]
pub fn cull_gain<T: PartialOrd>(
    gain: T,
    left_weight: T,
    right_weight: T,
    constraint: Option<&Constraint>,
) -> (kept: Option<T>)
    ensures
        exact_order::<T>() ==> kept == if violates(constraint, left_weight, right_weight) {
            None
        } else {
            Some(gain)
        },
        !is_active(constraint) ==> kept == Some(gain),
        kept is None || kept == Some(gain),
{
    match constraint {
        None | Some(Constraint::Unconstrained) => Some(gain),
        Some(Constraint::Negative) => {
            if left_weight < right_weight {
                None
            } else {
                Some(gain)
            }
        },
        Some(Constraint::Positive) => {
            if left_weight > right_weight {
                None
            } else {
                Some(gain)
            }
        },
    }
}

} // verus!
