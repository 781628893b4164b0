//! What the kernels ask of the number type they work on.
//!
//! The kernels are generic over the type of a gradient, a weight or a feature
//! value. They reach its arithmetic and its order through the operator traits of
//! the standard library alone, so that a floating-point type and an exact type
//! serve alike, and they obtain the constants zero and one by conversion from a
//! small integer.
//!
//! Two things are said of a number type here. Its arithmetic is *total* when
//! every operation may be applied to every pair of values, as it may for a type
//! that rounds and has an infinity to overflow to. Its arithmetic is *exact*
//! when every operation returns what the type's model of it says, as it does
//! for the integer types, whose operations in turn may not be applied where the
//! result would not fit.
//!
//! A kernel can run where the arithmetic is total, and also where it is exact
//! and each operation that the kernel makes may be applied. It promises its
//! result, as a formula over the model, for exact types; for any other type it
//! still promises what does not depend on the outcome of the arithmetic.

use core::ops::{Add, Div, Mul, Neg};
use vstd::prelude::*;
use vstd::std_specs::cmp::{PartialEqSpec, PartialOrdIs, PartialOrdSpec};
use vstd::std_specs::convert::FromSpec;
use vstd::std_specs::ops::{AddSpec, DivSpec, MulSpec, NegSpec};

verus! {

/// The value that the small integer `n` converts to.
pub open spec fn constant<T: From<u8>>(n: u8) -> T {
    T::from_spec(n)
}

/// The additive identity of the number type.
pub open spec fn zero<T: From<u8>>() -> T {
    constant::<T>(0)
}

/// The multiplicative identity of the number type.
pub open spec fn one<T: From<u8>>() -> T {
    constant::<T>(1)
}

/// Conversion from a small integer returns what its model says.
pub open spec fn exact_constants<T: From<u8>>() -> bool {
    T::obeys_from_spec()
}

/// Any two values may be added.
pub open spec fn total_add<T: Add<Output = T>>() -> bool {
    forall|a: T, b: T| #[trigger] a.add_req(b)
}

/// Addition returns what its model says.
pub open spec fn exact_add<T: Add<Output = T>>() -> bool {
    T::obeys_add_spec()
}

/// Any two values may be multiplied.
pub open spec fn total_mul<T: Mul<Output = T>>() -> bool {
    forall|a: T, b: T| #[trigger] a.mul_req(b)
}

/// Multiplication returns what its model says.
pub open spec fn exact_mul<T: Mul<Output = T>>() -> bool {
    T::obeys_mul_spec()
}

/// Any value may be divided by any other.
pub open spec fn total_div<T: Div<Output = T>>() -> bool {
    forall|a: T, b: T| #[trigger] a.div_req(b)
}

/// Division returns what its model says.
pub open spec fn exact_div<T: Div<Output = T>>() -> bool {
    T::obeys_div_spec()
}

/// Any value may be negated.
pub open spec fn total_neg<T: Neg<Output = T>>() -> bool {
    forall|a: T| #[trigger] a.neg_req()
}

/// Negation returns what its model says.
pub open spec fn exact_neg<T: Neg<Output = T>>() -> bool {
    T::obeys_neg_spec()
}

/// Comparison by order returns what its model says.
pub open spec fn exact_order<T: PartialOrd>() -> bool {
    T::obeys_partial_cmp_spec()
}

/// Comparison for equality returns what its model says.
pub open spec fn exact_equality<T: PartialEq>() -> bool {
    T::obeys_eq_spec()
}

/// `a` is less than or equal to `b` in the order of the number type. Where one
/// of the two has no place in the order, as a NaN has none, this is false.
pub open spec fn at_most<T: PartialOrd>(a: T, b: T) -> bool {
    a.is_le(&b)
}

/// `a` is strictly less than `b` in the order of the number type.
pub open spec fn below<T: PartialOrd>(a: T, b: T) -> bool {
    a.is_lt(&b)
}

/// `a` is strictly greater than `b` in the order of the number type.
pub open spec fn above<T: PartialOrd>(a: T, b: T) -> bool {
    a.is_gt(&b)
}

/// `a` is greater than or equal to `b` in the order of the number type.
pub open spec fn at_least<T: PartialOrd>(a: T, b: T) -> bool {
    a.is_ge(&b)
}

/// `a` and `b` stand in the order of the number type, one way or the other.
pub open spec fn comparable<T: PartialOrd>(a: T, b: T) -> bool {
    a.partial_cmp_spec(&b) is Some
}

/// `a` and `b` stand in the order, and the order reads the same from either
/// side: `a` is below `b` exactly when `b` is above `a`.
pub open spec fn ordered_pair<T: PartialOrd>(a: T, b: T) -> bool {
    &&& comparable(a, b)
    &&& comparable(b, a)
    &&& below(a, b) <==> above(b, a)
    &&& above(a, b) <==> below(b, a)
}

/// The values of the sequence are totally ordered: any two of them stand in the
/// order, which reads the same from either side and carries over from one pair
/// to the next. A sequence that holds a NaN is not.
pub open spec fn totally_ordered<T: PartialOrd>(values: Seq<T>) -> bool {
    &&& forall|i: int, j: int|
        0 <= i < values.len() && 0 <= j < values.len() ==> ordered_pair(
            #[trigger] values[i],
            #[trigger] values[j],
        )
    &&& forall|i: int, j: int, k: int|
        0 <= i < values.len() && 0 <= j < values.len() && 0 <= k < values.len() && #[trigger] at_most(
            values[i],
            values[j],
        ) && #[trigger] at_most(values[j], values[k]) ==> at_most(values[i], values[k])
}

/// The order of the number type is total on its numbers: any two values that
/// are each at most themselves, as every value but a NaN is, stand in the
/// order, which reads the same from either side and carries over.
pub open spec fn total_order_on_numbers<T: PartialOrd>() -> bool {
    &&& forall|a: T, b: T| #[trigger] at_most(a, a) && #[trigger] at_most(b, b) ==> ordered_pair(a, b)
    &&& forall|a: T, b: T, c: T|
        #[trigger] at_most(a, b) && #[trigger] at_most(b, c) ==> at_most(a, c)
}

/// `a` and `b` are equal as the number type compares them.
pub open spec fn same<T: PartialEq>(a: T, b: T) -> bool {
    a.eq_spec(&b)
}

/// `a` and `b` may be added.
pub open spec fn may_add<T: Add<Output = T>>(a: T, b: T) -> bool {
    a.add_req(b)
}

/// `a` and `b` may be multiplied.
pub open spec fn may_multiply<T: Mul<Output = T>>(a: T, b: T) -> bool {
    a.mul_req(b)
}

/// `a` may be divided by `b`.
pub open spec fn may_divide<T: Div<Output = T>>(a: T, b: T) -> bool {
    a.div_req(b)
}

/// `a` may be negated.
pub open spec fn may_negate<T: Neg<Output = T>>(a: T) -> bool {
    a.neg_req()
}

/// The sum of `a` and `b` in the model of the number type.
pub open spec fn sum_of<T: Add<Output = T>>(a: T, b: T) -> T {
    a.add_spec(b)
}

/// The product of `a` and `b` in the model of the number type.
pub open spec fn product_of<T: Mul<Output = T>>(a: T, b: T) -> T {
    a.mul_spec(b)
}

/// The quotient of `a` by `b` in the model of the number type.
pub open spec fn quotient_of<T: Div<Output = T>>(a: T, b: T) -> T {
    a.div_spec(b)
}

/// The negation of `a` in the model of the number type.
pub open spec fn negation_of<T: Neg<Output = T>>(a: T) -> T {
    a.neg_spec()
}

/// The number that the small integer `n` stands for.
pub fn constant_value<T: From<u8>>(n: u8) -> (c: T)
    ensures
        exact_constants::<T>() ==> c == constant::<T>(n),
{
    T::from(n)
}

} // verus!
