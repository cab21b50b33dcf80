//! The arithmetic that clustering runs on.
//!
//! How numbers are added, divided and measured against each other is for the
//! implementor of these traits to say; nothing is taken for granted of it, not
//! even that a call gives the same answer twice. What the library promises of
//! its own results is stated over what the calls gave: an `..._outcome`
//! predicate holds of a value that the calls it describes may have produced.

use arrow_array::FixedSizeListArray;
use vstd::prelude::*;

use crate::float::{Float32, Float64};

verus! {

/// Arithmetic on single and double precision numbers.
pub trait FloatArithmetic {
    /// `a + b`.
    fn single_add(a: Float32, b: Float32) -> Float32;

    /// `a - b`.
    fn single_sub(a: Float32, b: Float32) -> Float32;

    /// `a / b`.
    fn single_div(a: Float32, b: Float32) -> Float32;

    /// `a` raised to the power `n`.
    fn single_powi(a: Float32, n: i32) -> Float32;

    /// The square root of `a`.
    fn single_sqrt(a: Float32) -> Float32;

    /// The number closest to `n`.
    fn single_from_usize(n: usize) -> Float32;

    /// The same number in double precision.
    fn double_from_single(a: Float32) -> Float64;

    /// The double precision number closest to `n`.
    fn double_from_usize(n: usize) -> Float64;

    /// `a + b`.
    fn double_add(a: Float64, b: Float64) -> Float64;

    /// `a - b`.
    fn double_sub(a: Float64, b: Float64) -> Float64;

    /// `a / b`.
    fn double_div(a: Float64, b: Float64) -> Float64;
}

/// A number type that vectors are made of, with the distances between vectors.
pub trait ArrowFloatType: FloatArithmetic + Sized {
    /// A coordinate of a vector.
    type Native: Copy;

    /// Zero.
    fn zero() -> Self::Native;

    /// `a + b`.
    fn plus(a: Self::Native, b: Self::Native) -> Self::Native;

    /// `a / b`.
    fn over(a: Self::Native, b: Self::Native) -> Self::Native;

    /// The number closest to `n`.
    fn from_u64(n: u64) -> Self::Native;

    /// The squared Euclidean distance of two vectors.
    fn l2(x: &[Self::Native], y: &[Self::Native]) -> Float32;

    /// The distance of two vectors by their inner product.
    fn dot_distance(x: &[Self::Native], y: &[Self::Native]) -> Float32;

    /// The Euclidean length of a vector.
    fn norm_l2(x: &[Self::Native]) -> Float32;

    /// The cosine distance of two vectors; the length of the first is known.
    fn cosine_fast(x: &[Self::Native], x_norm: Float32, y: &[Self::Native]) -> Float32;

    /// The cosine distance of two vectors; the lengths of both are known.
    fn cosine_with_norms(
        x: &[Self::Native],
        x_norm: Float32,
        y_norm: Float32,
        y: &[Self::Native],
    ) -> Float32;

    /// All coordinates of the vectors in a list, one vector after the other;
    /// `None` where the list holds coordinates of another type.
    fn list_values(list: &FixedSizeListArray) -> Option<Vec<Self::Native>>;
}

/// `d` is what [`ArrowFloatType::l2`] may give for the vectors.
pub open spec fn l2_outcome<T: ArrowFloatType>(
    x: Seq<T::Native>,
    y: Seq<T::Native>,
    d: Float32,
) -> bool {
    exists|a: &[T::Native], b: &[T::Native]|
        a@ == x && b@ == y && #[trigger] call_ensures(T::l2, (a, b), d)
}

/// `d` is what [`ArrowFloatType::dot_distance`] may give for the vectors.
pub open spec fn dot_outcome<T: ArrowFloatType>(
    x: Seq<T::Native>,
    y: Seq<T::Native>,
    d: Float32,
) -> bool {
    exists|a: &[T::Native], b: &[T::Native]|
        a@ == x && b@ == y && #[trigger] call_ensures(T::dot_distance, (a, b), d)
}

/// `d` is what [`ArrowFloatType::norm_l2`] may give for the vector.
pub open spec fn norm_outcome<T: ArrowFloatType>(x: Seq<T::Native>, d: Float32) -> bool {
    exists|a: &[T::Native]| a@ == x && #[trigger] call_ensures(T::norm_l2, (a,), d)
}

/// `d` is what [`ArrowFloatType::cosine_fast`] may give for the vectors.
pub open spec fn cosine_fast_outcome<T: ArrowFloatType>(
    x: Seq<T::Native>,
    x_norm: Float32,
    y: Seq<T::Native>,
    d: Float32,
) -> bool {
    exists|a: &[T::Native], b: &[T::Native]|
        a@ == x && b@ == y && #[trigger] call_ensures(T::cosine_fast, (a, x_norm, b), d)
}

/// `d` is what [`ArrowFloatType::cosine_with_norms`] may give for the vectors.
pub open spec fn cosine_with_norms_outcome<T: ArrowFloatType>(
    x: Seq<T::Native>,
    x_norm: Float32,
    y_norm: Float32,
    y: Seq<T::Native>,
    d: Float32,
) -> bool {
    exists|a: &[T::Native], b: &[T::Native]|
        a@ == x && b@ == y && #[trigger] call_ensures(
            T::cosine_with_norms,
            (a, x_norm, y_norm, b),
            d,
        )
}

/// `r` is what adding up the numbers one by one, from zero, may give.
pub open spec fn sum_outcome<T: ArrowFloatType>(terms: Seq<T::Native>, r: T::Native) -> bool
    decreases terms.len(),
{
    if terms.len() == 0 {
        call_ensures(T::zero, (), r)
    } else {
        exists|s: T::Native|
            sum_outcome::<T>(terms.drop_last(), s) && #[trigger] call_ensures(
                T::plus,
                (s, terms.last()),
                r,
            )
    }
}

/// `r` is what adding up single precision numbers one by one, from zero, may
/// give.
pub open spec fn single_sum_outcome<T: FloatArithmetic>(terms: Seq<Float32>, r: Float32) -> bool
    decreases terms.len(),
{
    if terms.len() == 0 {
        r == Float32::spec_zero()
    } else {
        exists|s: Float32|
            single_sum_outcome::<T>(terms.drop_last(), s) && #[trigger] call_ensures(
                T::single_add,
                (s, terms.last()),
                r,
            )
    }
}

/// `r` is what adding up double precision numbers one by one, from zero, may
/// give.
pub open spec fn double_sum_outcome<T: FloatArithmetic>(terms: Seq<Float64>, r: Float64) -> bool
    decreases terms.len(),
{
    if terms.len() == 0 {
        r == Float64::spec_zero()
    } else {
        exists|s: Float64|
            double_sum_outcome::<T>(terms.drop_last(), s) && #[trigger] call_ensures(
                T::double_add,
                (s, terms.last()),
                r,
            )
    }
}

} // verus!
