//! The numbers that the engine computes with.
//!
//! The engine does not compute on numbers itself. It is written for any
//! type of number that brings the arithmetic below, and says of each result
//! only by which of these operations it was made, from which operands and
//! in which order. A complex number is a pair of two such numbers, its real
//! part first.

use vstd::prelude::*;

verus! {

/// A type of real numbers, with the arithmetic of the complex numbers whose
/// parts are of this type.
pub trait Scalar: Copy {
    /// The number zero.
    fn zero() -> Self;

    /// The number one.
    fn one() -> Self;

    /// Whether the number differs from zero.
    fn nonzero(self) -> bool;

    /// Whether the number equals `other`.
    fn equal(self, other: Self) -> bool;

    /// Whether the number is less than `other`.
    fn less(self, other: Self) -> bool;

    /// The sum of two numbers.
    fn sum(self, other: Self) -> Self;

    /// The number less `other`.
    fn difference(self, other: Self) -> Self;

    /// The product of two numbers.
    fn product(self, other: Self) -> Self;

    /// The number divided by `other`.
    fn quotient(self, other: Self) -> Self;

    /// Half the number.
    fn half(self) -> Self;

    /// The sum of two complex numbers.
    fn plus(a: (Self, Self), b: (Self, Self)) -> (Self, Self);

    /// The difference of two complex numbers.
    fn minus(a: (Self, Self), b: (Self, Self)) -> (Self, Self);

    /// The product of two complex numbers.
    fn times(a: (Self, Self), b: (Self, Self)) -> (Self, Self);

    /// The quotient of two complex numbers.
    fn over(a: (Self, Self), b: (Self, Self)) -> (Self, Self);

    /// The product of a complex number and a real number.
    fn scale(a: (Self, Self), by: Self) -> (Self, Self);

    /// The quotient of a complex number and a real number.
    fn unscale(a: (Self, Self), by: Self) -> (Self, Self);

    /// The product of a complex number and a count.
    fn magnify(a: (Self, Self), by: usize) -> (Self, Self);

    /// The squared magnitude of a complex number.
    fn norm_sqr(a: (Self, Self)) -> Self;
}

/// `x` was made by `Scalar::zero`.
pub open spec fn is_zero<T: Scalar>(x: T) -> bool {
    call_ensures(T::zero, (), x)
}

/// `x` was made by `Scalar::one`.
pub open spec fn is_one<T: Scalar>(x: T) -> bool {
    call_ensures(T::one, (), x)
}

/// `z` is the complex number zero: both parts were made by `Scalar::zero`.
pub open spec fn is_origin<T: Scalar>(z: (T, T)) -> bool {
    is_zero(z.0) && is_zero(z.1)
}

/// `z` is the complex number one: its real part was made by `Scalar::one`
/// and its imaginary part by `Scalar::zero`.
pub open spec fn is_unit<T: Scalar>(z: (T, T)) -> bool {
    is_one(z.0) && is_zero(z.1)
}

/// `Scalar::nonzero` gave `flag` for `x`.
pub open spec fn tells_nonzero<T: Scalar>(x: T, flag: bool) -> bool {
    call_ensures(T::nonzero, (x,), flag)
}

/// `Scalar::equal` gave `flag` for `x` and `y`.
pub open spec fn tells_equal<T: Scalar>(x: T, y: T, flag: bool) -> bool {
    call_ensures(T::equal, (x, y), flag)
}

/// `Scalar::less` gave `flag` for `x` and `y`.
pub open spec fn tells_less<T: Scalar>(x: T, y: T, flag: bool) -> bool {
    call_ensures(T::less, (x, y), flag)
}

/// `r` was made by `Scalar::sum` from `x` and `y`.
pub open spec fn is_real_sum<T: Scalar>(x: T, y: T, r: T) -> bool {
    call_ensures(T::sum, (x, y), r)
}

/// `r` was made by `Scalar::difference` from `x` and `y`.
pub open spec fn is_real_difference<T: Scalar>(x: T, y: T, r: T) -> bool {
    call_ensures(T::difference, (x, y), r)
}

/// `r` was made by `Scalar::product` from `x` and `y`.
pub open spec fn is_real_product<T: Scalar>(x: T, y: T, r: T) -> bool {
    call_ensures(T::product, (x, y), r)
}

/// `r` was made by `Scalar::quotient` from `x` and `y`.
pub open spec fn is_real_quotient<T: Scalar>(x: T, y: T, r: T) -> bool {
    call_ensures(T::quotient, (x, y), r)
}

/// `r` was made by `Scalar::half` from `x`.
pub open spec fn is_half<T: Scalar>(x: T, r: T) -> bool {
    call_ensures(T::half, (x,), r)
}

/// `r` was made by `Scalar::plus` from `a` and `b`.
pub open spec fn is_sum<T: Scalar>(a: (T, T), b: (T, T), r: (T, T)) -> bool {
    call_ensures(T::plus, (a, b), r)
}

/// `r` was made by `Scalar::minus` from `a` and `b`.
pub open spec fn is_difference<T: Scalar>(a: (T, T), b: (T, T), r: (T, T)) -> bool {
    call_ensures(T::minus, (a, b), r)
}

/// `r` was made by `Scalar::times` from `a` and `b`.
pub open spec fn is_product<T: Scalar>(a: (T, T), b: (T, T), r: (T, T)) -> bool {
    call_ensures(T::times, (a, b), r)
}

/// `r` was made by `Scalar::over` from `a` and `b`.
pub open spec fn is_quotient<T: Scalar>(a: (T, T), b: (T, T), r: (T, T)) -> bool {
    call_ensures(T::over, (a, b), r)
}

/// `r` was made by `Scalar::scale` from `a` and `by`.
pub open spec fn is_scaled<T: Scalar>(a: (T, T), by: T, r: (T, T)) -> bool {
    call_ensures(T::scale, (a, by), r)
}

/// `r` was made by `Scalar::unscale` from `a` and `by`.
pub open spec fn is_unscaled<T: Scalar>(a: (T, T), by: T, r: (T, T)) -> bool {
    call_ensures(T::unscale, (a, by), r)
}

/// `r` was made by `Scalar::magnify` from `a` and `by`.
pub open spec fn is_magnified<T: Scalar>(a: (T, T), by: usize, r: (T, T)) -> bool {
    call_ensures(T::magnify, (a, by), r)
}

/// `r` was made by `Scalar::norm_sqr` from `a`.
pub open spec fn is_norm_sqr<T: Scalar>(a: (T, T), r: T) -> bool {
    call_ensures(T::norm_sqr, (a,), r)
}

/// `flag` tells whether the squared magnitude of `z` is less than `bound`:
/// `Scalar::norm_sqr` gave a number for `z`, and `Scalar::less` gave `flag`
/// for that number and `bound`.
pub open spec fn tells_within<T: Scalar>(z: (T, T), bound: T, flag: bool) -> bool {
    exists|norm: T| #[trigger] is_norm_sqr(z, norm) && tells_less(norm, bound, flag)
}

/// Makes the complex number zero.
pub fn origin<T: Scalar>() -> (z: (T, T))
    ensures
        is_origin(z),
{
    (T::zero(), T::zero())
}

/// Makes the complex number one.
pub fn unit<T: Scalar>() -> (z: (T, T))
    ensures
        is_unit(z),
{
    (T::one(), T::zero())
}

} // verus!
