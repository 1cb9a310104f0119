//! The numbers that attention is computed in.
use vstd::prelude::*;

verus! {

/// A number type: what the kernels ask of `f32`, `f64` and their like.
pub trait Scalar: Copy {
    /// Zero.
    fn zero() -> Self;

    /// The value below all others.
    fn neg_infinity() -> Self;

    /// What a sum of no numbers is: the value that summing starts from.
    fn empty_sum() -> Self;

    /// `self + rhs`.
    fn plus(self, rhs: Self) -> Self;

    /// `self - rhs`.
    fn minus(self, rhs: Self) -> Self;

    /// `self * rhs`.
    fn times(self, rhs: Self) -> Self;

    /// `self / rhs`.
    fn over(self, rhs: Self) -> Self;

    /// The exponential of `self`.
    fn exp(self) -> Self;

    /// `self > rhs`.
    fn exceeds(self, rhs: Self) -> bool;
}

/// What `T::zero` returns.
pub open spec fn zero<T: Scalar>() -> T {
    choose|r: T| call_ensures(T::zero, (), r)
}

/// What `T::neg_infinity` returns.
pub open spec fn neg_infinity<T: Scalar>() -> T {
    choose|r: T| call_ensures(T::neg_infinity, (), r)
}

/// What `T::empty_sum` returns.
pub open spec fn empty_sum<T: Scalar>() -> T {
    choose|r: T| call_ensures(T::empty_sum, (), r)
}

/// What `a.plus(b)` returns.
pub open spec fn plus<T: Scalar>(a: T, b: T) -> T {
    choose|r: T| call_ensures(T::plus, (a, b), r)
}

/// What `a.minus(b)` returns.
pub open spec fn minus<T: Scalar>(a: T, b: T) -> T {
    choose|r: T| call_ensures(T::minus, (a, b), r)
}

/// What `a.times(b)` returns.
pub open spec fn times<T: Scalar>(a: T, b: T) -> T {
    choose|r: T| call_ensures(T::times, (a, b), r)
}

/// What `a.over(b)` returns.
pub open spec fn over<T: Scalar>(a: T, b: T) -> T {
    choose|r: T| call_ensures(T::over, (a, b), r)
}

/// What `a.exp()` returns.
pub open spec fn exp<T: Scalar>(a: T) -> T {
    choose|r: T| call_ensures(T::exp, (a,), r)
}

/// What `a.exceeds(b)` returns.
pub open spec fn exceeds<T: Scalar>(a: T, b: T) -> bool {
    choose|r: bool| call_ensures(T::exceeds, (a, b), r)
}

/// Each operation returns one result for the same operands.
pub open spec fn functional<T: Scalar>() -> bool {
    &&& forall|r: T| call_ensures(T::zero, (), r) ==> r == zero::<T>()
    &&& forall|r: T| call_ensures(T::neg_infinity, (), r) ==> r == neg_infinity::<T>()
    &&& forall|r: T| call_ensures(T::empty_sum, (), r) ==> r == empty_sum::<T>()
    &&& forall|a: T, b: T, r: T| call_ensures(T::plus, (a, b), r) ==> r == plus(a, b)
    &&& forall|a: T, b: T, r: T| call_ensures(T::minus, (a, b), r) ==> r == minus(a, b)
    &&& forall|a: T, b: T, r: T| call_ensures(T::times, (a, b), r) ==> r == times(a, b)
    &&& forall|a: T, b: T, r: T| call_ensures(T::over, (a, b), r) ==> r == over(a, b)
    &&& forall|a: T, r: T| call_ensures(T::exp, (a,), r) ==> r == exp(a)
    &&& forall|a: T, b: T, r: bool| call_ensures(T::exceeds, (a, b), r) ==> r == exceeds(a, b)
}

/// `start` plus the numbers of `s`, added one after the other.
pub open spec fn sum_from<T: Scalar>(start: T, s: Seq<T>) -> T
    decreases s.len(),
{
    if s.len() == 0 {
        start
    } else {
        plus(sum_from(start, s.drop_last()), s.last())
    }
}

/// The products of `a` and `b`, number by number.
pub open spec fn products<T: Scalar>(a: Seq<T>, b: Seq<T>) -> Seq<T> {
    Seq::new(a.len(), |t: int| times(a[t], b[t]))
}

/// The inner product of `a` and `b`.
pub open spec fn dot<T: Scalar>(a: Seq<T>, b: Seq<T>) -> T {
    sum_from(empty_sum::<T>(), products(a, b))
}

} // verus!
