//! The numeric type that a network's weights, biases and activations are
//! written in.

use vstd::prelude::*;

use crate::random::Random;

verus! {

/// Arithmetic on the values a network holds. The library never looks inside
/// such a value: it copies values, places them, and combines them only
/// through these operations. Each deterministic operation is a function of
/// its arguments, named by the `spec_` function beside it; `uniform` draws
/// from the random source and is named by nothing.
pub trait Scalar: Copy + Sized {
    /// The value `0`.
    spec fn spec_zero() -> Self;

    /// `self + other`.
    spec fn spec_plus(self, other: Self) -> Self;

    /// `self * other`.
    spec fn spec_times(self, other: Self) -> Self;

    /// `self / 2`.
    spec fn spec_halve(self) -> Self;

    /// The logistic function `1 / (1 + e^-self)`.
    spec fn spec_sigmoid(self) -> Self;

    /// The value `0`.
    fn zero() -> (r: Self)
        ensures
            r == Self::spec_zero(),
    ;

    /// The value `numerator / denominator`.
    fn ratio(numerator: i32, denominator: u32) -> Self
        requires
            denominator > 0,
    ;

    /// A uniform draw from `[low, high)`.
    fn uniform(random: &mut Random, low: Self, high: Self) -> Self;

    /// `self + other`.
    fn plus(self, other: Self) -> (r: Self)
        ensures
            r == self.spec_plus(other),
    ;

    /// `self * other`.
    fn times(self, other: Self) -> (r: Self)
        ensures
            r == self.spec_times(other),
    ;

    /// `self / 2`.
    fn halve(self) -> (r: Self)
        ensures
            r == self.spec_halve(),
    ;

    /// The logistic function `1 / (1 + e^-self)`.
    fn sigmoid(self) -> (r: Self)
        ensures
            r == self.spec_sigmoid(),
    ;
}

} // verus!
