//! Assignment-style arithmetic: `x += y`, `x -= y`, `x *= y` and `x /= y`,
//! each returning the updated value.

use vstd::prelude::*;

verus! {

/// Arithmetic that updates the receiver in place and hands the new value
/// back, so that one expression can both change and read a counter.
pub trait OperationsExtension: Sized + Copy {
    type Output;

    /// When the sum stays in range.
    spec fn addition_in_range(self, other: Self) -> bool;

    /// The sum.
    spec fn addition_value(self, other: Self) -> Self;

    /// When the difference stays in range.
    spec fn subtraction_in_range(self, other: Self) -> bool;

    /// The difference.
    spec fn subtraction_value(self, other: Self) -> Self;

    /// When the product stays in range.
    spec fn multiply_in_range(self, other: Self) -> bool;

    /// The product.
    spec fn multiply_value(self, other: Self) -> Self;

    /// When the quotient exists and stays in range.
    spec fn divide_in_range(self, other: Self) -> bool;

    /// The quotient, truncated toward zero.
    spec fn divide_value(self, other: Self) -> Self;

    /// `x += y`: adds `other` in place and returns the new value.
    fn addition(&mut self, other: Self) -> (r: Self)
        requires
            old(self).addition_in_range(other),
        ensures
            *final(self) == old(self).addition_value(other),
            r == *final(self),
    ;

    /// `x -= y`: subtracts `other` in place and returns the new value.
    fn subtraction(&mut self, other: Self) -> (r: Self)
        requires
            old(self).subtraction_in_range(other),
        ensures
            *final(self) == old(self).subtraction_value(other),
            r == *final(self),
    ;

    /// `x *= y`: multiplies by `other` in place and returns the new value.
    fn multiply(&mut self, other: Self) -> (r: Self)
        requires
            old(self).multiply_in_range(other),
        ensures
            *final(self) == old(self).multiply_value(other),
            r == *final(self),
    ;

    /// `x /= y`: divides by `other` in place and returns the new value.
    fn divide(&mut self, other: Self) -> (r: Self)
        requires
            old(self).divide_in_range(other),
        ensures
            *final(self) == old(self).divide_value(other),
            r == *final(self),
    ;
}

impl OperationsExtension for u64 {
    type Output = u64;

    open spec fn addition_in_range(self, other: u64) -> bool {
        self + other <= u64::MAX
    }

    open spec fn addition_value(self, other: u64) -> u64 {
        (self + other) as u64
    }

    open spec fn subtraction_in_range(self, other: u64) -> bool {
        other <= self
    }

    open spec fn subtraction_value(self, other: u64) -> u64 {
        (self - other) as u64
    }

    open spec fn multiply_in_range(self, other: u64) -> bool {
        self * other <= u64::MAX
    }

    open spec fn multiply_value(self, other: u64) -> u64 {
        (self * other) as u64
    }

    open spec fn divide_in_range(self, other: u64) -> bool {
        other != 0
    }

    open spec fn divide_value(self, other: u64) -> u64 {
        (self / other) as u64
    }

    fn addition(&mut self, other: u64) -> (r: u64) {
        *self = *self + other;
        *self
    }

    fn subtraction(&mut self, other: u64) -> (r: u64) {
        *self = *self - other;
        *self
    }

    fn multiply(&mut self, other: u64) -> (r: u64) {
        *self = *self * other;
        *self
    }

    fn divide(&mut self, other: u64) -> (r: u64) {
        *self = *self / other;
        *self
    }
}

impl OperationsExtension for i64 {
    type Output = i64;

    open spec fn addition_in_range(self, other: i64) -> bool {
        i64::MIN <= self + other <= i64::MAX
    }

    open spec fn addition_value(self, other: i64) -> i64 {
        (self + other) as i64
    }

    open spec fn subtraction_in_range(self, other: i64) -> bool {
        i64::MIN <= self - other <= i64::MAX
    }

    open spec fn subtraction_value(self, other: i64) -> i64 {
        (self - other) as i64
    }

    open spec fn multiply_in_range(self, other: i64) -> bool {
        i64::MIN <= self * other <= i64::MAX
    }

    open spec fn multiply_value(self, other: i64) -> i64 {
        (self * other) as i64
    }

    open spec fn divide_in_range(self, other: i64) -> bool {
        other != 0 && !(self == i64::MIN && other == -1)
    }

    open spec fn divide_value(self, other: i64) -> i64 {
        if self >= 0 {
            (self / other) as i64
        } else {
            (-((-self) / (other as int))) as i64
        }
    }

    fn addition(&mut self, other: i64) -> (r: i64) {
        *self = *self + other;
        *self
    }

    fn subtraction(&mut self, other: i64) -> (r: i64) {
        *self = *self - other;
        *self
    }

    fn multiply(&mut self, other: i64) -> (r: i64) {
        *self = *self * other;
        *self
    }

    fn divide(&mut self, other: i64) -> (r: i64) {
        *self = *self / other;
        *self
    }
}

} // verus!
