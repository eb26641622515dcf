//! Helpers over `Option`: combining two optional values with an operation,
//! and filtering the digits out of an optional string.

use crate::strings::is_ascii_digit_char;
use crate::strings::StrExtension;
use vstd::prelude::*;

verus! {

/// Combines two options with `f`: `Some(f(x, y))` when both are present,
/// `None` otherwise.
pub fn combine_with<T, U, R, F: Fn(T, U) -> R>(a: Option<T>, b: Option<U>, f: F) -> (r: Option<R>)
    requires
        a is Some && b is Some ==> call_requires(f, (a->0, b->0)),
    ensures
        r is Some <==> (a is Some && b is Some),
        r is Some ==> call_ensures(f, (a->0, b->0), r->0),
{
    match (a, b) {
        (Some(x), Some(y)) => Some(f(x, y)),
        _ => None,
    }
}

/// Combines two options with addition.
pub fn combine_with_sum(a: Option<u64>, b: Option<u64>) -> (r: Option<u64>)
    requires
        a is Some && b is Some ==> a->0 + b->0 <= u64::MAX,
    ensures
        r is Some <==> (a is Some && b is Some),
        a is Some && b is Some ==> r == Some((a->0 + b->0) as u64),
{
    match (a, b) {
        (Some(x), Some(y)) => Some(x + y),
        _ => None,
    }
}

/// Combines two options with subtraction.
pub fn combine_with_sub(a: Option<u64>, b: Option<u64>) -> (r: Option<u64>)
    requires
        a is Some && b is Some ==> b->0 <= a->0,
    ensures
        r is Some <==> (a is Some && b is Some),
        a is Some && b is Some ==> r == Some((a->0 - b->0) as u64),
{
    match (a, b) {
        (Some(x), Some(y)) => Some(x - y),
        _ => None,
    }
}

/// Combines two options with multiplication.
pub fn combine_with_mul(a: Option<u64>, b: Option<u64>) -> (r: Option<u64>)
    requires
        a is Some && b is Some ==> a->0 * b->0 <= u64::MAX,
    ensures
        r is Some <==> (a is Some && b is Some),
        a is Some && b is Some ==> r == Some((a->0 * b->0) as u64),
{
    match (a, b) {
        (Some(x), Some(y)) => Some(x * y),
        _ => None,
    }
}

/// Combines two options with division.
pub fn combine_with_div(a: Option<u64>, b: Option<u64>) -> (r: Option<u64>)
    requires
        b is Some ==> b->0 != 0,
    ensures
        r is Some <==> (a is Some && b is Some),
        a is Some && b is Some ==> r == Some((a->0 / b->0) as u64),
{
    match (a, b) {
        (Some(x), Some(y)) => Some(x / y),
        _ => None,
    }
}

/// Digit filtering over an optional piece of text.
pub trait OptionExtension {
    /// The character content, where there is a value.
    spec fn text(&self) -> Option<Seq<char>>;

    /// Keeps only the ASCII decimal digits of the value: `None` where
    /// there is no value, or where no digit survives.
    fn retain_only_digits(&self) -> (r: Option<String>)
        ensures
            ({
                match self.text() {
                    Option::None => r is None,
                    Option::Some(s) => {
                        let digits = s.filter(|c: char| is_ascii_digit_char(c));
                        if digits.len() == 0 {
                            r is None
                        } else {
                            r matches Some(d) && d@ == digits
                        }
                    },
                }
            }),
    ;
}

impl OptionExtension for Option<String> {
    open spec fn text(&self) -> Option<Seq<char>> {
        match self {
            Option::Some(s) => Option::Some(s@),
            Option::None => Option::None,
        }
    }

    fn retain_only_digits(&self) -> (r: Option<String>) {
        match self {
            Option::Some(s) => {
                let digits = s.as_str().remove_non_digits();
                if digits.as_str().unicode_len() == 0 {
                    None
                } else {
                    Some(digits)
                }
            },
            Option::None => None,
        }
    }
}

impl<'a> OptionExtension for Option<&'a str> {
    open spec fn text(&self) -> Option<Seq<char>> {
        match self {
            Option::Some(s) => Option::Some(s@),
            Option::None => Option::None,
        }
    }

    fn retain_only_digits(&self) -> (r: Option<String>) {
        match self {
            Option::Some(s) => {
                let digits = s.remove_non_digits();
                if digits.as_str().unicode_len() == 0 {
                    None
                } else {
                    Some(digits)
                }
            },
            Option::None => None,
        }
    }
}

} // verus!
