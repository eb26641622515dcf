//! Calendar dates: validity on the proleptic Gregorian calendar, and
//! reading a date out of the first eight digits of a string, written as
//! day, month, year.

use crate::pow10;
use crate::strings::is_ascii_digit_char;
use crate::strings::StrExtension;
use vstd::arithmetic::div_mod::lemma_fundamental_div_mod_converse;
use vstd::prelude::*;
use vstd::string::StrSliceExecFns;

verus! {

broadcast use vstd::seq_lib::group_filter_ensures;

/// A calendar date, with the month and day starting at one.
#[derive(PartialEq, Eq, Structural, Clone, Copy, Debug)]
pub struct Date {
    pub year: i32,
    pub month: u32,
    pub day: u32,
}

/// Whether `y` is a leap year of the proleptic Gregorian calendar.
pub open spec fn is_leap_year(y: int) -> bool {
    y % 4 == 0 && (y % 100 != 0 || y % 400 == 0)
}

/// How many days the month `m` of year `y` has.
pub open spec fn days_in_month(y: int, m: int) -> int
    recommends
        1 <= m <= 12,
{
    if m == 2 {
        if is_leap_year(y) {
            29
        } else {
            28
        }
    } else if m == 4 || m == 6 || m == 9 || m == 11 {
        30
    } else {
        31
    }
}

/// Whether year `y`, month `m` and day `d` name a calendar date.
pub open spec fn valid_ymd(y: int, m: int, d: int) -> bool {
    1 <= m <= 12 && 1 <= d <= days_in_month(y, m)
}

/// The number a sequence of decimal digits spells.
pub open spec fn digits_value(s: Seq<char>) -> int
    decreases s.len(),
{
    if s.len() == 0 {
        0
    } else {
        digits_value(s.drop_last()) * 10 + (s.last() as u32 - 48)
    }
}

/// A sequence of `n` decimal digits spells a number below `10^n`.
pub(crate) proof fn lemma_digits_value_bounds(s: Seq<char>)
    requires
        forall|i: int| 0 <= i < s.len() ==> is_ascii_digit_char(#[trigger] s[i]),
    ensures
        0 <= digits_value(s) < pow10(s.len()),
    decreases s.len(),
{
    if s.len() > 0 {
        assert(forall|i: int|
            0 <= i < s.drop_last().len() ==> is_ascii_digit_char(#[trigger] s.drop_last()[i]));
        lemma_digits_value_bounds(s.drop_last());
        let prefix = digits_value(s.drop_last());
        let d = s.last() as u32 - 48;
        assert(is_ascii_digit_char(s.last()));
        assert(0 <= d <= 9);
        assert(0 <= prefix * 10 + d < 10 * pow10((s.len() - 1) as nat)) by (nonlinear_arith)
            requires
                0 <= prefix < pow10((s.len() - 1) as nat),
                0 <= d <= 9,
        ;
    }
}

/// The number a digit sequence spells splits at any position `k` into the
/// prefix's number, shifted, plus the suffix's number.
pub(crate) proof fn lemma_digits_value_split(s: Seq<char>, k: int)
    requires
        0 <= k <= s.len(),
    ensures
        digits_value(s) == digits_value(s.take(k)) * pow10((s.len() - k) as nat) + digits_value(
            s.skip(k),
        ),
    decreases s.len() - k,
{
    if k == s.len() {
        assert(s.take(k) =~= s);
        assert(s.skip(k) =~= Seq::<char>::empty());
        assert(digits_value(s) == digits_value(s) * 1 + 0) by (nonlinear_arith);
    } else {
        lemma_digits_value_split(s.drop_last(), k);
        assert(s.drop_last().take(k) =~= s.take(k));
        assert(s.drop_last().skip(k) =~= s.skip(k).drop_last());
        let tk = digits_value(s.take(k));
        let p = pow10((s.len() - 1 - k) as nat);
        let suffix_short = digits_value(s.skip(k).drop_last());
        let d = s.last() as u32 - 48;
        assert(s.skip(k).len() == s.len() - k >= 1);
        assert(s.skip(k).last() == s.last());
        assert(digits_value(s.skip(k)) == suffix_short * 10 + d);
        assert(pow10((s.len() - k) as nat) == 10 * p);
        assert(digits_value(s) == tk * (10 * p) + (suffix_short * 10 + d)) by (nonlinear_arith)
            requires
                digits_value(s) == digits_value(s.drop_last()) * 10 + d,
                digits_value(s.drop_last()) == tk * p + suffix_short,
        ;
        assert(tk * (10 * p) == tk * pow10((s.len() - k) as nat)) by (nonlinear_arith)
            requires
                pow10((s.len() - k) as nat) == 10 * p,
        ;
    }
}

/// The date with the given year, month and day, or `None` where they name
/// no calendar date.
pub fn date_from_ymd_opt(year: i32, month: u32, day: u32) -> (date: Option<Date>)
    ensures
        valid_ymd(year as int, month as int, day as int) ==> date == Some(
            Date { year, month, day },
        ),
        !valid_ymd(year as int, month as int, day as int) ==> date is None,
{
    if month < 1 || month > 12 {
        return None;
    }
    let leap = year % 4 == 0 && (year % 100 != 0 || year % 400 == 0);
    let max_day: u32 = if month == 2 {
        if leap {
            29
        } else {
            28
        }
    } else if month == 4 || month == 6 || month == 9 || month == 11 {
        30
    } else {
        31
    };
    if day < 1 || day > max_day {
        None
    } else {
        Some(Date { year, month, day })
    }
}

/// What reading a date of the form day, month, year out of the first
/// eight digits of `s` should yield.
pub open spec fn date_of_digits(s: Seq<char>) -> Option<Date> {
    let ds = s.filter(|c: char| is_ascii_digit_char(c));
    if ds.len() < 8 {
        Option::None
    } else {
        let day = digits_value(ds.subrange(0, 2));
        let month = digits_value(ds.subrange(2, 4));
        let year = digits_value(ds.subrange(4, 8));
        if valid_ymd(year, month, day) {
            Option::Some(Date { year: year as i32, month: month as u32, day: day as u32 })
        } else {
            Option::None
        }
    }
}

/// The value of one digit character.
fn digit_of(c: char) -> (d: u32)
    requires
        is_ascii_digit_char(c),
    ensures
        d == c as u32 - 48,
        d <= 9,
{
    (c as u32) - 48
}

/// The number spelled by two digits of `s` starting at `at`.
fn two_digit_value(s: &str, at: usize) -> (v: u32)
    requires
        at + 2 <= s@.len(),
        s@.len() <= usize::MAX,
        forall|i: int| 0 <= i < s@.len() ==> is_ascii_digit_char(#[trigger] s@[i]),
    ensures
        v == digits_value(s@.subrange(at as int, at + 2)),
        v <= 99,
{
    let d0 = digit_of(s.get_char(at));
    let d1 = digit_of(s.get_char(at + 1));
    proof {
        reveal_with_fuel(digits_value, 3);
        let pair = s@.subrange(at as int, at + 2);
        assert(pair.last() == s@[at + 1]);
        assert(pair.drop_last() =~= s@.subrange(at as int, at + 1));
        assert(pair.drop_last().last() == s@[at as int]);
        assert(pair.drop_last().drop_last() =~= Seq::<char>::empty());
        assert(digits_value(pair.drop_last()) == s@[at as int] as u32 - 48);
    }
    d0 * 10 + d1
}

/// The number spelled by four digits of `s` starting at `at`.
fn four_digit_value(s: &str, at: usize) -> (v: u32)
    requires
        at + 4 <= s@.len(),
        s@.len() <= usize::MAX,
        forall|i: int| 0 <= i < s@.len() ==> is_ascii_digit_char(#[trigger] s@[i]),
    ensures
        v == digits_value(s@.subrange(at as int, at + 4)),
        v <= 9999,
{
    let hi = two_digit_value(s, at);
    let lo = two_digit_value(s, at + 2);
    proof {
        let quad = s@.subrange(at as int, at + 4);
        lemma_digits_value_split(quad, 2);
        assert(quad.take(2) =~= s@.subrange(at as int, at + 2));
        assert(quad.skip(2) =~= s@.subrange(at + 2, at + 4));
        assert(forall|i: int| 0 <= i < quad.take(2).len() ==> is_ascii_digit_char(
            #[trigger] quad.take(2)[i],
        ));
        lemma_digits_value_bounds(quad.take(2));
        assert(pow10(2) == 100) by {
            reveal_with_fuel(pow10, 3);
        }
    }
    hi * 100 + lo
}

/// Reads a date written as day, month, year from the first eight digits
/// of `date`: every other character is ignored, fewer than eight digits
/// or an impossible calendar date yield `None`.
pub fn get_naive_date(date: &str) -> (r: Option<Date>)
    ensures
        r == date_of_digits(date@),
{
    let digits: String = date.remove_non_digits();
    let n = digits.as_str().unicode_len();
    if n < 8 {
        return None;
    }
    let ghost ds = date@.filter(|c: char| is_ascii_digit_char(c));
    proof {
        assert(forall|i: int| 0 <= i < ds.len() ==> is_ascii_digit_char(#[trigger] ds[i]));
    }
    let day = two_digit_value(digits.as_str(), 0);
    let month = two_digit_value(digits.as_str(), 2);
    let year = four_digit_value(digits.as_str(), 4);
    date_from_ymd_opt(year as i32, month, day)
}

/// Reads a date written as day, month, year from the first eight digits
/// of `date`, by first assembling the eight digits into one number and
/// then dividing it apart; every other character is ignored.
#[verifier::loop_isolation(false)]
pub fn get_naive_date_v2(date: &str) -> (r: Option<Date>)
    ensures
        r == date_of_digits(date@),
{
    let digits: String = date.remove_non_digits();
    let n = digits.as_str().unicode_len();
    if n < 8 {
        return None;
    }
    let ghost ds = date@.filter(|c: char| is_ascii_digit_char(c));
    proof {
        assert(forall|i: int| 0 <= i < ds.len() ==> is_ascii_digit_char(#[trigger] ds[i]));
        assert(pow10(8) == 100000000 && pow10(6) == 1000000 && pow10(4) == 10000 && pow10(2)
            == 100) by {
            reveal_with_fuel(pow10, 9);
        }
    }
    let mut ddmmyyyy: u32 = 0;
    let mut i: usize = 0;
    while i < 8
        invariant
            i <= 8,
            8 <= ds.len(),
            digits@ == ds,
            ddmmyyyy == digits_value(ds.take(i as int)),
            ddmmyyyy < 100000000,
        decreases 8 - i,
    {
        proof {
            assert(forall|j: int|
                0 <= j < ds.take(i as int).len() ==> is_ascii_digit_char(
                    #[trigger] ds.take(i as int)[j],
                ));
            lemma_digits_value_bounds(ds.take(i as int));
            assert(pow10(7) == 10000000) by {
                reveal_with_fuel(pow10, 8);
            }
            assert(digits_value(ds.take(i as int)) < pow10(i as nat)) by {
                lemma_digits_value_bounds(ds.take(i as int));
            }
            assert(pow10(i as nat) <= pow10(7)) by {
                reveal_with_fuel(pow10, 9);
            }
        }
        let d = digit_of(digits.as_str().get_char(i));
        proof {
            assert(ds.take(i as int + 1).drop_last() =~= ds.take(i as int));
            assert(ds.take(i as int + 1).last() == ds[i as int]);
        }
        ddmmyyyy = ddmmyyyy * 10 + d;
        i = i + 1;
    }
    let day = ddmmyyyy / 1000000;
    let mmyyyy = ddmmyyyy % 1000000;
    let month = mmyyyy / 10000;
    let year = mmyyyy % 10000;
    proof {
        let eight = ds.take(8);
        lemma_digits_value_split(eight, 2);
        assert(eight.take(2) =~= ds.subrange(0, 2));
        assert(eight.skip(2) =~= ds.subrange(2, 8));
        assert(forall|i: int| 0 <= i < ds.subrange(0, 2).len() ==> is_ascii_digit_char(
            #[trigger] ds.subrange(0, 2)[i],
        ));
        assert(forall|i: int| 0 <= i < ds.subrange(2, 8).len() ==> is_ascii_digit_char(
            #[trigger] ds.subrange(2, 8)[i],
        ));
        lemma_digits_value_bounds(ds.subrange(2, 8));
        lemma_fundamental_div_mod_converse(
            ddmmyyyy as int,
            1000000,
            digits_value(ds.subrange(0, 2)),
            digits_value(ds.subrange(2, 8)),
        );
        let six = ds.subrange(2, 8);
        lemma_digits_value_split(six, 2);
        assert(six.take(2) =~= ds.subrange(2, 4));
        assert(six.skip(2) =~= ds.subrange(4, 8));
        assert(forall|i: int| 0 <= i < ds.subrange(4, 8).len() ==> is_ascii_digit_char(
            #[trigger] ds.subrange(4, 8)[i],
        ));
        lemma_digits_value_bounds(ds.subrange(4, 8));
        lemma_fundamental_div_mod_converse(
            mmyyyy as int,
            10000,
            digits_value(ds.subrange(2, 4)),
            digits_value(ds.subrange(4, 8)),
        );
    }
    date_from_ymd_opt(year as i32, month, day)
}

} // verus!
