//! A collection of small, self-contained helper functions and extension
//! traits over primitive types, strings, byte slices, options, vectors and
//! iterator-like cursors, each with a precise contract.

pub mod constants;
pub mod dates;
pub mod iterations;
pub mod operations;
pub mod options;
pub mod random;
pub mod separator;
pub mod slice;
pub mod strings;
pub mod unique;

use vstd::prelude::*;
use vstd::string::StringExecFns;

verus! {

/// An error of this library, carrying a short description.
#[derive(Debug)]
pub struct MyError {
    pub message: String,
}

/// The result type that this library's fallible functions return.
pub type MyResult<T> = Result<T, MyError>;

/// Whether `b` is an ASCII whitespace byte: space, tab, newline, form
/// feed or carriage return.
pub open spec fn is_ascii_ws_byte(b: u8) -> bool {
    b == 32 || b == 9 || b == 10 || b == 12 || b == 13
}

/// The position of the first byte of `s` that is not ASCII whitespace, or
/// `s.len()` if every byte is.
pub open spec fn first_non_ws(s: Seq<u8>) -> int
    decreases s.len(),
{
    if s.len() == 0 {
        0
    } else if !is_ascii_ws_byte(s[0]) {
        0
    } else {
        1 + first_non_ws(s.drop_first())
    }
}

/// The position of the last byte of `s` that is not ASCII whitespace, or
/// `-1` if every byte is.
pub open spec fn last_non_ws(s: Seq<u8>) -> int
    decreases s.len(),
{
    if s.len() == 0 {
        -1
    } else if !is_ascii_ws_byte(s.last()) {
        s.len() - 1
    } else {
        last_non_ws(s.drop_last())
    }
}

/// If the first non-whitespace byte sits at `i`, `first_non_ws` says so.
proof fn lemma_first_non_ws_at(s: Seq<u8>, i: int)
    requires
        0 <= i <= s.len(),
        forall|j: int| 0 <= j < i ==> is_ascii_ws_byte(#[trigger] s[j]),
        i < s.len() ==> !is_ascii_ws_byte(s[i]),
    ensures
        first_non_ws(s) == i,
    decreases s.len(),
{
    if s.len() > 0 && i > 0 {
        assert(forall|j: int| 0 <= j < i - 1 ==> is_ascii_ws_byte(#[trigger] s.drop_first()[j]));
        if i - 1 < s.drop_first().len() {
            assert(s.drop_first()[i - 1] == s[i]);
        }
        lemma_first_non_ws_at(s.drop_first(), i - 1);
    }
}

/// If the last non-whitespace byte sits at `i`, `last_non_ws` says so.
proof fn lemma_last_non_ws_at(s: Seq<u8>, i: int)
    requires
        -1 <= i < s.len(),
        forall|j: int| i < j < s.len() ==> is_ascii_ws_byte(#[trigger] s[j]),
        i >= 0 ==> !is_ascii_ws_byte(s[i]),
    ensures
        last_non_ws(s) == i,
    decreases s.len(),
{
    if s.len() > 0 && i < s.len() - 1 {
        assert(is_ascii_ws_byte(s.last()));
        assert(forall|j: int| i < j < s.drop_last().len() ==> is_ascii_ws_byte(
            #[trigger] s.drop_last()[j],
        ));
        lemma_last_non_ws_at(s.drop_last(), i);
    }
}

/// The hexadecimal digit with value `d`, in lower case.
pub open spec fn hex_digit_char(d: u8) -> char
    recommends
        d < 16,
{
    if d < 10 {
        ((48 + d) as u8) as char
    } else {
        ((87 + d) as u8) as char
    }
}

/// The lower-case hexadecimal spelling of `s`: two digits per byte, high
/// digit first.
pub open spec fn hex_chars(s: Seq<u8>) -> Seq<char>
    decreases s.len(),
{
    if s.len() == 0 {
        Seq::empty()
    } else {
        hex_chars(s.drop_last()) + seq![
            hex_digit_char(s.last() / 16),
            hex_digit_char(s.last() % 16),
        ]
    }
}

/// Trimming and hexadecimal spelling of byte slices.
pub trait BytesExtension: View<V = Seq<u8>> {
    /// Cuts ASCII whitespace from both ends.
    fn trim(&self) -> (r: &Self)
        ensures
            first_non_ws(self.view()) == self.view().len() ==> r.view() == Seq::<u8>::empty(),
            first_non_ws(self.view()) < self.view().len() ==> r.view() == self.view().subrange(
                first_non_ws(self.view()),
                last_non_ws(self.view()) + 1,
            ),
    ;

    /// Writes the bytes in lower-case hexadecimal, two digits per byte.
    fn to_hex_string(&self) -> (r: String)
        ensures
            r@ == hex_chars(self.view()),
    ;
}

impl BytesExtension for [u8] {
    fn trim(&self) -> (r: &Self) {
        let n = self.len();
        let mut from: usize = 0;
        loop
            invariant_except_break
                n == self@.len(),
                from <= n,
                forall|j: int| 0 <= j < from ==> is_ascii_ws_byte(#[trigger] self@[j]),
            ensures
                n == self@.len(),
                from < n,
                !is_ascii_ws_byte(self@[from as int]),
                forall|j: int| 0 <= j < from ==> is_ascii_ws_byte(#[trigger] self@[j]),
            decreases n - from,
        {
            if from == n {
                proof {
                    lemma_first_non_ws_at(self@, n as int);
                }
                return vstd::slice::slice_subrange(self, 0, 0);
            }
            let b = *vstd::slice::slice_index_get(self, from);
            if !(b == 32 || b == 9 || b == 10 || b == 12 || b == 13) {
                break ;
            }
            from = from + 1;
        }
        proof {
            lemma_first_non_ws_at(self@, from as int);
        }
        let mut to: usize = n - 1;
        loop
            invariant_except_break
                n == self@.len(),
                from <= to < n,
                !is_ascii_ws_byte(self@[from as int]),
                forall|j: int| to < j < n ==> is_ascii_ws_byte(#[trigger] self@[j]),
            ensures
                from <= to < n,
                !is_ascii_ws_byte(self@[to as int]),
                forall|j: int| to < j < n ==> is_ascii_ws_byte(#[trigger] self@[j]),
            decreases to,
        {
            let b = *vstd::slice::slice_index_get(self, to);
            if !(b == 32 || b == 9 || b == 10 || b == 12 || b == 13) {
                break ;
            }
            to = to - 1;
        }
        proof {
            lemma_last_non_ws_at(self@, to as int);
        }
        vstd::slice::slice_subrange(self, from, to + 1)
    }

    #[verifier::loop_isolation(false)]
    fn to_hex_string(&self) -> (r: String) {
        let n = self.len();
        let mut out = String::new();
        let mut i: usize = 0;
        proof {
            assert(hex_chars(self@.take(0)) =~= Seq::<char>::empty());
        }
        while i < n
            invariant
                i <= n,
                out@ == hex_chars(self@.take(i as int)),
            decreases n - i,
        {
            let b = *vstd::slice::slice_index_get(self, i);
            let hi = b / 16;
            let lo = b % 16;
            let hc = if hi < 10 {
                (48 + hi) as char
            } else {
                (87 + hi) as char
            };
            let lc = if lo < 10 {
                (48 + lo) as char
            } else {
                (87 + lo) as char
            };
            let ghost prior = out@;
            crate::strings::push_char(&mut out, hc);
            crate::strings::push_char(&mut out, lc);
            proof {
                assert(self@.take(i as int + 1).drop_last() =~= self@.take(i as int));
                assert(self@.take(i as int + 1).last() == b);
                assert(prior.push(hc).push(lc) =~= prior + seq![hc, lc]);
            }
            i = i + 1;
        }
        proof {
            assert(self@.take(n as int) =~= self@);
        }
        out
    }
}

/// How many times the value `x` occurs in `s`.
pub open spec fn count_in<A>(s: Seq<A>, x: A) -> nat
    decreases s.len(),
{
    if s.len() == 0 {
        0
    } else {
        count_in(s.drop_last(), x) + if s.last() == x {
            1nat
        } else {
            0nat
        }
    }
}

/// Splitting into values that occur once and values that occur more
/// often, each side in the original order.
pub trait Partition<T: DeepView>: DeepView<V = Seq<<T as DeepView>::V>> {
    /// Returns the elements whose value occurs exactly once, and then all
    /// occurrences of the values that repeat, each in original order.
    fn partition_dup(&self) -> (r: (Vec<T>, Vec<T>))
        ensures
            r.0.deep_view() == self.deep_view().filter(
                |x: <T as DeepView>::V| count_in(self.deep_view(), x) == 1,
            ),
            r.1.deep_view() == self.deep_view().filter(
                |x: <T as DeepView>::V| count_in(self.deep_view(), x) != 1,
            ),
    ;
}

/// How many elements of `v` spell the same characters as `x`.
#[verifier::loop_isolation(false)]
fn count_matching_string(v: &Vec<String>, x: &String) -> (count: usize)
    ensures
        count == count_in(v.deep_view(), x.deep_view()),
{
    let n = v.len();
    let ghost dv = v.deep_view();
    let mut count: usize = 0;
    let mut i: usize = 0;
    while i < n
        invariant
            i <= n,
            count <= i,
            count == count_in(dv.take(i as int), x.deep_view()),
        decreases n - i,
    {
        proof {
            assert(dv[i as int] == v@[i as int]@);
            assert(dv.take(i as int + 1).drop_last() =~= dv.take(i as int));
            assert(dv.take(i as int + 1).last() == dv[i as int]);
        }
        if v[i].eq(x) {
            count = count + 1;
        }
        i = i + 1;
    }
    proof {
        assert(dv.take(n as int) =~= dv);
    }
    count
}

impl Partition<String> for Vec<String> {
    #[verifier::loop_isolation(false)]
    fn partition_dup(&self) -> (r: (Vec<String>, Vec<String>)) {
        let n = self.len();
        let mut unique: Vec<String> = Vec::new();
        let mut duplicate: Vec<String> = Vec::new();
        let mut i: usize = 0;
        proof {
            reveal(Seq::filter);
        }
        while i < n
            invariant
                i <= n,
                unique.deep_view() == self.deep_view().take(i as int).filter(
                    |x: Seq<char>| count_in(self.deep_view(), x) == 1,
                ),
                duplicate.deep_view() == self.deep_view().take(i as int).filter(
                    |x: Seq<char>| count_in(self.deep_view(), x) != 1,
                ),
            decreases n - i,
        {
            proof {
                assert(self.deep_view()[i as int] == self@[i as int]@);
                crate::strings::lemma_filter_take_step(
                    self.deep_view(),
                    i as int,
                    |x: Seq<char>| count_in(self.deep_view(), x) == 1,
                );
                crate::strings::lemma_filter_take_step(
                    self.deep_view(),
                    i as int,
                    |x: Seq<char>| count_in(self.deep_view(), x) != 1,
                );
            }
            let item = self[i].clone();
            let count = count_matching_string(self, &item);
            if count == 1 {
                let ghost before = unique.deep_view();
                unique.push(item);
                proof {
                    assert(unique.deep_view() =~= before.push(self.deep_view()[i as int]));
                }
            } else {
                let ghost before = duplicate.deep_view();
                duplicate.push(item);
                proof {
                    assert(duplicate.deep_view() =~= before.push(self.deep_view()[i as int]));
                }
            }
            i = i + 1;
        }
        proof {
            assert(self.deep_view().take(n as int) =~= self.deep_view());
        }
        (unique, duplicate)
    }
}

/// How many elements of `v` equal `x`.
#[verifier::loop_isolation(false)]
fn count_matching_u64(v: &Vec<u64>, x: u64) -> (count: usize)
    ensures
        count == count_in(v@, x),
{
    let n = v.len();
    let mut count: usize = 0;
    let mut i: usize = 0;
    while i < n
        invariant
            i <= n,
            count <= i,
            count == count_in(v@.take(i as int), x),
        decreases n - i,
    {
        proof {
            assert(v@.take(i as int + 1).drop_last() =~= v@.take(i as int));
            assert(v@.take(i as int + 1).last() == v@[i as int]);
        }
        if v[i] == x {
            count = count + 1;
        }
        i = i + 1;
    }
    proof {
        assert(v@.take(n as int) =~= v@);
    }
    count
}

impl Partition<u64> for Vec<u64> {
    #[verifier::loop_isolation(false)]
    fn partition_dup(&self) -> (r: (Vec<u64>, Vec<u64>)) {
        let n = self.len();
        let mut unique: Vec<u64> = Vec::new();
        let mut duplicate: Vec<u64> = Vec::new();
        let mut i: usize = 0;
        proof {
            reveal(Seq::filter);
            assert(self.deep_view() =~= self@);
        }
        while i < n
            invariant
                i <= n,
                self.deep_view() == self@,
                unique.deep_view() == unique@,
                duplicate.deep_view() == duplicate@,
                unique@ == self.deep_view().take(i as int).filter(
                    |x: u64| count_in(self.deep_view(), x) == 1,
                ),
                duplicate@ == self.deep_view().take(i as int).filter(
                    |x: u64| count_in(self.deep_view(), x) != 1,
                ),
            decreases n - i,
        {
            proof {
                crate::strings::lemma_filter_take_step(
                    self.deep_view(),
                    i as int,
                    |x: u64| count_in(self.deep_view(), x) == 1,
                );
                crate::strings::lemma_filter_take_step(
                    self.deep_view(),
                    i as int,
                    |x: u64| count_in(self.deep_view(), x) != 1,
                );
            }
            let item = self[i];
            let count = count_matching_u64(self, item);
            if count == 1 {
                unique.push(item);
            } else {
                duplicate.push(item);
            }
            i = i + 1;
        }
        proof {
            assert(self.deep_view().take(n as int) =~= self.deep_view());
            assert(unique.deep_view() =~= unique@);
            assert(duplicate.deep_view() =~= duplicate@);
        }
        (unique, duplicate)
    }
}

/// Copies borrowed string slices into owned strings.
#[verifier::loop_isolation(false)]
pub fn to_vec_string(v: &Vec<&str>) -> (r: Vec<String>)
    ensures
        r@.len() == v@.len(),
        forall|i: int| 0 <= i < v@.len() ==> (#[trigger] r@[i])@ == v@[i]@,
{
    let n = v.len();
    let mut out: Vec<String> = Vec::new();
    let mut i: usize = 0;
    while i < n
        invariant
            i <= n,
            out@.len() == i,
            forall|j: int| 0 <= j < i ==> (#[trigger] out@[j])@ == v@[j]@,
        decreases n - i,
    {
        out.push(String::from_str(v[i]));
        i = i + 1;
    }
    out
}

/// Borrows owned strings as string slices.
#[verifier::loop_isolation(false)]
pub fn to_vec_slice<'a>(v: &'a Vec<String>) -> (r: Vec<&'a str>)
    ensures
        r@.len() == v@.len(),
        forall|i: int| 0 <= i < v@.len() ==> (#[trigger] r@[i])@ == v@[i]@,
{
    let n = v.len();
    let mut out: Vec<&str> = Vec::new();
    let mut i: usize = 0;
    while i < n
        invariant
            i <= n,
            out@.len() == i,
            forall|j: int| 0 <= j < i ==> (#[trigger] out@[j])@ == v@[j]@,
        decreases n - i,
    {
        out.push(v[i].as_str());
        i = i + 1;
    }
    out
}

/// How many characters stand at the front of `s` before the first Unicode
/// whitespace character.
pub open spec fn nonws_prefix_len(s: Seq<char>) -> int
    decreases s.len(),
{
    if s.len() == 0 {
        0
    } else if crate::strings::is_unicode_whitespace(s[0]) {
        0
    } else {
        1 + nonws_prefix_len(s.drop_first())
    }
}

/// The whitespace-free prefix runs to the first whitespace character.
proof fn lemma_nonws_prefix_bounds(s: Seq<char>)
    ensures
        0 <= nonws_prefix_len(s) <= s.len(),
    decreases s.len(),
{
    if s.len() > 0 && !crate::strings::is_unicode_whitespace(s[0]) {
        lemma_nonws_prefix_bounds(s.drop_first());
    }
}

/// If the characters before `k` are no whitespace and the one at `k` is
/// (or the string ends there), the whitespace-free prefix has length `k`.
proof fn lemma_nonws_prefix_at(s: Seq<char>, k: int)
    requires
        0 <= k <= s.len(),
        forall|l: int| 0 <= l < k ==> !crate::strings::is_unicode_whitespace(#[trigger] s[l]),
        k < s.len() ==> crate::strings::is_unicode_whitespace(s[k]),
    ensures
        nonws_prefix_len(s) == k,
    decreases s.len(),
{
    if s.len() > 0 && k > 0 {
        assert(forall|l: int|
            0 <= l < k - 1 ==> !crate::strings::is_unicode_whitespace(
                #[trigger] s.drop_first()[l],
            ));
        if k - 1 < s.drop_first().len() {
            assert(s.drop_first()[k - 1] == s[k]);
        }
        lemma_nonws_prefix_at(s.drop_first(), k - 1);
    }
}

/// The maximal whitespace-free pieces of `s`, in order, with the
/// whitespace between them dropped.
pub open spec fn split_ws(s: Seq<char>) -> Seq<Seq<char>>
    decreases s.len(),
    via split_ws_decreases
{
    if s.len() == 0 {
        Seq::empty()
    } else if crate::strings::is_unicode_whitespace(s[0]) {
        split_ws(s.drop_first())
    } else {
        let k = nonws_prefix_len(s);
        seq![s.take(k)] + split_ws(s.skip(k))
    }
}

#[via_fn]
proof fn split_ws_decreases(s: Seq<char>) {
    if s.len() > 0 && !crate::strings::is_unicode_whitespace(s[0]) {
        lemma_nonws_prefix_bounds(s);
        lemma_nonws_prefix_bounds(s.drop_first());
    }
}

/// The digits of a number token: an optional leading plus sign is
/// dropped.
pub open spec fn token_digits(t: Seq<char>) -> Seq<char> {
    if t.len() >= 1 && t[0] == '+' {
        t.drop_first()
    } else {
        t
    }
}

/// Whether every character of the nonempty sequence is an ASCII decimal
/// digit.
pub open spec fn is_digit_seq(t: Seq<char>) -> bool {
    t.len() >= 1 && forall|i: int|
        0 <= i < t.len() ==> crate::strings::is_ascii_digit_char(#[trigger] t[i])
}

/// Whether the token spells an unsigned 32-bit number: digits after an
/// optional plus sign, with a value in range.
pub open spec fn is_valid_u32_token(t: Seq<char>) -> bool {
    is_digit_seq(token_digits(t)) && crate::dates::digits_value(token_digits(t)) <= u32::MAX
}

/// Ten to any power is positive.
proof fn lemma_pow10_pos(k: nat)
    ensures
        pow10(k) >= 1,
    decreases k,
{
    if k > 0 {
        lemma_pow10_pos((k - 1) as nat);
    }
}

/// Reads the token as an unsigned 32-bit number, or nothing where it is
/// not one.
#[verifier::loop_isolation(false)]
fn parse_u32_token(t: &str) -> (r: Option<u32>)
    ensures
        r is Some <==> is_valid_u32_token(t@),
        r matches Some(v) ==> v == crate::dates::digits_value(token_digits(t@)),
{
    let n = t.unicode_len();
    let start: usize = if n >= 1 && t.get_char(0) == '+' {
        1
    } else {
        0
    };
    let ghost digits = token_digits(t@);
    proof {
        assert(digits =~= t@.skip(start as int));
    }
    if n - start == 0 {
        return None;
    }
    let mut value: u32 = 0;
    let mut idx: usize = start;
    proof {
        assert(digits.take(0) =~= Seq::<char>::empty());
    }
    while idx < n
        invariant
            start <= idx <= n,
            digits == t@.skip(start as int),
            forall|l: int|
                start <= l < idx ==> crate::strings::is_ascii_digit_char(#[trigger] t@[l]),
            value == crate::dates::digits_value(digits.take(idx - start)),
        decreases n - idx,
    {
        let c = t.get_char(idx);
        if (c as u32) < 48 || (c as u32) > 57 {
            proof {
                assert(digits[idx - start] == t@[idx as int]);
            }
            return None;
        }
        let d = (c as u32) - 48;
        let ghost m = idx - start + 1;
        proof {
            assert(digits.take(m).drop_last() =~= digits.take(m - 1));
            assert(digits.take(m).last() == t@[idx as int]);
        }
        if value > (u32::MAX - d) / 10 {
            proof {
                vstd::arithmetic::div_mod::lemma_fundamental_div_mod((u32::MAX - d) as int, 10);
                assert(value * 10 + d > u32::MAX);
                assert(crate::dates::digits_value(digits.take(m)) > u32::MAX);
                if is_digit_seq(digits) {
                    crate::dates::lemma_digits_value_split(digits, m);
                    assert(forall|i: int|
                        0 <= i < digits.skip(m).len() ==> crate::strings::is_ascii_digit_char(
                            #[trigger] digits.skip(m)[i],
                        ));
                    crate::dates::lemma_digits_value_bounds(digits.skip(m));
                    lemma_pow10_pos((digits.len() - m) as nat);
                    assert(crate::dates::digits_value(digits) >= crate::dates::digits_value(
                        digits.take(m),
                    )) by (nonlinear_arith)
                        requires
                            crate::dates::digits_value(digits) == crate::dates::digits_value(
                                digits.take(m),
                            ) * pow10((digits.len() - m) as nat) + crate::dates::digits_value(
                                digits.skip(m),
                            ),
                            crate::dates::digits_value(digits.take(m)) >= 0,
                            pow10((digits.len() - m) as nat) >= 1,
                            crate::dates::digits_value(digits.skip(m)) >= 0,
                    ;
                }
            }
            return None;
        }
        value = value * 10 + d;
        idx = idx + 1;
    }
    proof {
        assert(digits.take(n - start) =~= digits);
    }
    Some(value)
}

/// Reads the whitespace-separated tokens of the string as unsigned 32-bit
/// numbers: every token must be one, else an error comes back.
#[verifier::loop_isolation(false)]
pub fn string_to_vec_of_integers(string: &str) -> (r: Result<Vec<u32>, MyError>)
    ensures
        (forall|i: int|
            0 <= i < split_ws(string@).len() ==> is_valid_u32_token(
                #[trigger] split_ws(string@)[i],
            )) ==> (r matches Ok(v) && v@ == split_ws(string@).map_values(
            |t: Seq<char>| crate::dates::digits_value(token_digits(t)) as u32,
        )),
        (exists|i: int|
            0 <= i < split_ws(string@).len() && !is_valid_u32_token(
                #[trigger] split_ws(string@)[i],
            )) ==> r is Err,
{
    let n = string.unicode_len();
    let mut values: Vec<u32> = Vec::new();
    let ghost mut done: Seq<Seq<char>> = Seq::empty();
    let mut i: usize = 0;
    proof {
        assert(string@.skip(0) =~= string@);
        assert(done + split_ws(string@) =~= split_ws(string@));
        assert(values@ =~= done.map_values(
            |t: Seq<char>| crate::dates::digits_value(token_digits(t)) as u32,
        ));
    }
    while i < n
        invariant
            i <= n,
            done + split_ws(string@.skip(i as int)) == split_ws(string@),
            values@ == done.map_values(
                |t: Seq<char>| crate::dates::digits_value(token_digits(t)) as u32,
            ),
            forall|j: int| 0 <= j < done.len() ==> is_valid_u32_token(#[trigger] done[j]),
        decreases n - i,
    {
        let c = string.get_char(i);
        if crate::strings::char_is_whitespace(c) {
            proof {
                assert(string@.skip(i as int).drop_first() =~= string@.skip(i as int + 1));
            }
            i = i + 1;
        } else {
            let mut j = i + 1;
            while j < n
                invariant
                    i < j <= n,
                    forall|l: int|
                        i <= l < j ==> !crate::strings::is_unicode_whitespace(#[trigger] string@[l]),
                decreases n - j,
            {
                let w = string.get_char(j);
                if crate::strings::char_is_whitespace(w) {
                    break ;
                }
                j = j + 1;
            }
            proof {
                lemma_nonws_prefix_at(string@.skip(i as int), j - i);
                assert(string@.skip(i as int).take(j - i) =~= string@.subrange(i as int, j as int));
                assert(string@.skip(i as int).skip(j - i) =~= string@.skip(j as int));
            }
            let token = string.substring_char(i, j);
            let ghost toks_rest = split_ws(string@.skip(i as int));
            proof {
                assert(toks_rest == seq![token@] + split_ws(string@.skip(j as int)));
                assert(toks_rest[0] == token@);
            }
            match parse_u32_token(token) {
                Some(v) => {
                    values.push(v);
                    proof {
                        let old_done = done;
                        done = done.push(token@);
                        assert(done + split_ws(string@.skip(j as int)) =~= old_done + toks_rest);
                        assert(done.map_values(
                            |t: Seq<char>| crate::dates::digits_value(token_digits(t)) as u32,
                        ) =~= old_done.map_values(
                            |t: Seq<char>| crate::dates::digits_value(token_digits(t)) as u32,
                        ).push(crate::dates::digits_value(token_digits(token@)) as u32));
                    }
                    i = j;
                },
                None => {
                    proof {
                        assert(split_ws(string@)[done.len() as int] == token@);
                    }
                    return Err(
                        MyError { message: String::from_str("expected an unsigned integer") },
                    );
                },
            }
        }
    }
    proof {
        assert(string@.skip(n as int) =~= Seq::<char>::empty());
        assert(done + split_ws(string@.skip(n as int)) =~= done);
    }
    Ok(values)
}

/// What hashing a byte sequence yields, written in hexadecimal: a function
/// of the bytes alone.
pub uninterp spec fn blake3_hex_of(bytes: Seq<u8>) -> Seq<char>;

/// Relies on blake3::hash and blake3::Hash::to_hex: the digest of the
/// bytes, spelled as 64 lower-case hexadecimal characters, a function of
/// the bytes alone.
#[verifier::external_body]
pub fn blake3_hash(bytes: &[u8]) -> (hex: String)
    ensures
        hex@ == blake3_hex_of(bytes@),
        hex@.len() == 64,
{
    let hash = blake3::hash(bytes);
    hash.to_hex().as_str().to_string()
}

/// Recursive definition of the number of decimal digits of `n`.
pub open spec fn spec_num_digits(n: nat) -> nat
    decreases n,
{
    if n < 10 {
        1
    } else {
        1 + spec_num_digits(n / 10)
    }
}

/// Returns the number of decimal digits of an integer.
pub fn num_digits(integer: u128) -> (count: usize)
    ensures
        count == spec_num_digits(integer as nat),
{
    proof {
        lemma_num_digits_bound(integer as nat);
    }
    let mut n: u128 = integer;
    let mut count: usize = 1;
    while n >= 10
        invariant
            count >= 1,
            count + spec_num_digits(n as nat) == 1 + spec_num_digits(integer as nat),
            spec_num_digits(integer as nat) <= 39,
        decreases n,
    {
        n = n / 10;
        count = count + 1;
    }
    count
}

/// Powers of ten, used to bound digit counts.
pub open spec fn pow10(k: nat) -> nat
    decreases k,
{
    if k == 0 {
        1
    } else {
        10 * pow10((k - 1) as nat)
    }
}

/// A value below `10^k` has at most `k` decimal digits.
proof fn lemma_digits_below_pow10(n: nat, k: nat)
    requires
        k >= 1,
        n < pow10(k),
    ensures
        spec_num_digits(n) <= k,
    decreases k,
{
    if n >= 10 {
        assert(n / 10 < pow10((k - 1) as nat)) by (nonlinear_arith)
            requires
                n < 10 * pow10((k - 1) as nat),
        ;
        lemma_digits_below_pow10(n / 10, (k - 1) as nat);
    }
}

/// The number of decimal digits of a `u128` value never exceeds 39.
proof fn lemma_num_digits_bound(n: nat)
    requires
        n <= u128::MAX,
    ensures
        spec_num_digits(n) <= 39,
{
    assert(pow10(39) > u128::MAX as nat) by {
        reveal_with_fuel(pow10, 40);
    }
    lemma_digits_below_pow10(n, 39);
}

} // verus!
