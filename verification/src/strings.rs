//! Extension methods over `str` and `String`: counting, classification,
//! trimming and formatting of characters.

use crate::unique::first_index_of;
use vstd::prelude::*;
use vstd::string::StrSliceExecFns;
use vstd::string::StringExecFns;

verus! {

/// Whether `c` is one of the ten ASCII decimal digits.
pub open spec fn is_ascii_digit_char(c: char) -> bool {
    48 <= c as u32 <= 57
}

/// Whether `c` is an ASCII letter or decimal digit.
pub open spec fn is_ascii_alnum_char(c: char) -> bool {
    ||| 48 <= c as u32 <= 57
    ||| 65 <= c as u32 <= 90
    ||| 97 <= c as u32 <= 122
}

/// The numeric value of an ASCII decimal digit.
pub open spec fn digit_value(c: char) -> u32 {
    ((c as u32) - 48) as u32
}

/// `s` with every space that directly follows a space removed.
pub open spec fn squeeze_spaces(s: Seq<char>) -> Seq<char>
    decreases s.len(),
{
    if s.len() == 0 {
        Seq::empty()
    } else if s.len() >= 2 && s[s.len() - 2] == ' ' && s[s.len() - 1] == ' ' {
        squeeze_spaces(s.drop_last())
    } else {
        squeeze_spaces(s.drop_last()).push(s.last())
    }
}

/// What `char::is_whitespace` returns: a property of the character alone.
pub uninterp spec fn is_unicode_whitespace(c: char) -> bool;

/// What `char::is_alphanumeric` returns: a property of the character alone.
pub uninterp spec fn is_unicode_alphanumeric(c: char) -> bool;

/// Relies on char::is_whitespace: whether the character has the Unicode
/// whitespace property, a function of the character alone.
#[verifier::external_body]
pub(crate) fn char_is_whitespace(c: char) -> (r: bool)
    ensures
        r == is_unicode_whitespace(c),
{
    c.is_whitespace()
}

/// Relies on char::is_alphanumeric: whether the character is in a Unicode
/// alphanumeric category, a function of the character alone.
#[verifier::external_body]
pub(crate) fn char_is_alphanumeric(c: char) -> (r: bool)
    ensures
        r == is_unicode_alphanumeric(c),
{
    c.is_alphanumeric()
}

/// Relies on String::push: appends exactly the given character.
#[verifier::external_body]
pub(crate) fn push_char(s: &mut String, c: char)
    ensures
        final(s)@ == old(s)@.push(c),
{
    s.push(c);
}

/// Extending a scanned prefix by one element extends its filtered image by
/// that element exactly when the predicate accepts it.
pub(crate) proof fn lemma_filter_take_step<T>(s: Seq<T>, i: int, pred: spec_fn(T) -> bool)
    requires
        0 <= i < s.len(),
    ensures
        s.take(i + 1).filter(pred) == if pred(s[i]) {
            s.take(i).filter(pred).push(s[i])
        } else {
            s.take(i).filter(pred)
        },
{
    reveal(Seq::filter);
    assert(s.take(i + 1).drop_last() =~= s.take(i));
    assert(s.take(i + 1).last() == s[i]);
}

/// If `x` first appears at position `i`, `first_index_of` says so.
pub(crate) proof fn lemma_first_index_of_is<T>(s: Seq<T>, x: T, i: int)
    requires
        0 <= i < s.len(),
        s[i] == x,
        forall|j: int| 0 <= j < i ==> s[j] != x,
    ensures
        s.contains(x),
        first_index_of(s, x) == i,
    decreases i,
{
    assert(s.contains(x)) by {
        assert(s[i] == x);
    }
    if i > 0 {
        assert(s.drop_first()[i - 1] == x);
        assert(forall|j: int| 0 <= j < i - 1 ==> s.drop_first()[j] != x);
        lemma_first_index_of_is(s.drop_first(), x, i - 1);
    }
}

/// The index of the last occurrence of `x` in `s`, or `-1` if there is
/// none.
pub open spec fn last_index_of<T>(s: Seq<T>, x: T) -> int
    decreases s.len(),
{
    if s.len() == 0 {
        -1
    } else if s.last() == x {
        s.len() - 1
    } else {
        last_index_of(s.drop_last(), x)
    }
}

/// If `x` last appears at position `i`, `last_index_of` says so.
pub(crate) proof fn lemma_last_index_of_is<T>(s: Seq<T>, x: T, i: int)
    requires
        0 <= i < s.len(),
        s[i] == x,
        forall|j: int| i < j < s.len() ==> s[j] != x,
    ensures
        last_index_of(s, x) == i,
    decreases s.len(),
{
    if i < s.len() - 1 {
        assert(s.last() != x);
        assert(s.drop_last()[i] == x);
        assert(forall|j: int| i < j < s.drop_last().len() ==> s.drop_last()[j] != x);
        lemma_last_index_of_is(s.drop_last(), x, i);
    }
}

/// Extension methods over owned strings, working in place.
pub trait StringExtension: View<V = Seq<char>> {
    /// Removes every Unicode whitespace character.
    fn remove_all_whitespace(&mut self)
        ensures
            final(self).view() == old(self).view().filter(
                |c: char| !is_unicode_whitespace(c),
            ),
    ;

    /// Removes every occurrence of the character `ch`.
    fn remove_all_char(&mut self, ch: char)
        ensures
            final(self).view() == old(self).view().filter(|c: char| c != ch),
    ;
}

impl StringExtension for String {
    #[verifier::loop_isolation(false)]
    fn remove_all_whitespace(&mut self) {
        let n = self.as_str().unicode_len();
        let mut out = String::new();
        let mut i: usize = 0;
        proof {
            assert(self@.take(0).filter(|c: char| !is_unicode_whitespace(c))
                =~= Seq::<char>::empty()) by {
                reveal(Seq::filter);
            }
        }
        while i < n
            invariant
                *self == *old(self),
                i <= n,
                out@ == self@.take(i as int).filter(|c: char| !is_unicode_whitespace(c)),
            decreases n - i,
        {
            let c = self.as_str().get_char(i);
            proof {
                lemma_filter_take_step(self@, i as int, |c: char| !is_unicode_whitespace(c));
            }
            if !char_is_whitespace(c) {
                push_char(&mut out, c);
            }
            i = i + 1;
        }
        proof {
            assert(self@.take(n as int) =~= self@);
        }
        *self = out;
    }

    #[verifier::loop_isolation(false)]
    fn remove_all_char(&mut self, ch: char) {
        let n = self.as_str().unicode_len();
        let mut out = String::new();
        let mut i: usize = 0;
        proof {
            assert(self@.take(0).filter(|c: char| c != ch) =~= Seq::<char>::empty()) by {
                reveal(Seq::filter);
            }
        }
        while i < n
            invariant
                *self == *old(self),
                i <= n,
                out@ == self@.take(i as int).filter(|c: char| c != ch),
            decreases n - i,
        {
            let c = self.as_str().get_char(i);
            proof {
                lemma_filter_take_step(self@, i as int, |c: char| c != ch);
            }
            if c != ch {
                push_char(&mut out, c);
            }
            i = i + 1;
        }
        proof {
            assert(self@.take(n as int) =~= self@);
        }
        *self = out;
    }
}

/// Extension methods over string slices (and, through deref, `String`).
pub trait StrExtension: View<V = Seq<char>> {
    /// Returns the number of characters, not the number of bytes.
    fn chars_count(&self) -> (count: usize)
        ensures
            count == self.view().len(),
    ;

    /// Counts the occurrences of the character `ch`.
    fn count_char(&self, ch: char) -> (count: usize)
        ensures
            count == self.view().filter(|c: char| c == ch).len(),
    ;

    /// Whether the string is nonempty and all its characters are ASCII
    /// decimal digits.
    fn contains_only_digits(&self) -> (r: bool)
        ensures
            r == (self.view().len() > 0 && forall|i: int|
                0 <= i < self.view().len() ==> is_ascii_digit_char(#[trigger] self.view()[i])),
    ;

    /// Whether the string holds at least one ASCII decimal digit.
    fn contains_some_digits(&self) -> (r: bool)
        ensures
            r == exists|i: int|
                0 <= i < self.view().len() && is_ascii_digit_char(#[trigger] self.view()[i]),
    ;

    /// Whether the string has exactly `num_digit` characters, all of them
    /// ASCII decimal digits.
    fn contains_num_digits(&self, num_digit: usize) -> (r: bool)
        ensures
            r == (self.view().len() == num_digit && forall|i: int|
                0 <= i < self.view().len() ==> is_ascii_digit_char(#[trigger] self.view()[i])),
    ;

    /// Whether the string has at most `num_digit` characters, all of them
    /// ASCII decimal digits.
    fn contains_up_to_num_digits(&self, num_digit: usize) -> (r: bool)
        ensures
            r == (self.view().len() <= num_digit && forall|i: int|
                0 <= i < self.view().len() ==> is_ascii_digit_char(#[trigger] self.view()[i])),
    ;

    /// Whether every character is an ASCII letter or digit.
    fn is_ascii_alphanumeric(&self) -> (r: bool)
        ensures
            r == forall|i: int|
                0 <= i < self.view().len() ==> is_ascii_alnum_char(#[trigger] self.view()[i]),
    ;

    /// Whether every character is alphanumeric in the Unicode sense.
    fn is_alphanumeric(&self) -> (r: bool)
        ensures
            r == forall|i: int|
                0 <= i < self.view().len() ==> is_unicode_alphanumeric(#[trigger] self.view()[i]),
    ;

    /// Replaces every run of spaces that follows a space by a single
    /// space: of two adjacent spaces, the second is dropped.
    fn replace_multiple_whitespaces(&self) -> (r: String)
        ensures
            r@ == squeeze_spaces(self.view()),
    ;

    /// Keeps only the ASCII decimal digits, in order.
    fn remove_non_digits(&self) -> (r: String)
        ensures
            r@ == self.view().filter(|c: char| is_ascii_digit_char(c)),
    ;

    /// Removes the first and the last character; one lone character is
    /// removed as well.
    fn remove_first_and_last_char(&self) -> (r: String)
        ensures
            self.view().len() <= 1 ==> r@ == Seq::<char>::empty(),
            self.view().len() >= 2 ==> r@ == self.view().subrange(1, self.view().len() - 1),
    ;

    /// Returns the longest prefix made of ASCII decimal digits.
    fn select_first_digits(&self) -> (r: String)
        ensures
            r@.len() <= self.view().len(),
            r@ == self.view().take(r@.len() as int),
            forall|i: int| 0 <= i < r@.len() ==> is_ascii_digit_char(#[trigger] self.view()[i]),
            r@.len() < self.view().len() ==> !is_ascii_digit_char(
                self.view()[r@.len() as int],
            ),
    ;

    /// Returns the digit prefix that precedes the first non-digit
    /// character; a string with no non-digit character yields the empty
    /// prefix.
    fn retain_first_digits(&self) -> (r: &str)
        ensures
            (forall|i: int|
                0 <= i < self.view().len() ==> is_ascii_digit_char(#[trigger] self.view()[i]))
                ==> r@ == Seq::<char>::empty(),
            (exists|i: int|
                0 <= i < self.view().len() && !is_ascii_digit_char(#[trigger] self.view()[i]))
                ==> {
                &&& r@.len() < self.view().len()
                &&& r@ == self.view().take(r@.len() as int)
                &&& forall|i: int|
                    0 <= i < r@.len() ==> is_ascii_digit_char(#[trigger] self.view()[i])
                &&& !is_ascii_digit_char(self.view()[r@.len() as int])
            },
    ;

    /// Returns what lies strictly between the first and the last
    /// occurrence of the delimiter byte; a string without the delimiter is
    /// returned whole.
    fn strip_prefix_and_sufix(&self, delimiter_byte: u8) -> (r: &str)
        requires
            delimiter_byte < 128,
            self.view().contains(delimiter_byte as char) ==> first_index_of(
                self.view(),
                delimiter_byte as char,
            ) < last_index_of(self.view(), delimiter_byte as char),
        ensures
            !self.view().contains(delimiter_byte as char) ==> r@ == self.view(),
            self.view().contains(delimiter_byte as char) ==> r@ == self.view().subrange(
                first_index_of(self.view(), delimiter_byte as char) + 1,
                last_index_of(self.view(), delimiter_byte as char),
            ),
    ;

    /// Returns the first `num` characters; fewer than `num` characters are
    /// returned whole.
    fn get_first_n_chars(&self, num: usize) -> (r: &str)
        ensures
            num >= self.view().len() ==> r@ == self.view(),
            num < self.view().len() ==> r@ == self.view().take(num as int),
    ;

    /// Returns the last `num` characters; fewer than `num` characters are
    /// returned whole.
    fn get_last_n_chars(&self, num: usize) -> (r: &str)
        requires
            num >= 1,
        ensures
            num >= self.view().len() ==> r@ == self.view(),
            num < self.view().len() ==> r@ == self.view().skip(self.view().len() - num),
    ;

    /// Returns the values of the ASCII decimal digits, in order, dropping
    /// every other character.
    fn to_digits(&self) -> (r: Vec<u32>)
        ensures
            r@ == self.view().filter(|c: char| is_ascii_digit_char(c)).map_values(
                |c: char| digit_value(c),
            ),
    ;

    /// Formats a 14-character ASCII-alphanumeric registration code with
    /// dots, a slash and a dash; any other string is returned unchanged.
    fn format_cnpj(&self) -> (r: String)
        ensures
            self.view().len() == 14 && (forall|i: int|
                0 <= i < self.view().len() ==> is_ascii_alnum_char(#[trigger] self.view()[i]))
                ==> r@ == self.view().subrange(0, 2) + "."@ + self.view().subrange(2, 5) + "."@
                + self.view().subrange(5, 8) + "/"@ + self.view().subrange(8, 12) + "-"@
                + self.view().subrange(12, 14),
            !(self.view().len() == 14 && (forall|i: int|
                0 <= i < self.view().len() ==> is_ascii_alnum_char(#[trigger] self.view()[i])))
                ==> r@ == self.view(),
    ;

    /// Formats an 11-character ASCII-alphanumeric registration code with
    /// dots and a dash; any other string is returned unchanged.
    fn format_cpf(&self) -> (r: String)
        ensures
            self.view().len() == 11 && (forall|i: int|
                0 <= i < self.view().len() ==> is_ascii_alnum_char(#[trigger] self.view()[i]))
                ==> r@ == self.view().subrange(0, 3) + "."@ + self.view().subrange(3, 6) + "."@
                + self.view().subrange(6, 9) + "-"@ + self.view().subrange(9, 11),
            !(self.view().len() == 11 && (forall|i: int|
                0 <= i < self.view().len() ==> is_ascii_alnum_char(#[trigger] self.view()[i])))
                ==> r@ == self.view(),
    ;

    /// Formats an 8-character ASCII-alphanumeric goods code with dots; any
    /// other string is returned unchanged.
    fn format_ncm(&self) -> (r: String)
        ensures
            self.view().len() == 8 && (forall|i: int|
                0 <= i < self.view().len() ==> is_ascii_alnum_char(#[trigger] self.view()[i]))
                ==> r@ == self.view().subrange(0, 4) + "."@ + self.view().subrange(4, 6) + "."@
                + self.view().subrange(6, 8),
            !(self.view().len() == 8 && (forall|i: int|
                0 <= i < self.view().len() ==> is_ascii_alnum_char(#[trigger] self.view()[i])))
                ==> r@ == self.view(),
    ;
}

impl StrExtension for str {
    fn chars_count(&self) -> (count: usize) {
        self.unicode_len()
    }

    #[verifier::loop_isolation(false)]
    fn count_char(&self, ch: char) -> (count: usize) {
        let n = self.unicode_len();
        let mut count: usize = 0;
        let mut i: usize = 0;
        proof {
            assert(self@.take(0).filter(|c: char| c == ch) =~= Seq::<char>::empty()) by {
                reveal(Seq::filter);
            }
        }
        while i < n
            invariant
                i <= n,
                count <= i,
                count == self@.take(i as int).filter(|c: char| c == ch).len(),
            decreases n - i,
        {
            let c = self.get_char(i);
            proof {
                lemma_filter_take_step(self@, i as int, |c: char| c == ch);
            }
            if c == ch {
                count = count + 1;
            }
            i = i + 1;
        }
        proof {
            assert(self@.take(n as int) =~= self@);
        }
        count
    }

    #[verifier::loop_isolation(false)]
    fn contains_only_digits(&self) -> (r: bool) {
        let n = self.unicode_len();
        if n == 0 {
            return false;
        }
        let mut i: usize = 0;
        while i < n
            invariant
                i <= n,
                forall|j: int| 0 <= j < i ==> is_ascii_digit_char(#[trigger] self@[j]),
            decreases n - i,
        {
            let c = self.get_char(i);
            if (c as u32) < 48 || (c as u32) > 57 {
                return false;
            }
            i = i + 1;
        }
        true
    }

    #[verifier::loop_isolation(false)]
    fn contains_some_digits(&self) -> (r: bool) {
        let n = self.unicode_len();
        let mut i: usize = 0;
        while i < n
            invariant
                i <= n,
                forall|j: int| 0 <= j < i ==> !is_ascii_digit_char(#[trigger] self@[j]),
            decreases n - i,
        {
            let c = self.get_char(i);
            if (c as u32) >= 48 && (c as u32) <= 57 {
                return true;
            }
            i = i + 1;
        }
        false
    }

    fn contains_num_digits(&self, num_digit: usize) -> (r: bool) {
        if self.unicode_len() != num_digit {
            false
        } else {
            self.unicode_len() > 0 && self.contains_only_digits() || self.unicode_len() == 0
        }
    }

    fn contains_up_to_num_digits(&self, num_digit: usize) -> (r: bool) {
        if self.unicode_len() > num_digit {
            false
        } else {
            self.unicode_len() == 0 || self.contains_only_digits()
        }
    }

    #[verifier::loop_isolation(false)]
    fn is_ascii_alphanumeric(&self) -> (r: bool) {
        let n = self.unicode_len();
        let mut i: usize = 0;
        while i < n
            invariant
                i <= n,
                forall|j: int| 0 <= j < i ==> is_ascii_alnum_char(#[trigger] self@[j]),
            decreases n - i,
        {
            let c = self.get_char(i);
            let v = c as u32;
            if !(48 <= v && v <= 57 || 65 <= v && v <= 90 || 97 <= v && v <= 122) {
                return false;
            }
            i = i + 1;
        }
        true
    }

    #[verifier::loop_isolation(false)]
    fn is_alphanumeric(&self) -> (r: bool) {
        let n = self.unicode_len();
        let mut i: usize = 0;
        while i < n
            invariant
                i <= n,
                forall|j: int| 0 <= j < i ==> is_unicode_alphanumeric(#[trigger] self@[j]),
            decreases n - i,
        {
            let c = self.get_char(i);
            if !char_is_alphanumeric(c) {
                return false;
            }
            i = i + 1;
        }
        true
    }

    #[verifier::loop_isolation(false)]
    fn replace_multiple_whitespaces(&self) -> (r: String) {
        let n = self.unicode_len();
        let mut out = String::new();
        let mut prev_space = false;
        let mut i: usize = 0;
        proof {
            assert(self@.take(0) =~= Seq::<char>::empty());
        }
        while i < n
            invariant
                i <= n,
                out@ == squeeze_spaces(self@.take(i as int)),
                prev_space == (i > 0 && self@[i - 1] == ' '),
            decreases n - i,
        {
            let c = self.get_char(i);
            proof {
                assert(self@.take(i as int + 1).drop_last() =~= self@.take(i as int));
                assert(self@.take(i as int + 1).last() == c);
            }
            if !(prev_space && c == ' ') {
                push_char(&mut out, c);
            }
            prev_space = c == ' ';
            i = i + 1;
        }
        proof {
            assert(self@.take(n as int) =~= self@);
        }
        out
    }

    #[verifier::loop_isolation(false)]
    fn remove_non_digits(&self) -> (r: String) {
        let n = self.unicode_len();
        let mut out = String::new();
        let mut i: usize = 0;
        proof {
            assert(self@.take(0).filter(|c: char| is_ascii_digit_char(c))
                =~= Seq::<char>::empty()) by {
                reveal(Seq::filter);
            }
        }
        while i < n
            invariant
                i <= n,
                out@ == self@.take(i as int).filter(|c: char| is_ascii_digit_char(c)),
            decreases n - i,
        {
            let c = self.get_char(i);
            proof {
                lemma_filter_take_step(self@, i as int, |c: char| is_ascii_digit_char(c));
            }
            if (c as u32) >= 48 && (c as u32) <= 57 {
                push_char(&mut out, c);
            }
            i = i + 1;
        }
        proof {
            assert(self@.take(n as int) =~= self@);
        }
        out
    }

    fn remove_first_and_last_char(&self) -> (r: String) {
        let n = self.unicode_len();
        if n <= 1 {
            String::new()
        } else {
            String::from_str(self.substring_char(1, n - 1))
        }
    }

    #[verifier::loop_isolation(false)]
    fn select_first_digits(&self) -> (r: String) {
        let n = self.unicode_len();
        let mut out = String::new();
        let mut i: usize = 0;
        proof {
            assert(self@.take(0) =~= Seq::<char>::empty());
        }
        while i < n
            invariant
                i <= n,
                out@ == self@.take(i as int),
                out@.len() == i,
                forall|j: int| 0 <= j < i ==> is_ascii_digit_char(#[trigger] self@[j]),
            decreases n - i,
        {
            let c = self.get_char(i);
            if (c as u32) < 48 || (c as u32) > 57 {
                return out;
            }
            push_char(&mut out, c);
            proof {
                assert(self@.take(i as int + 1) =~= self@.take(i as int).push(c));
            }
            i = i + 1;
        }
        out
    }

    #[verifier::loop_isolation(false)]
    fn retain_first_digits(&self) -> (r: &str) {
        let n = self.unicode_len();
        let mut i: usize = 0;
        while i < n
            invariant
                i <= n,
                forall|j: int| 0 <= j < i ==> is_ascii_digit_char(#[trigger] self@[j]),
            decreases n - i,
        {
            let c = self.get_char(i);
            if (c as u32) < 48 || (c as u32) > 57 {
                let r = self.substring_char(0, i);
                proof {
                    assert(r@ =~= self@.take(i as int));
                }
                return r;
            }
            i = i + 1;
        }
        let r = self.substring_char(0, 0);
        proof {
            assert(r@ =~= Seq::<char>::empty());
        }
        r
    }

    #[verifier::loop_isolation(false)]
    fn strip_prefix_and_sufix(&self, delimiter_byte: u8) -> (r: &str) {
        let n = self.unicode_len();
        let dc = delimiter_byte as char;
        let mut first: usize = 0;
        loop
            invariant
                first <= n,
                forall|j: int| 0 <= j < first ==> self@[j] != dc,
            decreases n - first,
        {
            if first == n {
                proof {
                    assert(!self@.contains(dc));
                }
                return self;
            }
            if self.get_char(first) == dc {
                break ;
            }
            first = first + 1;
        }
        let mut last: usize = n - 1;
        loop
            invariant
                first <= last < n,
                self@[first as int] == dc,
                forall|j: int| last < j < n ==> self@[j] != dc,
            decreases last,
        {
            if self.get_char(last) == dc {
                break ;
            }
            last = last - 1;
        }
        proof {
            lemma_first_index_of_is(self@, dc, first as int);
            lemma_last_index_of_is(self@, dc, last as int);
        }
        self.substring_char(first + 1, last)
    }

    fn get_first_n_chars(&self, num: usize) -> (r: &str) {
        let n = self.unicode_len();
        if num >= n {
            self
        } else {
            self.substring_char(0, num)
        }
    }

    fn get_last_n_chars(&self, num: usize) -> (r: &str) {
        let n = self.unicode_len();
        if num >= n {
            self
        } else {
            let r = self.substring_char(n - num, n);
            proof {
                assert(r@ =~= self@.skip(self@.len() - num));
            }
            r
        }
    }

    #[verifier::loop_isolation(false)]
    fn to_digits(&self) -> (r: Vec<u32>) {
        let n = self.unicode_len();
        let mut out: Vec<u32> = Vec::new();
        let mut i: usize = 0;
        proof {
            assert(self@.take(0).filter(|c: char| is_ascii_digit_char(c)).map_values(
                |c: char| digit_value(c),
            ) =~= Seq::<u32>::empty()) by {
                reveal(Seq::filter);
            }
        }
        while i < n
            invariant
                i <= n,
                out@ == self@.take(i as int).filter(|c: char| is_ascii_digit_char(c)).map_values(
                    |c: char| digit_value(c),
                ),
            decreases n - i,
        {
            let c = self.get_char(i);
            proof {
                lemma_filter_take_step(self@, i as int, |c: char| is_ascii_digit_char(c));
            }
            if (c as u32) >= 48 && (c as u32) <= 57 {
                proof {
                    assert(self@.take(i as int).filter(|c: char| is_ascii_digit_char(c)).push(
                        c,
                    ).map_values(|c: char| digit_value(c)) =~= self@.take(i as int).filter(
                        |c: char| is_ascii_digit_char(c),
                    ).map_values(|c: char| digit_value(c)).push(digit_value(c)));
                }
                out.push((c as u32) - 48);
            }
            i = i + 1;
        }
        proof {
            assert(self@.take(n as int) =~= self@);
        }
        out
    }

    fn format_cnpj(&self) -> (r: String) {
        let n = self.unicode_len();
        if n == 14 && self.is_ascii_alphanumeric() {
            let mut out = String::from_str(self.substring_char(0, 2));
            out.append(".");
            out.append(self.substring_char(2, 5));
            out.append(".");
            out.append(self.substring_char(5, 8));
            out.append("/");
            out.append(self.substring_char(8, 12));
            out.append("-");
            out.append(self.substring_char(12, 14));
            proof {
                assert(out@ =~= self@.subrange(0, 2) + "."@ + self@.subrange(2, 5) + "."@
                    + self@.subrange(5, 8) + "/"@ + self@.subrange(8, 12) + "-"@ + self@.subrange(
                    12,
                    14,
                ));
            }
            out
        } else {
            String::from_str(self)
        }
    }

    fn format_cpf(&self) -> (r: String) {
        let n = self.unicode_len();
        if n == 11 && self.is_ascii_alphanumeric() {
            let mut out = String::from_str(self.substring_char(0, 3));
            out.append(".");
            out.append(self.substring_char(3, 6));
            out.append(".");
            out.append(self.substring_char(6, 9));
            out.append("-");
            out.append(self.substring_char(9, 11));
            proof {
                assert(out@ =~= self@.subrange(0, 3) + "."@ + self@.subrange(3, 6) + "."@
                    + self@.subrange(6, 9) + "-"@ + self@.subrange(9, 11));
            }
            out
        } else {
            String::from_str(self)
        }
    }

    fn format_ncm(&self) -> (r: String) {
        let n = self.unicode_len();
        if n == 8 && self.is_ascii_alphanumeric() {
            let mut out = String::from_str(self.substring_char(0, 4));
            out.append(".");
            out.append(self.substring_char(4, 6));
            out.append(".");
            out.append(self.substring_char(6, 8));
            proof {
                assert(out@ =~= self@.subrange(0, 4) + "."@ + self@.subrange(4, 6) + "."@
                    + self@.subrange(6, 8));
            }
            out
        } else {
            String::from_str(self)
        }
    }
}

} // verus!
