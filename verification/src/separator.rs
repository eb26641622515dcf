//! Inserting a separator character between the three-digit groups of a
//! number's integer part, counted from its right end.

use vstd::prelude::*;
use vstd::string::StrSliceExecFns;
use vstd::string::StringExecFns;

verus! {

/// The characters of `s` from position `i` on, with the separator placed
/// before every position from which a multiple of three characters
/// remains, except the start of the string.
pub open spec fn with_group_separators(s: Seq<char>, insert: char, i: int) -> Seq<char>
    decreases s.len() - i,
{
    if i < 0 || i >= s.len() {
        Seq::empty()
    } else {
        let piece = if i > 0 && (s.len() - i) % 3 == 0 {
            seq![insert, s[i]]
        } else {
            seq![s[i]]
        };
        piece + with_group_separators(s, insert, i + 1)
    }
}

/// Writes `integer` with `insert` between its three-character groups,
/// counted from the right.
#[verifier::loop_isolation(false)]
pub fn split_and_insert(integer: &str, insert: char) -> (r: String)
    ensures
        r@ == with_group_separators(integer@, insert, 0),
{
    let group_size: usize = 3;
    let n = integer.unicode_len();
    let mut out = String::new();
    let mut i: usize = 0;
    while i < n
        invariant
            i <= n,
            out@ + with_group_separators(integer@, insert, i as int) == with_group_separators(
                integer@,
                insert,
                0,
            ),
        decreases n - i,
    {
        let c = integer.get_char(i);
        let ghost prior = out@;
        if (n - i) % group_size == 0 && i > 0 {
            crate::strings::push_char(&mut out, insert);
        }
        crate::strings::push_char(&mut out, c);
        proof {
            if i > 0 && (n - i) % 3 == 0 {
                assert(prior.push(insert).push(c) =~= prior + seq![insert, c]);
            } else {
                assert(prior.push(c) =~= prior + seq![c]);
            }
            assert(out@ + with_group_separators(integer@, insert, i as int + 1)
                =~= with_group_separators(integer@, insert, 0));
        }
        i = i + 1;
    }
    proof {
        assert(out@ + with_group_separators(integer@, insert, n as int) =~= out@);
    }
    out
}

/// Writes `integer` with `insert` between its three-character groups, by
/// first collecting the characters and then walking them with an explicit
/// cursor; the string may not be empty.
pub fn split_and_insert_alternative(integer: &str, insert: char) -> (r: String)
    requires
        integer@.len() >= 1,
    ensures
        r@ == with_group_separators(integer@, insert, 0),
{
    let group_size: usize = 3;
    let n = integer.unicode_len();
    let mut chars: Vec<char> = Vec::new();
    let mut k: usize = 0;
    while k < n
        invariant
            k <= n,
            n == integer@.len(),
            chars@ == integer@.take(k as int),
        decreases n - k,
    {
        let c = integer.get_char(k);
        chars.push(c);
        proof {
            assert(integer@.take(k as int + 1) =~= integer@.take(k as int).push(c));
        }
        k = k + 1;
    }
    proof {
        assert(integer@.take(n as int) =~= integer@);
    }
    let mut out = String::new();
    let mut i: usize = 0;
    loop
        invariant_except_break
            i < n,
            n == integer@.len(),
            1 <= n,
            group_size == 3,
            chars@ == integer@,
            out@ + with_group_separators(integer@, insert, i as int) == with_group_separators(
                integer@,
                insert,
                0,
            ),
        ensures
            out@ == with_group_separators(integer@, insert, 0),
        decreases n - i,
    {
        let j = n - i;
        let ghost prior = out@;
        if j % group_size == 0 && i > 0 {
            crate::strings::push_char(&mut out, insert);
        }
        let c = chars[i];
        crate::strings::push_char(&mut out, c);
        proof {
            if i > 0 && (n - i) % 3 == 0 {
                assert(prior.push(insert).push(c) =~= prior + seq![insert, c]);
            } else {
                assert(prior.push(c) =~= prior + seq![c]);
            }
            assert(out@ + with_group_separators(integer@, insert, i as int + 1)
                =~= with_group_separators(integer@, insert, 0));
        }
        if i >= n - 1 {
            proof {
                assert(out@ + with_group_separators(integer@, insert, n as int) =~= out@);
            }
            break ;
        }
        i = i + 1;
    }
    out
}

} // verus!
