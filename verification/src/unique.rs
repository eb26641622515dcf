//! First-occurrence filtering: keep only the first occurrence of each value,
//! either lazily through a cursor or in place on a vector.

use vstd::multiset::Multiset;
use vstd::prelude::*;
use vstd::seq_lib::group_to_multiset_ensures;

verus! {

broadcast use group_to_multiset_ensures;

/// First-occurrence filter of `s`: emits, in order, every element of `s`
/// that neither lies in `seen` nor occurred earlier in `s`.
pub open spec fn unique_from<T>(s: Seq<T>, seen: Set<T>) -> Seq<T>
    decreases s.len(),
{
    if s.len() == 0 {
        Seq::empty()
    } else if seen.contains(s[0]) {
        unique_from(s.drop_first(), seen)
    } else {
        seq![s[0]] + unique_from(s.drop_first(), seen.insert(s[0]))
    }
}

/// The subsequence of `s` holding the first occurrence of each distinct
/// value, in the order those first occurrences appear.
pub open spec fn unique_seq<T>(s: Seq<T>) -> Seq<T> {
    unique_from(s, Set::empty())
}

/// The index of the first occurrence of `x` in `s`.
pub open spec fn first_index_of<T>(s: Seq<T>, x: T) -> int
    recommends
        s.contains(x),
    decreases s.len(),
{
    if s.len() == 0 {
        0
    } else if s[0] == x {
        0
    } else {
        1 + first_index_of(s.drop_first(), x)
    }
}

/// The index of a first occurrence is never negative.
proof fn lemma_first_index_of_nonneg<T>(s: Seq<T>, x: T)
    ensures
        first_index_of(s, x) >= 0,
    decreases s.len(),
{
    if s.len() > 0 && s[0] != x {
        lemma_first_index_of_nonneg(s.drop_first(), x);
    }
}

/// An element lies in `s` exactly when it is the head or lies in the tail.
proof fn lemma_contains_head_tail<T>(s: Seq<T>)
    requires
        s.len() > 0,
    ensures
        forall|x: T| #[trigger] s.contains(x) <==> (x == s[0] || s.drop_first().contains(x)),
{
    let t = s.drop_first();
    assert forall|x: T| #[trigger] s.contains(x) implies (x == s[0] || t.contains(x)) by {
        let i = choose|i: int| 0 <= i < s.len() && s[i] == x;
        if i > 0 {
            assert(t[i - 1] == x);
        }
    }
    assert forall|x: T| (x == s[0] || t.contains(x)) implies s.contains(x) by {
        if x == s[0] {
            assert(s[0] == x);
        } else {
            let i = choose|i: int| 0 <= i < t.len() && t[i] == x;
            assert(s[i + 1] == x);
        }
    }
}

/// The values that the first-occurrence filter emits are exactly the values
/// of `s` that are not in `seen`.
proof fn lemma_unique_from_membership<T>(s: Seq<T>, seen: Set<T>)
    ensures
        forall|x: T| #[trigger]
            unique_from(s, seen).contains(x) <==> (s.contains(x) && !seen.contains(x)),
    decreases s.len(),
{
    if s.len() == 0 {
        assert forall|x: T| #[trigger]
            unique_from(s, seen).contains(x) <==> (s.contains(x) && !seen.contains(x)) by {
            assert(!s.contains(x));
            assert(!unique_from(s, seen).contains(x));
        }
    } else {
        let h = s[0];
        let t = s.drop_first();
        lemma_contains_head_tail(s);
        if seen.contains(h) {
            lemma_unique_from_membership(t, seen);
            assert(unique_from(s, seen) == unique_from(t, seen));
            assert forall|x: T| #[trigger]
                unique_from(s, seen).contains(x) <==> (s.contains(x) && !seen.contains(x)) by {
                assert(unique_from(t, seen).contains(x) <==> (t.contains(x) && !seen.contains(
                    x,
                )));
                assert(s.contains(x) <==> (x == h || t.contains(x)));
            }
        } else {
            lemma_unique_from_membership(t, seen.insert(h));
            let r = unique_from(s, seen);
            let rt = unique_from(t, seen.insert(h));
            assert(r == seq![h] + rt);
            assert forall|x: T| #[trigger]
                unique_from(s, seen).contains(x) <==> (s.contains(x) && !seen.contains(x)) by {
                assert(rt.contains(x) <==> (t.contains(x) && !seen.insert(h).contains(x)));
                assert(s.contains(x) <==> (x == h || t.contains(x)));
                if r.contains(x) {
                    let i = choose|i: int| 0 <= i < r.len() && r[i] == x;
                    if i > 0 {
                        assert(rt[i - 1] == x);
                        assert(rt.contains(x));
                    }
                }
                if x == h {
                    assert(r[0] == x);
                    assert(r.contains(x));
                }
                if rt.contains(x) {
                    let i = choose|i: int| 0 <= i < rt.len() && rt[i] == x;
                    assert(r[i + 1] == x);
                    assert(r.contains(x));
                }
            }
        }
    }
}

/// The first-occurrence filter never emits a value twice.
proof fn lemma_unique_from_distinct<T>(s: Seq<T>, seen: Set<T>)
    ensures
        forall|i: int, j: int|
            0 <= i < j < unique_from(s, seen).len() ==> unique_from(s, seen)[i] != unique_from(
                s,
                seen,
            )[j],
    decreases s.len(),
{
    if s.len() == 0 {
    } else {
        let h = s[0];
        let t = s.drop_first();
        let r = unique_from(s, seen);
        if seen.contains(h) {
            lemma_unique_from_distinct(t, seen);
            assert(r == unique_from(t, seen));
            assert forall|i: int, j: int| 0 <= i < j < r.len() implies r[i] != r[j] by {
                assert(unique_from(t, seen)[i] != unique_from(t, seen)[j]);
            }
        } else {
            let rt = unique_from(t, seen.insert(h));
            lemma_unique_from_distinct(t, seen.insert(h));
            lemma_unique_from_membership(t, seen.insert(h));
            assert(r == seq![h] + rt);
            assert forall|i: int, j: int| 0 <= i < j < r.len() implies r[i] != r[j] by {
                if i == 0 {
                    assert(r[j] == rt[j - 1]);
                    assert(rt.contains(rt[j - 1]));
                    assert(t.contains(rt[j - 1]) && !seen.insert(h).contains(rt[j - 1]));
                    assert(rt[j - 1] != h);
                } else {
                    assert(r[i] == rt[i - 1] && r[j] == rt[j - 1]);
                    assert(rt[i - 1] != rt[j - 1]);
                }
            }
        }
    }
}

/// The filter emits values in the order of their first occurrence in `s`.
proof fn lemma_unique_from_order<T>(s: Seq<T>, seen: Set<T>)
    ensures
        forall|i: int, j: int|
            0 <= i < j < unique_from(s, seen).len() ==> first_index_of(s, unique_from(s, seen)[i])
                < first_index_of(s, unique_from(s, seen)[j]),
    decreases s.len(),
{
    if s.len() == 0 {
    } else {
        let h = s[0];
        let t = s.drop_first();
        let r = unique_from(s, seen);
        if seen.contains(h) {
            lemma_unique_from_order(t, seen);
            lemma_unique_from_membership(t, seen);
            assert(r == unique_from(t, seen));
            assert forall|i: int, j: int| 0 <= i < j < r.len() implies first_index_of(s, r[i])
                < first_index_of(s, r[j]) by {
                let y = r[i];
                let z = r[j];
                assert(unique_from(t, seen).contains(y)) by {
                    assert(unique_from(t, seen)[i] == y);
                }
                assert(unique_from(t, seen).contains(z)) by {
                    assert(unique_from(t, seen)[j] == z);
                }
                assert(t.contains(y) && !seen.contains(y));
                assert(t.contains(z) && !seen.contains(z));
                assert(y != h && z != h);
                assert(first_index_of(s, y) == 1 + first_index_of(t, y));
                assert(first_index_of(s, z) == 1 + first_index_of(t, z));
                assert(first_index_of(t, unique_from(t, seen)[i]) < first_index_of(
                    t,
                    unique_from(t, seen)[j],
                ));
            }
        } else {
            let rt = unique_from(t, seen.insert(h));
            lemma_unique_from_order(t, seen.insert(h));
            lemma_unique_from_membership(t, seen.insert(h));
            assert(r == seq![h] + rt);
            assert forall|i: int, j: int| 0 <= i < j < r.len() implies first_index_of(s, r[i])
                < first_index_of(s, r[j]) by {
                let z = r[j];
                assert(z == rt[j - 1]);
                assert(rt.contains(z)) by {
                    assert(rt[j - 1] == z);
                }
                assert(t.contains(z) && !seen.insert(h).contains(z));
                assert(z != h);
                assert(first_index_of(s, z) == 1 + first_index_of(t, z));
                if i == 0 {
                    assert(r[i] == h);
                    assert(first_index_of(s, h) == 0);
                    lemma_first_index_of_nonneg(t, z);
                } else {
                    let y = r[i];
                    assert(y == rt[i - 1]);
                    assert(rt.contains(y)) by {
                        assert(rt[i - 1] == y);
                    }
                    assert(t.contains(y) && !seen.insert(h).contains(y));
                    assert(y != h);
                    assert(first_index_of(s, y) == 1 + first_index_of(t, y));
                    assert(first_index_of(t, rt[i - 1]) < first_index_of(t, rt[j - 1]));
                }
            }
        }
    }
}

/// On a repetition-free sequence disjoint from `seen`, the filter is the
/// identity.
proof fn lemma_unique_from_of_distinct<T>(r: Seq<T>, seen: Set<T>)
    requires
        forall|i: int, j: int| 0 <= i < j < r.len() ==> r[i] != r[j],
        forall|x: T| #[trigger] r.contains(x) ==> !seen.contains(x),
    ensures
        unique_from(r, seen) == r,
    decreases r.len(),
{
    if r.len() == 0 {
        assert(unique_from(r, seen) =~= r);
    } else {
        let h = r[0];
        let t = r.drop_first();
        assert(r.contains(h));
        assert(forall|i: int, j: int| 0 <= i < j < t.len() ==> t[i] != t[j]);
        assert forall|x: T| #[trigger] t.contains(x) implies !seen.insert(h).contains(x) by {
            let i = choose|i: int| 0 <= i < t.len() && t[i] == x;
            assert(r[i + 1] == x);
            assert(r.contains(x));
            assert(r[0] != r[i + 1]);
        }
        lemma_unique_from_of_distinct(t, seen.insert(h));
        assert(unique_from(r, seen) =~= r);
    }
}

/// Appending one element extends the filter's output by that element
/// exactly when it is new.
proof fn lemma_unique_from_push<T>(s: Seq<T>, seen: Set<T>, x: T)
    ensures
        unique_from(s.push(x), seen) == unique_from(s, seen) + (if seen.contains(x) || s.contains(
            x,
        ) {
            Seq::<T>::empty()
        } else {
            seq![x]
        }),
    decreases s.len(),
{
    if s.len() == 0 {
        assert(s.push(x)[0] == x);
        assert(s.push(x).len() == 1);
        assert(s.push(x).drop_first() =~= Seq::<T>::empty());
        assert(!s.contains(x));
        assert(unique_from(s, seen) =~= Seq::<T>::empty());
        assert(unique_from(Seq::<T>::empty(), seen) =~= Seq::<T>::empty());
        assert(unique_from(Seq::<T>::empty(), seen.insert(x)) =~= Seq::<T>::empty());
        if seen.contains(x) {
            assert(unique_from(s.push(x), seen) == unique_from(s.push(x).drop_first(), seen));
            assert(unique_from(s.push(x), seen) =~= unique_from(s, seen) + Seq::<T>::empty());
        } else {
            assert(unique_from(s.push(x), seen) == seq![x] + unique_from(
                s.push(x).drop_first(),
                seen.insert(x),
            ));
            assert(unique_from(s.push(x), seen) =~= unique_from(s, seen) + seq![x]);
        }
    } else {
        let h = s[0];
        let t = s.drop_first();
        lemma_contains_head_tail(s);
        assert(s.push(x)[0] == h);
        assert(s.push(x).drop_first() =~= t.push(x));
        if seen.contains(h) {
            lemma_unique_from_push(t, seen, x);
            assert(seen.contains(x) || s.contains(x) <==> seen.contains(x) || t.contains(x));
        } else {
            lemma_unique_from_push(t, seen.insert(h), x);
            assert(seen.insert(h).contains(x) || t.contains(x) <==> seen.contains(x) || s.contains(
                x,
            ));
            assert(seq![h] + (unique_from(t, seen.insert(h)) + (if seen.contains(x) || s.contains(
                x,
            ) {
                Seq::<T>::empty()
            } else {
                seq![x]
            })) =~= (seq![h] + unique_from(t, seen.insert(h))) + (if seen.contains(x)
                || s.contains(x) {
                Seq::<T>::empty()
            } else {
                seq![x]
            }));
        }
    }
}

/// For all sequences, the first-occurrence filter emits no value twice, its
/// values are exactly the values of the input, and it emits them in the
/// order of their first occurrences.
pub proof fn lemma_unique_filter_characterization<T>(s: Seq<T>)
    ensures
        forall|i: int, j: int|
            0 <= i < j < unique_seq(s).len() ==> unique_seq(s)[i] != unique_seq(s)[j],
        forall|x: T| #[trigger] unique_seq(s).contains(x) <==> s.contains(x),
        forall|i: int, j: int|
            0 <= i < j < unique_seq(s).len() ==> first_index_of(s, unique_seq(s)[i])
                < first_index_of(s, unique_seq(s)[j]),
{
    lemma_unique_from_distinct(s, Set::empty());
    lemma_unique_from_membership(s, Set::empty());
    lemma_unique_from_order(s, Set::empty());
}

/// Filtering for first occurrences twice gives the same result as
/// filtering once.
pub proof fn lemma_unique_filter_idempotent<T>(s: Seq<T>)
    ensures
        unique_seq(unique_seq(s)) == unique_seq(s),
{
    lemma_unique_from_distinct(s, Set::empty());
    lemma_unique_from_of_distinct(unique_seq(s), Set::empty());
}

/// Appending an element adds exactly that value to a sequence's contents.
proof fn lemma_contains_push<T>(s: Seq<T>, x: T)
    ensures
        forall|y: T| #[trigger] s.push(x).contains(y) <==> (s.contains(y) || y == x),
{
    assert forall|y: T| #[trigger] s.push(x).contains(y) implies (s.contains(y) || y == x) by {
        let i = choose|i: int| 0 <= i < s.push(x).len() && s.push(x)[i] == y;
        if i < s.len() {
            assert(s[i] == y);
        }
    }
    assert forall|y: T| (s.contains(y) || y == x) implies s.push(x).contains(y) by {
        if s.contains(y) {
            let i = choose|i: int| 0 <= i < s.len() && s[i] == y;
            assert(s.push(x)[i] == y);
        } else {
            assert(s.push(x)[s.len() as int] == y);
        }
    }
}

/// Whether `v` holds `x`, by a linear scan.
fn contains_value(v: &Vec<u64>, x: u64) -> (found: bool)
    ensures
        found == v@.contains(x),
{
    let mut i: usize = 0;
    while i < v.len()
        invariant
            0 <= i <= v@.len(),
            forall|j: int| 0 <= j < i ==> v@[j] != x,
        decreases v@.len() - i,
    {
        if v[i] == x {
            return true;
        }
        i = i + 1;
    }
    assert(!v@.contains(x));
    false
}

/// A cursor over a source vector that emits only first-seen values,
/// preserving their order.
pub struct UniqueIterator {
    iter: Vec<u64>,
    pos: usize,
    seen: Vec<u64>,
}

impl UniqueIterator {
    /// The source values the cursor walks over.
    pub closed spec fn source(&self) -> Seq<u64> {
        self.iter@
    }

    /// How many source values have been consumed.
    pub closed spec fn position(&self) -> nat {
        self.pos as nat
    }

    /// The values emitted so far.
    pub closed spec fn emitted(&self) -> Seq<u64> {
        self.seen@
    }

    /// The prefix of the source already consumed.
    pub open spec fn processed(&self) -> Seq<u64> {
        self.source().take(self.position() as int)
    }

    /// The cursor is consistent: what it has emitted is exactly the
    /// first-occurrence filter of what it has consumed.
    pub open spec fn wf(&self) -> bool {
        &&& self.position() <= self.source().len()
        &&& self.emitted() == unique_seq(self.processed())
    }

    /// Wraps a vector of values in a fresh cursor.
    pub fn new(iter: Vec<u64>) -> (it: UniqueIterator)
        ensures
            it.wf(),
            it.source() == iter@,
            it.position() == 0,
            it.emitted() == Seq::<u64>::empty(),
    {
        let it = UniqueIterator { iter, pos: 0, seen: Vec::new() };
        proof {
            assert(it.processed() =~= Seq::<u64>::empty());
        }
        it
    }

    /// Consumes source values until one is seen for the first time and
    /// emits it; `None` once the source is exhausted.
    #[verifier::loop_isolation(false)]
    pub fn next(&mut self) -> (item: Option<u64>)
        requires
            old(self).wf(),
        ensures
            final(self).wf(),
            final(self).source() == old(self).source(),
            old(self).position() <= final(self).position(),
            item matches Some(x) ==> final(self).emitted() == old(self).emitted().push(x)
                && final(self).position() > old(self).position(),
            item is None ==> final(self).position() == old(self).source().len()
                && final(self).emitted() == old(self).emitted(),
    {
        while self.pos < self.iter.len()
            invariant
                self.wf(),
                self.source() == old(self).source(),
                self.emitted() == old(self).emitted(),
                self.position() >= old(self).position(),
            decreases self.iter@.len() - self.pos,
        {
            let x = self.iter[self.pos];
            let ghost before = self.processed();
            let is_seen = contains_value(&self.seen, x);
            self.pos = self.pos + 1;
            proof {
                assert(self.processed() =~= before.push(x));
                lemma_unique_from_push(before, Set::empty(), x);
                lemma_unique_from_membership(before, Set::empty());
            }
            if is_seen {
                proof {
                    assert(before.contains(x));
                    assert(unique_seq(self.processed()) =~= unique_seq(before));
                }
            } else {
                proof {
                    assert(!before.contains(x));
                    assert(unique_seq(self.processed()) =~= unique_seq(before).push(x));
                }
                self.seen.push(x);
                return Some(x);
            }
        }
        None
    }

    /// Consumes the rest of the cursor, collecting what it emits.
    #[verifier::loop_isolation(false)]
    pub fn into_vec(self) -> (values: Vec<u64>)
        requires
            self.wf(),
        ensures
            self.emitted() + values@ == unique_seq(self.source()),
    {
        let mut it = self;
        let mut values: Vec<u64> = Vec::new();
        loop
            invariant
                it.wf(),
                it.source() == self.source(),
                it.emitted() == self.emitted() + values@,
            decreases it.source().len() - it.position(),
        {
            match it.next() {
                Some(x) => {
                    proof {
                        assert(self.emitted() + values@.push(x) =~= (self.emitted()
                            + values@).push(x));
                    }
                    values.push(x);
                },
                None => {
                    proof {
                        assert(it.processed() =~= it.source());
                    }
                    break ;
                },
            }
        }
        values
    }
}

/// A cursor over a source vector that emits every element except the last.
pub struct SkipLastIterator<T> {
    iter: Vec<T>,
    pos: usize,
}

impl<T: Copy> SkipLastIterator<T> {
    /// The source values the cursor walks over.
    pub closed spec fn source(&self) -> Seq<T> {
        self.iter@
    }

    /// How many source values have been emitted.
    pub closed spec fn position(&self) -> nat {
        self.pos as nat
    }

    /// The cursor never runs past the end of its source.
    pub open spec fn wf(&self) -> bool {
        self.position() <= self.source().len()
    }

    /// Wraps a vector of values in a fresh cursor.
    pub fn new(iter: Vec<T>) -> (it: SkipLastIterator<T>)
        ensures
            it.wf(),
            it.source() == iter@,
            it.position() == 0,
    {
        SkipLastIterator { iter, pos: 0 }
    }

    /// Emits the next value, unless it is the source's last (or the source
    /// is exhausted): the last value is withheld.
    pub fn next(&mut self) -> (item: Option<T>)
        requires
            old(self).wf(),
        ensures
            final(self).wf(),
            final(self).source() == old(self).source(),
            old(self).position() + 1 < old(self).source().len() ==> item == Some(
                old(self).source()[old(self).position() as int],
            ) && final(self).position() == old(self).position() + 1,
            old(self).position() + 1 >= old(self).source().len() ==> item is None && *final(self)
                == *old(self),
    {
        if self.iter.len() - self.pos > 1 {
            let x = self.iter[self.pos];
            self.pos = self.pos + 1;
            Some(x)
        } else {
            None
        }
    }

    /// Consumes the rest of the cursor, collecting what it emits: all
    /// source values from the current position up to, but not including,
    /// the last.
    #[verifier::loop_isolation(false)]
    pub fn into_vec(self) -> (values: Vec<T>)
        requires
            self.wf(),
        ensures
            self.position() < self.source().len() ==> values@ == self.source().subrange(
                self.position() as int,
                self.source().len() - 1,
            ),
            self.position() >= self.source().len() ==> values@ == Seq::<T>::empty(),
    {
        let mut it = self;
        let mut values: Vec<T> = Vec::new();
        loop
            invariant
                it.wf(),
                it.source() == self.source(),
                self.position() < self.source().len() ==> self.position() <= it.position()
                    < self.source().len() && values@ == self.source().subrange(
                    self.position() as int,
                    it.position() as int,
                ),
                self.position() >= self.source().len() ==> it.position() == self.position()
                    && values@ == Seq::<T>::empty(),
            decreases it.source().len() - it.position(),
        {
            let ghost before = it;
            match it.next() {
                Some(x) => {
                    proof {
                        assert(self.source().subrange(
                            self.position() as int,
                            before.position() as int,
                        ).push(x) =~= self.source().subrange(
                            self.position() as int,
                            it.position() as int,
                        ));
                    }
                    values.push(x);
                },
                None => {
                    break ;
                },
            }
        }
        values
    }
}

/// Nondecreasing order.
pub open spec fn sorted_nondec(s: Seq<u64>) -> bool {
    forall|i: int, j: int| 0 <= i <= j < s.len() ==> s[i] <= s[j]
}

/// Strictly increasing order.
pub open spec fn sorted_strict(s: Seq<u64>) -> bool {
    forall|i: int, j: int| 0 <= i < j < s.len() ==> s[i] < s[j]
}

/// The index of a least element of a nonempty vector.
fn min_index(v: &Vec<u64>) -> (m: usize)
    requires
        v@.len() > 0,
    ensures
        m < v@.len(),
        forall|j: int| 0 <= j < v@.len() ==> v@[m as int] <= #[trigger] v@[j],
{
    let mut m: usize = 0;
    let mut i: usize = 1;
    while i < v.len()
        invariant
            m < i <= v@.len(),
            forall|j: int| 0 <= j < i ==> v@[m as int] <= #[trigger] v@[j],
        decreases v@.len() - i,
    {
        if v[i] < v[m] {
            m = i;
        }
        i = i + 1;
    }
    m
}

/// Adapters that turn a vector of values into a filtering or shortening
/// cursor.
pub trait IteratorExt: View<V = Seq<u64>> + Sized {
    /// Wraps the values in a cursor that emits only first-seen values.
    fn get_unique(self) -> (it: UniqueIterator)
        ensures
            it.wf(),
            it.source() == self.view(),
            it.position() == 0,
            it.emitted() == Seq::<u64>::empty(),
    ;

    /// Wraps the values in a cursor that emits all of them but the last.
    fn skip_last(self) -> (it: SkipLastIterator<u64>)
        ensures
            it.wf(),
            it.source() == self.view(),
            it.position() == 0,
    ;
}

impl IteratorExt for Vec<u64> {
    fn get_unique(self) -> (it: UniqueIterator) {
        UniqueIterator::new(self)
    }

    fn skip_last(self) -> (it: SkipLastIterator<u64>) {
        SkipLastIterator::new(self)
    }
}

/// In-place duplicate removal for vectors of values.
pub trait UniqueElements: View<V = Seq<u64>> {
    /// Keeps only the first occurrence of each value, in place, visiting
    /// each element once in the original order.
    fn unique(&mut self)
        ensures
            final(self).view() == unique_seq(old(self).view()),
    ;

    /// Replaces the vector by its distinct values in ascending order.
    fn unique_ordered(&mut self)
        ensures
            sorted_strict(final(self).view()),
            forall|x: u64| #[trigger]
                final(self).view().contains(x) <==> old(self).view().contains(x),
    ;
}

impl UniqueElements for Vec<u64> {
    #[verifier::loop_isolation(false)]
    fn unique(&mut self) {
        let mut out: Vec<u64> = Vec::new();
        let mut i: usize = 0;
        proof {
            assert(old(self)@.take(0) =~= Seq::<u64>::empty());
        }
        while i < self.len()
            invariant
                *self == *old(self),
                i <= self@.len(),
                out@ == unique_seq(self@.take(i as int)),
            decreases self@.len() - i,
        {
            let x = self[i];
            let ghost before = self@.take(i as int);
            proof {
                assert(self@.take(i as int + 1) =~= before.push(x));
                lemma_unique_from_push(before, Set::empty(), x);
                lemma_unique_from_membership(before, Set::empty());
            }
            if !contains_value(&out, x) {
                proof {
                    assert(!before.contains(x));
                    assert(unique_seq(self@.take(i as int + 1)) =~= unique_seq(before).push(x));
                }
                out.push(x);
            } else {
                proof {
                    assert(before.contains(x));
                    assert(unique_seq(self@.take(i as int + 1)) =~= unique_seq(before));
                }
            }
            i = i + 1;
        }
        proof {
            assert(self@.take(self@.len() as int) =~= self@);
        }
        *self = out;
    }

    #[verifier::loop_isolation(false)]
    fn unique_ordered(&mut self) {
        let ghost orig = self@;
        let mut sorted_vals: Vec<u64> = Vec::new();
        proof {
            assert(orig.to_multiset() =~= sorted_vals@.to_multiset().add(self@.to_multiset()));
        }
        while self.len() > 0
            invariant
                sorted_nondec(sorted_vals@),
                orig.to_multiset() == sorted_vals@.to_multiset().add(self@.to_multiset()),
                forall|a: int, b: int|
                    0 <= a < sorted_vals@.len() && 0 <= b < self@.len() ==> sorted_vals@[a]
                        <= self@[b],
            decreases self@.len(),
        {
            let ghost prev = self@;
            let m = min_index(self);
            let v = self.remove(m);
            proof {
                assert(prev.contains(v)) by {
                    assert(prev[m as int] == v);
                }
                assert(prev.to_multiset().count(v) > 0);
                assert(sorted_vals@.to_multiset().insert(v).add(prev.to_multiset().remove(v))
                    =~= sorted_vals@.to_multiset().add(prev.to_multiset()));
                assert(forall|b: int|
                    0 <= b < self@.len() ==> v <= #[trigger] self@[b] && (exists|c: int|
                        0 <= c < prev.len() && prev[c] == self@[b]));
            }
            sorted_vals.push(v);
        }
        let ghost all_sorted = sorted_vals@;
        proof {
            assert(self@.to_multiset() =~= Multiset::<u64>::empty());
            assert(orig.to_multiset() =~= all_sorted.to_multiset());
            assert forall|x: u64| #[trigger] all_sorted.contains(x) <==> orig.contains(x) by {
                assert(all_sorted.to_multiset().count(x) == orig.to_multiset().count(x));
            }
        }
        let mut out: Vec<u64> = Vec::new();
        let mut i: usize = 0;
        proof {
            assert(all_sorted.take(0) =~= Seq::<u64>::empty());
        }
        while i < sorted_vals.len()
            invariant
                sorted_vals@ == all_sorted,
                i <= all_sorted.len(),
                sorted_strict(out@),
                i == 0 ==> out@.len() == 0,
                i > 0 ==> out@.len() > 0 && out@.last() == all_sorted[i - 1],
                forall|x: u64| #[trigger] out@.contains(x) <==> all_sorted.take(i as int).contains(x),
            decreases all_sorted.len() - i,
        {
            let x = sorted_vals[i];
            proof {
                assert(all_sorted.take(i as int + 1) =~= all_sorted.take(i as int).push(x));
                lemma_contains_push(all_sorted.take(i as int), x);
            }
            if out.len() == 0 {
                proof {
                    lemma_contains_push(out@, x);
                }
                out.push(x);
            } else {
                let last = out[out.len() - 1];
                if last != x {
                    proof {
                        assert(last == all_sorted[i - 1]);
                        assert(last <= x);
                        lemma_contains_push(out@, x);
                        assert forall|a: int, b: int|
                            0 <= a < b < out@.push(x).len() implies out@.push(x)[a] < out@.push(
                            x,
                        )[b] by {
                            if b == out@.len() as int {
                                assert(out@[a] <= out@.last());
                            }
                        }
                    }
                    out.push(x);
                } else {
                    proof {
                        assert(out@.contains(x)) by {
                            assert(out@[out@.len() - 1] == x);
                        }
                    }
                }
            }
            i = i + 1;
        }
        proof {
            assert(all_sorted.take(all_sorted.len() as int) =~= all_sorted);
        }
        *self = out;
    }
}

} // verus!
