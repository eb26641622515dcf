//! Splitting a slice into at most `chunk_size` contiguous pieces of nearly
//! equal length, the earlier pieces absorbing the remainder.

use vstd::arithmetic::div_mod::lemma_fundamental_div_mod;
use vstd::arithmetic::div_mod::lemma_fundamental_div_mod_converse;
use vstd::prelude::*;
use vstd::slice::slice_to_vec;

verus! {

/// `len / groups`, rounded upward.
pub open spec fn div_ceil_spec(len: nat, groups: nat) -> nat
    recommends
        groups > 0,
{
    len / groups + if len % groups == 0 {
        0nat
    } else {
        1nat
    }
}

/// The sequence of chunks obtained by repeatedly emitting the first
/// `ceil(len / groups)` elements and decrementing `groups`, until either the
/// data or the group budget runs out.
pub open spec fn split_chunks<T>(data: Seq<T>, groups: nat) -> Seq<Seq<T>>
    decreases groups,
{
    if groups == 0 || data.len() == 0 {
        Seq::empty()
    } else {
        let k = div_ceil_spec(data.len(), groups) as int;
        seq![data.take(k)] + split_chunks(data.skip(k), (groups - 1) as nat)
    }
}

/// The length of the `i`-th chunk when `len` elements are split into
/// `groups` groups: the first `len % groups` chunks get one extra element.
pub open spec fn chunk_len_at(len: nat, groups: nat, i: int) -> nat
    recommends
        groups > 0,
{
    len / groups + if i < len % groups {
        1nat
    } else {
        0nat
    }
}

/// The number of chunks that a split emits: one per group, but never more
/// than one per element.
pub open spec fn chunk_count(len: nat, groups: nat) -> nat {
    if len <= groups {
        len
    } else {
        groups
    }
}

/// All chunks of a split, concatenated in order.
pub open spec fn concat_all<T>(chunks: Seq<Seq<T>>) -> Seq<T>
    decreases chunks.len(),
{
    if chunks.len() == 0 {
        Seq::empty()
    } else {
        chunks[0] + concat_all(chunks.drop_first())
    }
}

/// The first chunk of a nonempty split has the length that `chunk_len_at`
/// assigns to position zero, and it is between 1 and the remaining length.
proof fn lemma_first_chunk_len(len: nat, groups: nat)
    requires
        1 <= groups,
        1 <= len,
    ensures
        div_ceil_spec(len, groups) == chunk_len_at(len, groups, 0),
        1 <= div_ceil_spec(len, groups) <= len,
{
    let q = len / groups;
    let r = len % groups;
    lemma_fundamental_div_mod(len as int, groups as int);
    if r == 0 {
        assert(len == groups * q);
        assert(q >= 1) by (nonlinear_arith)
            requires
                len == groups * q,
                len >= 1,
                q >= 0,
        ;
        assert(q <= len) by (nonlinear_arith)
            requires
                len == groups * q,
                groups >= 1,
                q >= 0,
        ;
    } else {
        assert(len == groups * q + r);
        assert(q + 1 <= len) by (nonlinear_arith)
            requires
                len == groups * q + r,
                groups >= 1,
                r >= 1,
                q >= 0,
        ;
    }
}

/// Dividing the length that remains after the first chunk among one fewer
/// group shifts the chunk-length table by one position.
proof fn lemma_tail_chunk_len(len: nat, groups: nat)
    requires
        2 <= groups,
        1 <= len,
    ensures
        forall|i: int|
            0 <= i ==> #[trigger] chunk_len_at(
                (len - div_ceil_spec(len, groups)) as nat,
                (groups - 1) as nat,
                i,
            ) == chunk_len_at(len, groups, i + 1),
{
    let q = len / groups;
    let r = len % groups;
    lemma_fundamental_div_mod(len as int, groups as int);
    let k = div_ceil_spec(len, groups);
    lemma_first_chunk_len(len, groups);
    let rest = (len - k) as int;
    if r == 0 {
        assert(rest == (groups - 1) * q) by (nonlinear_arith)
            requires
                len == groups * q + r,
                r == 0,
                k == q,
                rest == len - k,
        ;
        lemma_fundamental_div_mod_converse(rest, groups - 1, q as int, 0);
        assert(forall|i: int|
            0 <= i ==> #[trigger] chunk_len_at(rest as nat, (groups - 1) as nat, i)
                == chunk_len_at(len, groups, i + 1));
    } else {
        assert(rest == (groups - 1) * q + (r - 1)) by (nonlinear_arith)
            requires
                len == groups * q + r,
                k == q + 1,
                rest == len - k,
        ;
        assert(r - 1 < groups - 1);
        lemma_fundamental_div_mod_converse(rest, groups - 1, q as int, r - 1);
        assert(forall|i: int|
            0 <= i ==> #[trigger] chunk_len_at(rest as nat, (groups - 1) as nat, i)
                == chunk_len_at(len, groups, i + 1));
    }
}

/// A split emits `chunk_count` chunks, and the `i`-th of them has exactly
/// `chunk_len_at(len, groups, i)` elements.
pub proof fn lemma_split_chunk_sizes<T>(data: Seq<T>, groups: nat)
    requires
        1 <= groups,
    ensures
        split_chunks(data, groups).len() == chunk_count(data.len(), groups),
        forall|i: int|
            0 <= i < split_chunks(data, groups).len() ==> (#[trigger] split_chunks(
                data,
                groups,
            )[i]).len() == chunk_len_at(data.len(), groups, i),
    decreases groups,
{
    let len = data.len();
    if len == 0 {
        return ;
    }
    lemma_first_chunk_len(len, groups);
    let k = div_ceil_spec(len, groups) as int;
    let tail = split_chunks(data.skip(k), (groups - 1) as nat);
    let q = len / groups;
    let r = len % groups;
    lemma_fundamental_div_mod(len as int, groups as int);
    if groups == 1 {
        assert(q == len && r == 0) by (nonlinear_arith)
            requires
                len == groups * q + r,
                groups == 1,
                0 <= r < groups,
        ;
        assert(data.skip(k).len() == 0);
        assert(split_chunks(data, groups).len() == 1);
    } else {
        lemma_split_chunk_sizes(data.skip(k), (groups - 1) as nat);
        lemma_tail_chunk_len(len, groups);
        let rest = (len - k) as nat;
        assert(tail.len() == chunk_count(rest, (groups - 1) as nat));
        if r == 0 {
            assert(rest == (groups - 1) * q) by (nonlinear_arith)
                requires
                    len == groups * q + r,
                    r == 0,
                    k == q,
                    rest == len - k,
            ;
            assert(q >= 1) by (nonlinear_arith)
                requires
                    len == groups * q,
                    len >= 1,
                    q >= 0,
            ;
            if q == 1 {
                assert(rest == groups - 1) by (nonlinear_arith)
                    requires
                        rest == (groups - 1) * q,
                        q == 1,
                ;
                assert(len == groups) by (nonlinear_arith)
                    requires
                        len == groups * q,
                        q == 1,
                ;
            } else {
                assert(rest >= groups - 1) by (nonlinear_arith)
                    requires
                        rest == (groups - 1) * q,
                        q >= 2,
                        groups >= 2,
                ;
                assert(len > groups) by (nonlinear_arith)
                    requires
                        len == groups * q,
                        q >= 2,
                        groups >= 1,
                ;
            }
        } else {
            assert(rest == (groups - 1) * q + (r - 1)) by (nonlinear_arith)
                requires
                    len == groups * q + r,
                    k == q + 1,
                    rest == len - k,
            ;
            if q == 0 {
                assert(len == r) by (nonlinear_arith)
                    requires
                        len == groups * q + r,
                        q == 0,
                ;
                assert(rest == r - 1) by (nonlinear_arith)
                    requires
                        rest == (groups - 1) * q + (r - 1),
                        q == 0,
                ;
            } else {
                assert(rest >= groups - 1) by (nonlinear_arith)
                    requires
                        rest == (groups - 1) * q + (r - 1),
                        q >= 1,
                        r >= 1,
                        groups >= 2,
                ;
                assert(len > groups) by (nonlinear_arith)
                    requires
                        len == groups * q + r,
                        q >= 1,
                        r >= 1,
                        groups >= 1,
                ;
            }
        }
    }
}

/// Every chunk that a split emits has at least one element.
pub proof fn lemma_split_chunks_nonempty<T>(data: Seq<T>, groups: nat)
    requires
        1 <= groups,
    ensures
        forall|i: int|
            0 <= i < split_chunks(data, groups).len() ==> (#[trigger] split_chunks(
                data,
                groups,
            )[i]).len() >= 1,
{
    lemma_split_chunk_sizes(data, groups);
    let len = data.len();
    let q = len / groups;
    let r = len % groups;
    lemma_fundamental_div_mod(len as int, groups as int);
    assert forall|i: int| 0 <= i < split_chunks(data, groups).len() implies (
    #[trigger] split_chunks(data, groups)[i]).len() >= 1 by {
        if q == 0 {
            assert(len == r) by (nonlinear_arith)
                requires
                    len == groups * q + r,
                    q == 0,
            ;
            assert(chunk_count(len, groups) == len);
            assert(i < r);
        }
    }
}

/// Splitting into a positive number of groups emits exactly `group_count`
/// chunks whenever `group_count` does not exceed the data length.
pub proof fn lemma_split_chunk_count<T>(data: Seq<T>, groups: nat)
    requires
        1 <= groups <= data.len(),
    ensures
        split_chunks(data, groups).len() == groups,
{
    lemma_split_chunk_sizes(data, groups);
}

/// No two chunks of one split differ in length by more than one element.
pub proof fn lemma_split_chunks_balanced<T>(data: Seq<T>, groups: nat)
    requires
        1 <= groups,
    ensures
        forall|i: int, j: int|
            0 <= i < split_chunks(data, groups).len() && 0 <= j < split_chunks(data, groups).len()
                ==> (#[trigger] split_chunks(data, groups)[i]).len() <= (#[trigger] split_chunks(
                data,
                groups,
            )[j]).len() + 1,
{
    lemma_split_chunk_sizes(data, groups);
}

/// Splitting into zero groups, or splitting no data, emits no chunks.
pub proof fn lemma_split_chunks_degenerate<T>(data: Seq<T>, groups: nat)
    ensures
        split_chunks(data, 0) == Seq::<Seq<T>>::empty(),
        split_chunks(Seq::<T>::empty(), groups) == Seq::<Seq<T>>::empty(),
{
}

/// Concatenating the chunks of a split, in order, yields the data back.
pub proof fn lemma_split_chunks_concat<T>(data: Seq<T>, groups: nat)
    requires
        1 <= groups,
    ensures
        concat_all(split_chunks(data, groups)) == data,
    decreases groups,
{
    let len = data.len();
    if len == 0 {
        assert(concat_all(split_chunks(data, groups)) =~= data);
        return ;
    }
    lemma_first_chunk_len(len, groups);
    let k = div_ceil_spec(len, groups) as int;
    let chunks = split_chunks(data, groups);
    let tail = split_chunks(data.skip(k), (groups - 1) as nat);
    assert(chunks == seq![data.take(k)] + tail);
    assert(chunks.len() >= 1);
    assert(chunks[0] == data.take(k));
    assert(chunks.drop_first() =~= tail);
    assert(concat_all(chunks) == data.take(k) + concat_all(tail));
    if groups == 1 {
        let q = len / groups;
        let r = len % groups;
        lemma_fundamental_div_mod(len as int, groups as int);
        assert(q == len && r == 0) by (nonlinear_arith)
            requires
                len == groups * q + r,
                groups == 1,
                0 <= r < groups,
        ;
        assert(data.skip(k).len() == 0);
    }
    if data.skip(k).len() == 0 {
        assert(tail == Seq::<Seq<T>>::empty());
        assert(concat_all(tail) == Seq::<T>::empty());
        assert(k == len);
        assert(data.take(k) + concat_all(tail) =~= data);
    } else {
        lemma_split_chunks_concat(data.skip(k), (groups - 1) as nat);
        assert(data.take(k) + data.skip(k) =~= data);
    }
}

/// The lengths of the chunks of a split sum to the length of the data.
pub proof fn lemma_split_chunks_total_len<T>(data: Seq<T>, groups: nat)
    requires
        1 <= groups,
    ensures
        concat_all(split_chunks(data, groups)).len() == data.len(),
{
    lemma_split_chunks_concat(data, groups);
}

/// An iterator-like cursor over a borrowed slice's elements, emitting up to
/// `chunk_size` chunks of nearly equal length, the earlier ones one element
/// longer whenever the division is uneven.
#[derive(Debug, Clone)]
#[must_use]
pub struct ChunksAtMost<T> {
    data_slice: Vec<T>,
    start: usize,
    chunk_size: usize,
}

impl<T: Copy> ChunksAtMost<T> {
    /// The elements not yet emitted.
    pub closed spec fn remaining(&self) -> Seq<T> {
        self.data_slice@.skip(self.start as int)
    }

    /// The number of chunks this cursor may still emit.
    pub closed spec fn groups_left(&self) -> nat {
        self.chunk_size as nat
    }

    /// The cursor never points past the end of its data.
    pub closed spec fn wf(&self) -> bool {
        self.start <= self.data_slice@.len()
    }

    /// Creates a cursor that will split `slice` into at most `chunk_size`
    /// nearly equal chunks.
    pub fn new(slice: &[T], chunk_size: usize) -> (cursor: Self)
        ensures
            cursor.wf(),
            cursor.remaining() == slice@,
            cursor.groups_left() == chunk_size,
    {
        let cursor = Self { data_slice: slice_to_vec(slice), start: 0, chunk_size };
        proof {
            assert(cursor.remaining() =~= slice@);
        }
        cursor
    }

    /// Emits the next chunk: the first `ceil(len / groups_left)` remaining
    /// elements; `None` once the data or the group budget is exhausted.
    #[verifier::loop_isolation(false)]
    pub fn next(&mut self) -> (chunk: Option<Vec<T>>)
        requires
            old(self).wf(),
        ensures
            final(self).wf(),
            old(self).groups_left() == 0 || old(self).remaining().len() == 0 ==> chunk is None
                && *final(self) == *old(self),
            old(self).groups_left() > 0 && old(self).remaining().len() > 0 ==> {
                let k = div_ceil_spec(old(self).remaining().len(), old(self).groups_left()) as int;
                &&& chunk matches Some(c) && c@ == old(self).remaining().take(k)
                &&& final(self).remaining() == old(self).remaining().skip(k)
                &&& final(self).groups_left() == old(self).groups_left() - 1
            },
    {
        let len = self.data_slice.len() - self.start;
        if self.chunk_size == 0 || len == 0 {
            return None;
        }
        proof {
            lemma_first_chunk_len(len as nat, self.chunk_size as nat);
        }
        let k = len / self.chunk_size + if len % self.chunk_size != 0 {
            1
        } else {
            0
        };
        let mut chunk: Vec<T> = Vec::new();
        let mut i: usize = 0;
        while i < k
            invariant
                i <= k,
                chunk@ == self.remaining().take(k as int).take(i as int),
            decreases k - i,
        {
            chunk.push(self.data_slice[self.start + i]);
            i = i + 1;
            proof {
                assert(chunk@ =~= self.remaining().take(k as int).take(i as int));
            }
        }
        proof {
            assert(chunk@ =~= self.remaining().take(k as int));
        }
        let ghost prior = *self;
        self.start = self.start + k;
        self.chunk_size = self.chunk_size - 1;
        proof {
            assert(self.remaining() =~= prior.remaining().skip(k as int));
        }
        Some(chunk)
    }

    /// Emits every chunk that is left and collects them in order.
    #[verifier::loop_isolation(false)]
    pub fn into_chunks(self) -> (chunks: Vec<Vec<T>>)
        requires
            self.wf(),
        ensures
            chunks@.map_values(|c: Vec<T>| c@) == split_chunks(
                self.remaining(),
                self.groups_left(),
            ),
    {
        let ghost orig_remaining = self.remaining();
        let ghost orig_groups = self.groups_left();
        let mut cursor = self;
        let mut chunks: Vec<Vec<T>> = Vec::new();
        loop
            invariant
                cursor.wf(),
                chunks@.map_values(|c: Vec<T>| c@) + split_chunks(
                    cursor.remaining(),
                    cursor.groups_left(),
                ) == split_chunks(orig_remaining, orig_groups),
            decreases cursor.groups_left(),
        {
            let ghost before = cursor;
            match cursor.next() {
                Some(chunk) => {
                    proof {
                        let k = div_ceil_spec(
                            before.remaining().len(),
                            before.groups_left(),
                        ) as int;
                        assert(split_chunks(before.remaining(), before.groups_left())
                            =~= seq![before.remaining().take(k)] + split_chunks(
                            cursor.remaining(),
                            cursor.groups_left(),
                        ));
                        assert((chunks@.push(chunk)).map_values(|c: Vec<T>| c@) =~= chunks@.map_values(
                            |c: Vec<T>| c@,
                        ).push(chunk@));
                        assert(chunks@.map_values(|c: Vec<T>| c@).push(chunk@) + split_chunks(
                            cursor.remaining(),
                            cursor.groups_left(),
                        ) =~= chunks@.map_values(|c: Vec<T>| c@) + split_chunks(
                            before.remaining(),
                            before.groups_left(),
                        ));
                    }
                    chunks.push(chunk);
                },
                None => {
                    proof {
                        assert(split_chunks(cursor.remaining(), cursor.groups_left())
                            =~= Seq::<Seq<T>>::empty());
                        assert(chunks@.map_values(|c: Vec<T>| c@) + Seq::<Seq<T>>::empty()
                            =~= chunks@.map_values(|c: Vec<T>| c@));
                    }
                    return chunks;
                },
            }
        }
    }
}

/// Splitting a slice into N chunks of approximately equal size: all chunks
/// have the same length or one more, the longer ones coming first.
pub trait SliceExtension<T: Copy>: View<V = Seq<T>> {
    /// Returns a cursor over at most `chunk_size` chunks of the slice,
    /// starting at the beginning; earlier chunks take the remainder.
    fn chunks_at_most(&self, chunk_size: usize) -> (cursor: ChunksAtMost<T>)
        ensures
            cursor.wf(),
            cursor.remaining() == self.view(),
            cursor.groups_left() == chunk_size,
    ;
}

impl<T: Copy> SliceExtension<T> for [T] {
    fn chunks_at_most(&self, chunk_size: usize) -> (cursor: ChunksAtMost<T>) {
        ChunksAtMost::new(self, chunk_size)
    }
}

} // verus!
