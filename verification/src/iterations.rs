//! Counting a stream of fallible items, and dropping elements from the
//! back of a vector.

use vstd::prelude::*;

verus! {

/// The position of the first error in `s`, or `s.len()` if every item is
/// a success.
pub open spec fn first_err_index<U, E>(s: Seq<Result<U, E>>) -> int
    decreases s.len(),
{
    if s.len() == 0 {
        0
    } else if s[0] is Err {
        0
    } else {
        1 + first_err_index(s.drop_first())
    }
}

/// If the first `i` items succeed and the `i`-th fails, the first error is
/// at `i`; if all succeed, it is at `s.len()`.
proof fn lemma_first_err_index_at<U, E>(s: Seq<Result<U, E>>, i: int)
    requires
        0 <= i <= s.len(),
        forall|j: int| 0 <= j < i ==> s[j] is Ok,
        i < s.len() ==> s[i] is Err,
    ensures
        first_err_index(s) == i,
    decreases s.len(),
{
    if s.len() > 0 && i > 0 {
        assert(forall|j: int| 0 <= j < i - 1 ==> s.drop_first()[j] is Ok);
        if i - 1 < s.drop_first().len() {
            assert(s.drop_first()[i - 1] is Err);
        }
        lemma_first_err_index_at(s.drop_first(), i - 1);
    }
}

/// Counting the items of a fallible stream, stopping at the first error.
pub trait IteratorExtension<U, E>: View<V = Seq<Result<U, E>>> {
    /// Counts the items up to the end, or returns the first error; the
    /// stream is consumed either way.
    fn try_count(&mut self) -> (r: Result<u64, E>)
        ensures
            first_err_index(old(self).view()) == old(self).view().len() ==> (r matches Ok(n) && n
                == old(self).view().len()),
            first_err_index(old(self).view()) < old(self).view().len() ==> (r matches Err(e)
                && Err::<U, E>(e) == old(self).view()[first_err_index(old(self).view())]),
    ;
}

impl<U, E> IteratorExtension<U, E> for Vec<Result<U, E>> {
    #[verifier::loop_isolation(false)]
    fn try_count(&mut self) -> (r: Result<u64, E>) {
        let n = self.len();
        let mut i: usize = 0;
        while i < n
            invariant
                *self == *old(self),
                i <= n,
                forall|j: int| 0 <= j < i ==> old(self)@[j] is Ok,
            decreases n - i,
        {
            let is_err = match &self[i] {
                Ok(_) => false,
                Err(_) => true,
            };
            if is_err {
                proof {
                    lemma_first_err_index_at(old(self)@, i as int);
                }
                let item = self.remove(i);
                match item {
                    Err(e) => {
                        return Err(e);
                    },
                    Ok(_) => {
                        proof {
                            assert(false);
                        }
                        return Ok(0);
                    },
                }
            }
            i = i + 1;
        }
        proof {
            lemma_first_err_index_at(old(self)@, n as int);
        }
        Ok(n as u64)
    }
}

/// Dropping elements from the back of a finite stream.
pub trait IteratorBack<T>: View<V = Seq<T>> + Sized {
    /// Drops the last element; an empty stream stays empty.
    fn skip_last(self) -> (r: Self)
        ensures
            self.view().len() == 0 ==> r.view() == Seq::<T>::empty(),
            self.view().len() > 0 ==> r.view() == self.view().take(self.view().len() - 1),
    ;

    /// Drops the last `n` elements; fewer than `n` leave an empty stream.
    fn skip_back(self, n: usize) -> (r: Self)
        ensures
            n >= self.view().len() ==> r.view() == Seq::<T>::empty(),
            n < self.view().len() ==> r.view() == self.view().take(self.view().len() - n),
    ;
}

impl<T> IteratorBack<T> for Vec<T> {
    fn skip_last(self) -> (r: Self) {
        let mut v = self;
        if v.len() > 0 {
            let n = v.len() - 1;
            v.truncate(n);
        } else {
            proof {
                assert(v@ =~= Seq::<T>::empty());
            }
        }
        v
    }

    fn skip_back(self, n: usize) -> (r: Self) {
        let mut v = self;
        if n >= v.len() {
            v.truncate(0);
            proof {
                assert(v@ =~= Seq::<T>::empty());
            }
        } else {
            let k = v.len() - n;
            v.truncate(k);
        }
        v
    }
}

} // verus!
