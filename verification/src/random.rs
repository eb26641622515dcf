//! A small linear-congruential pseudo-random generator, with helpers that
//! draw integers from a range and permute vectors.

use vstd::arithmetic::div_mod::lemma_add_mod_noop;
use vstd::arithmetic::div_mod::lemma_mod_bound;
use vstd::arithmetic::div_mod::lemma_small_mod;
use vstd::prelude::*;
use vstd::seq_lib::group_to_multiset_ensures;
use vstd::string::StringExecFns;

verus! {

broadcast use group_to_multiset_ensures;

/// The generator's successor function: multiply, add, and keep the low 64
/// bits.
pub open spec fn next_state(x: u64) -> u64 {
    (((x as int) * 69069 + 362437) % 0x1_0000_0000_0000_0000) as u64
}

/// The fixed seed that the convenience functions below start from.
pub open spec fn default_seed() -> u64 {
    123456789
}

/// A multiply-with-carry style pseudo-random generator over one 64-bit
/// word of state.
pub struct VRandom {
    x: u64,
}

impl VRandom {
    /// The generator's current state.
    pub closed spec fn state(&self) -> u64 {
        self.x
    }

    /// Creates a generator with the given seed as its state.
    pub fn new(seed: u64) -> (rng: Self)
        ensures
            rng.state() == seed,
    {
        VRandom { x: seed }
    }

    /// Steps the state once and returns it.
    pub fn generate(&mut self) -> (value: u64)
        ensures
            final(self).state() == next_state(old(self).state()),
            value == final(self).state(),
    {
        let ghost x0 = self.x;
        let m = self.x.wrapping_mul(69069);
        self.x = m.wrapping_add(362437);
        proof {
            let w: int = 0x1_0000_0000_0000_0000;
            lemma_add_mod_noop((x0 as int) * 69069, 362437, w);
            lemma_small_mod(362437nat, w as nat);
        }
        self.x
    }

    /// Resets the state to the given seed.
    pub fn seed(&mut self, seed: u64)
        ensures
            final(self).state() == seed,
    {
        self.x = seed;
    }
}

/// One draw of a generator freshly seeded with the default seed.
pub fn rand() -> (value: u64)
    ensures
        value == next_state(default_seed()),
{
    let seed: u64 = 123456789;
    let mut rng = VRandom::new(seed);
    rng.generate()
}

/// Rearranges the vector in place with the Fisher-Yates walk: each round
/// swaps position `i` with a generator-selected position in `i..n`. The
/// result holds exactly the elements the vector held.
#[verifier::loop_isolation(false)]
pub fn shuffle<T: Copy>(vec: &mut Vec<T>)
    requires
        old(vec)@.len() >= 1,
    ensures
        final(vec)@.len() == old(vec)@.len(),
        final(vec)@.to_multiset() == old(vec)@.to_multiset(),
{
    let n: usize = vec.len();
    let mut i: usize = 0;
    while i < n - 1
        invariant
            i <= n - 1,
            vec@.len() == n,
            vec@.to_multiset() == old(vec)@.to_multiset(),
        decreases n - 1 - i,
    {
        let r = rand() as usize;
        proof {
            lemma_mod_bound(r as int, (n - i) as int);
        }
        let j = r % (n - i) + i;
        let ghost prev = vec@;
        let a = vec[i];
        let b = vec[j];
        vec[i] = b;
        vec[j] = a;
        proof {
            let mid = prev.update(i as int, b);
            vstd::seq_lib::to_multiset_update(prev, i as int, b);
            vstd::seq_lib::to_multiset_update(mid, j as int, a);
            assert(mid[j as int] == b);
            assert(prev.contains(a)) by {
                assert(prev[i as int] == a);
            }
            assert(prev.to_multiset().count(a) > 0);
            assert(vec@.to_multiset() =~= prev.to_multiset());
        }
        i = i + 1;
    }
}

/// One value in `min ..= max`, drawn from a generator seeded with the
/// default seed.
pub fn get_random_integer(min: u64, max: u64) -> (value: u64)
    requires
        min <= max,
        max - min < u64::MAX,
    ensures
        min <= value <= max,
        value == min + next_state(default_seed()) as int % (max - min + 1),
{
    let span = max - min + 1;
    let r = rand();
    proof {
        lemma_mod_bound(r as int, span as int);
    }
    min + r % span
}

/// One value in `min ..= max`, or an error where the range is reversed.
pub fn get_random_integer_v2(min: u64, max: u64) -> (result: crate::MyResult<u64>)
    requires
        min == 0 ==> max < u64::MAX,
    ensures
        min <= max <==> result is Ok,
        result matches Ok(value) ==> min <= value <= max && value == min + next_state(
            default_seed(),
        ) as int % (max - min + 1),
{
    if min > max {
        Err(
            crate::MyError {
                message: String::from_str("min must be less than or equal to max"),
            },
        )
    } else {
        let span = max - min + 1;
        let r = rand();
        proof {
            lemma_mod_bound(r as int, span as int);
        }
        Ok(min + r % span)
    }
}

} // verus!
