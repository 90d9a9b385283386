//! Random choice of the cells that get a bomb.
//!
//! The random numbers come from the `rand` crate. What is taken on trust of
//! it is written on the two items that reach into it; the choice of distinct
//! cells built on them is proved.

use crate::placement::once_each;
use rand::rngs::ThreadRng;
use rand::Rng;
use vstd::prelude::*;

verus! {

#[verifier::external_type_specification]
#[verifier::external_body]
pub struct ExThreadRng(rand::rngs::ThreadRng);

/// `rand::thread_rng`: a handle to the calling thread's generator, seeded by
/// the system. Nothing is claimed of the handle.
pub assume_specification[ rand::thread_rng ]() -> (rng: ThreadRng);

/// `Rng::gen_range` on the range `0..bound`. Taken on trust: the number drawn
/// lies in the range. The call panics on an empty range, which the
/// precondition rules out. Which number comes is left open: two calls may
/// differ.
#[verifier::external_body]
fn random_below(rng: &mut ThreadRng, bound: usize) -> (r: usize)
    requires
        bound > 0,
    ensures
        r < bound,
{
    rng.gen_range(0..bound)
}

/// Draws `count` different numbers below `bound`, by shuffling the first
/// `count` places of the sequence `0, 1, .., bound - 1`: every place in turn
/// is swapped with a place drawn at random from itself and those after it.
/// Each set of `count` numbers is as likely as any other, and the number of
/// draws is `count`, however close that is to `bound`.
pub fn distinct_below(count: usize, bound: usize) -> (chosen: Vec<usize>)
    requires
        count <= bound,
    ensures
        chosen@.len() == count,
        once_each(chosen@, bound as int),
{
    let mut pool: Vec<usize> = Vec::new();
    let mut n: usize = 0;
    while n < bound
        invariant
            n <= bound,
            pool@.len() == n,
            forall|i: int| 0 <= i < n ==> pool@[i] == i,
        decreases bound - n,
    {
        pool.push(n);
        n += 1;
    }
    let mut rng = rand::thread_rng();
    let mut k: usize = 0;
    while k < count
        invariant
            k <= count <= bound,
            pool@.len() == bound,
            pool@.no_duplicates(),
            forall|i: int| 0 <= i < pool@.len() ==> pool@[i] < bound,
        decreases count - k,
    {
        let j = k + random_below(&mut rng, bound - k);
        let here = pool[k];
        let there = pool[j];
        pool[k] = there;
        pool[j] = here;
        k += 1;
    }
    pool.truncate(count);
    pool
}

} // verus!
