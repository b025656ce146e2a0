//! Random numbers, drawn with `rand` from the generator of the thread. What a draw gives is left
//! open within the bounds stated here; none of them is proved.

use rand::rngs::ThreadRng;
use rand::seq::{IteratorRandom, SliceRandom};
use rand::Rng;
use vstd::prelude::*;

verus! {

/// The generator of the thread.
#[verifier::external_type_specification]
#[verifier::external_body]
pub struct ExThreadRng(ThreadRng);

/// Calls `Rng::gen_range` on `0..n`: a number below `n`.
#[verifier::external_body]
pub(crate) fn below(rng: &mut ThreadRng, n: usize) -> (r: usize)
    requires
        n > 0,
    ensures
        r < n,
{
    rng.gen_range(0..n)
}

/// Calls `Rng::gen_ratio` with one in two. Nothing is claimed of the result, which is either.
#[verifier::external_body]
pub(crate) fn coin(rng: &mut ThreadRng) -> (r: bool) {
    rng.gen_ratio(1, 2)
}

/// Calls `SliceRandom::shuffle`: the same numbers, in some order.
#[verifier::external_body]
pub(crate) fn shuffle(rng: &mut ThreadRng, list: &mut Vec<usize>)
    ensures
        final(list)@.to_multiset() == old(list)@.to_multiset(),
        final(list)@.len() == old(list)@.len(),
{
    list.shuffle(rng)
}

/// Calls `IteratorRandom::choose_multiple` on `0..n`: as many distinct numbers below `n` as are
/// asked for, or all of them where there are fewer.
#[verifier::external_body]
pub(crate) fn distinct_below(rng: &mut ThreadRng, n: usize, amount: u8) -> (r: Vec<usize>)
    ensures
        r@.len() == if amount <= n { amount as int } else { n as int },
        r@.no_duplicates(),
        forall|i: int| 0 <= i < r@.len() ==> (#[trigger] r@[i]) < n,
{
    (0..n).choose_multiple(rng, amount as usize)
}

} // verus!
