//! The random choices of the strategies, drawn from the thread's generator.
//!
//! The generator is seeded by the system when a thread first asks for it, and
//! that fails on a system that gives no randomness.

use rand::seq::SliceRandom;
use rand::Rng;
use vstd::prelude::*;
use crate::enumerate::list_all_pairs;
use crate::graph::all_pairs;

verus! {

/// `rand::Rng::gen_range` on the thread's generator, over `0..n`.
///
/// Trusted: the sample lies in the range. `gen_range` panics on an empty
/// range, which `n > 0` excludes.
#[verifier::external_body]
pub(crate) fn gen_index(n: usize) -> (i: usize)
    requires
        n > 0,
    ensures
        i < n,
{
    rand::thread_rng().gen_range(0..n)
}

/// `rand::seq::SliceRandom::shuffle` on the thread's generator.
///
/// Trusted: the shuffle only swaps elements, so the vector holds afterwards
/// what it held before, each element as often.
#[verifier::external_body]
pub(crate) fn shuffle(v: &mut Vec<(usize, usize)>)
    ensures
        final(v)@.to_multiset() == old(v)@.to_multiset(),
{
    v.shuffle(&mut rand::thread_rng())
}

/// `rand::Rng::gen` for a `bool` on the thread's generator: a fair coin, of
/// which nothing is known in advance.
#[verifier::external_body]
pub(crate) fn gen_bit() -> (b: bool) {
    rand::thread_rng().gen::<bool>()
}

/// An index below `n` drawn uniformly, or `None` where there is none.
pub fn uniform_index(n: usize) -> (i: Option<usize>)
    ensures
        n == 0 <==> i.is_none(),
        i.is_some() ==> i.unwrap() < n,
{
    if n == 0 {
        None
    } else {
        Some(gen_index(n))
    }
}

/// All unordered pairs of vertices below `n`, in a random order.
pub fn shuffled_pairs(n: usize) -> (pairs: Vec<(usize, usize)>)
    ensures
        pairs@.to_multiset() == all_pairs(n as nat).to_multiset(),
        pairs@.len() == all_pairs(n as nat).len(),
{
    let mut pairs = list_all_pairs(n);
    shuffle(&mut pairs);
    proof {
        pairs@.to_multiset_ensures();
        all_pairs(n as nat).to_multiset_ensures();
    }
    pairs
}

} // verus!
