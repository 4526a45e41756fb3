//! The random choices of the search packers, drawn from `rand`'s
//! thread-local generator.

use vstd::prelude::*;
use rand::Rng;
use rand::seq::SliceRandom;
use rand::rngs::ThreadRng;

verus! {

/// `rand`'s thread-local generator, carried through the searches as an
/// opaque value.
#[verifier::external_type_specification]
#[verifier::external_body]
pub struct ExThreadRng(ThreadRng);

/// `rand::thread_rng`: a handle to the thread's generator. Nothing is
/// promised of it; `rand` panics here only when the operating system gives
/// no entropy to seed it, which no argument can rule out.
#[verifier::external_body]
pub(crate) fn new_rng() -> ThreadRng {
    rand::thread_rng()
}

/// `Rng::gen_range` on `0..n`: a number below `n`, drawn at random. `rand`
/// panics on an empty range, so `n` is positive.
#[verifier::external_body]
pub(crate) fn below(rng: &mut ThreadRng, n: usize) -> (r: usize)
    requires
        n > 0,
    ensures
        r < n,
{
    rng.gen_range(0..n)
}

/// `Rng::gen_ratio`: `true` with chance `num / den`. `rand` documents that
/// it is always `true` when `num == den` and always `false` when `num` is
/// zero, and panics when `den` is zero or `num > den`.
#[verifier::external_body]
pub(crate) fn chance(rng: &mut ThreadRng, num: u32, den: u32) -> (r: bool)
    requires
        0 < den,
        num <= den,
    ensures
        num == 0 ==> !r,
        num == den ==> r,
{
    rng.gen_ratio(num, den)
}

/// `SliceRandom::shuffle`: puts the elements in a random order; the source
/// only swaps elements, so the same elements stay.
#[verifier::external_body]
pub(crate) fn shuffle(rng: &mut ThreadRng, v: &mut Vec<usize>)
    ensures
        final(v)@.len() == old(v)@.len(),
        final(v)@.to_multiset() == old(v)@.to_multiset(),
{
    v.shuffle(rng)
}

} // verus!
