//! Randomness for construction time, drawn through outside generators.
//!
//! The engines draw their stratified delay lengths, polarity order and dither
//! seeds here, once, at construction; nothing at audio rate is random.

use vstd::prelude::*;

verus! {

/// Relies on rand's `Rng::gen_range` over `lo..hi` on the thread-local
/// generator: a uniformly drawn value in `[lo, hi)`; it panics only on an
/// empty range, which the precondition rules out.
#[verifier::external_body]
pub(crate) fn gen_range_usize(lo: usize, hi: usize) -> (r: usize)
    requires
        lo < hi,
    ensures
        lo <= r < hi,
{
    rand::Rng::gen_range(&mut rand::thread_rng(), lo..hi)
}

/// Relies on rand's `SliceRandom::shuffle`: it reorders the slice in place by
/// swaps, so the multiset of elements (and the length) is unchanged.
#[verifier::external_body]
pub(crate) fn shuffle_signs(v: &mut Vec<i64>)
    ensures
        final(v)@.to_multiset() == old(v)@.to_multiset(),
        final(v)@.len() == old(v)@.len(),
{
    rand::seq::SliceRandom::shuffle(v.as_mut_slice(), &mut rand::thread_rng());
}

/// Relies on fastrand's `u32` over `lo..hi` on its thread-local generator: a
/// value in `[lo, hi)`; it panics only on an empty range, which the
/// precondition rules out.
#[verifier::external_body]
pub(crate) fn random_u32_in(lo: u32, hi: u32) -> (r: u32)
    requires
        lo < hi,
    ensures
        lo <= r < hi,
{
    fastrand::u32(lo..hi)
}

} // verus!
