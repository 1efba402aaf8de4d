//! The random number generators of `rand` that the generators draw from.
use vstd::prelude::*;
use rand::{Rng, SeedableRng};
use rand::seq::{IndexedRandom, SliceRandom};
use rand::rngs::{SmallRng, StdRng, ThreadRng};

verus! {

#[verifier::external_type_specification]
#[verifier::external_body]
pub struct ExStdRng(StdRng);

#[verifier::external_type_specification]
#[verifier::external_body]
pub struct ExSmallRng(SmallRng);

#[verifier::external_type_specification]
#[verifier::external_body]
pub struct ExThreadRng(ThreadRng);

/// `SmallRng::seed_from_u64`: a small fast generator whose stream is fixed by `seed`.
#[verifier::external_body]
pub fn small_rng_from_seed(seed: u64) -> SmallRng {
    SmallRng::seed_from_u64(seed)
}

/// `rand::rng`: a handle on the thread-local generator (seeded by the system).
#[verifier::external_body]
pub fn thread_rng() -> ThreadRng {
    rand::rng()
}

/// `Rng::random_ratio` on a `StdRng`: true with chance `num / den`. The documentation
/// promises `true` when `num == den` and `false` when `num == 0`; it panics unless
/// `0 < den` and `num <= den`.
#[verifier::external_body]
pub fn std_ratio(rng: &mut StdRng, num: u32, den: u32) -> (b: bool)
    requires
        0 < den,
        num <= den,
    ensures
        num == den ==> b,
        num == 0 ==> !b,
{
    rng.random_ratio(num, den)
}

/// `Rng::random_ratio` on a `SmallRng` (same promises as [`std_ratio`]).
#[verifier::external_body]
pub fn small_ratio(rng: &mut SmallRng, num: u32, den: u32) -> (b: bool)
    requires
        0 < den,
        num <= den,
    ensures
        num == den ==> b,
        num == 0 ==> !b,
{
    rng.random_ratio(num, den)
}

/// `Rng::random_range(lo..hi)` on a `StdRng` for `usize`: a value in `[lo, hi)`;
/// it panics on an empty range.
#[verifier::external_body]
pub fn std_range_usize(rng: &mut StdRng, lo: usize, hi: usize) -> (v: usize)
    requires
        lo < hi,
    ensures
        lo <= v < hi,
{
    rng.random_range(lo..hi)
}

/// `Rng::random_range(lo..hi)` on a `StdRng` for `i32`.
#[verifier::external_body]
pub fn std_range_i32(rng: &mut StdRng, lo: i32, hi: i32) -> (v: i32)
    requires
        lo < hi,
    ensures
        lo <= v < hi,
{
    rng.random_range(lo..hi)
}

/// `Rng::random_range(lo..hi)` on a `SmallRng` for `usize`.
#[verifier::external_body]
pub fn small_range_usize(rng: &mut SmallRng, lo: usize, hi: usize) -> (v: usize)
    requires
        lo < hi,
    ensures
        lo <= v < hi,
{
    rng.random_range(lo..hi)
}

/// `Rng::random_range(lo..hi)` on the thread generator for `usize`.
#[verifier::external_body]
pub fn thread_range_usize(rng: &mut ThreadRng, lo: usize, hi: usize) -> (v: usize)
    requires
        lo < hi,
    ensures
        lo <= v < hi,
{
    rng.random_range(lo..hi)
}

/// `Rng::random_range(lo..hi)` on the thread generator for `i32`.
#[verifier::external_body]
pub fn thread_range_i32(rng: &mut ThreadRng, lo: i32, hi: i32) -> (v: i32)
    requires
        lo < hi,
    ensures
        lo <= v < hi,
{
    rng.random_range(lo..hi)
}

/// `IndexedRandom::choose` on a slice of indices with a `SmallRng`: one entry picked uniformly
/// at random, or `None` for an empty slice.
#[verifier::external_body]
pub fn small_choose(rng: &mut SmallRng, items: &[usize]) -> (r: Option<usize>)
    ensures
        r is None <==> items@.len() == 0,
        r matches Some(v) ==> items@.contains(v),
{
    items.choose(rng).copied()
}

/// `SliceRandom::shuffle` on the thread generator: the positions put in a random order. The
/// source only swaps entries, so the same positions come back, each as often as before.
#[verifier::external_body]
pub fn thread_shuffle_positions(rng: &mut ThreadRng, items: &mut Vec<(i32, i32)>)
    ensures
        final(items)@.to_multiset() == old(items)@.to_multiset(),
{
    items.shuffle(rng)
}

} // verus!
