//! The random draws generation makes, through `rand`'s `SmallRng`.
//!
//! What a draw returns depends on the generator's state, so nothing is named
//! here: each wrapper states only what holds of every outcome.

use vstd::prelude::*;
use rand::Rng as _;
use rand::seq::SliceRandom as _;
use crate::random_test::strategy::CaseStrategy;

verus! {

#[verifier::external_type_specification]
#[verifier::external_body]
pub struct ExSmallRng(rand::rngs::SmallRng);

/// `SmallRng::from_entropy()`: a generator seeded from the system.
#[verifier::external_body]
pub fn fresh_rng() -> (r: rand::rngs::SmallRng) {
    rand::SeedableRng::from_entropy()
}

/// `Rng::gen_range(lo..=hi)`: a value in `[lo, hi]`.
#[verifier::external_body]
pub fn random_in(rng: &mut rand::rngs::SmallRng, lo: i64, hi: i64) -> (r: i64)
    requires
        lo <= hi,
    ensures
        lo <= r <= hi,
{
    rng.gen_range(lo..=hi)
}

/// `Rng::gen_range(0..n)`: an index below `n`.
#[verifier::external_body]
pub fn random_index(rng: &mut rand::rngs::SmallRng, n: usize) -> (r: usize)
    requires
        n > 0,
    ensures
        r < n,
{
    rng.gen_range(0..n)
}

/// `Rng::gen_ratio(num, den)`: `true` with probability `num / den`; always
/// `true` when `num == den`, never when `num == 0`.
#[verifier::external_body]
pub fn random_ratio(rng: &mut rand::rngs::SmallRng, num: u32, den: u32) -> (r: bool)
    requires
        0 < den,
        num <= den,
    ensures
        num == den ==> r,
        num == 0 ==> !r,
{
    rng.gen_ratio(num, den)
}

/// `rand::seq::index::sample(rng, length, amount)`: `amount` distinct
/// indices below `length`, in some order.
#[verifier::external_body]
pub fn sample_indices(rng: &mut rand::rngs::SmallRng, length: usize, amount: usize) -> (r: Vec<usize>)
    requires
        amount <= length,
    ensures
        r@.len() == amount,
        r@.no_duplicates(),
        forall|i: int| 0 <= i < r@.len() ==> #[trigger] r@[i] < length,
{
    rand::seq::index::sample(rng, length, amount).into_vec()
}

/// `SliceRandom::shuffle`: the same strategies in some order.
#[verifier::external_body]
pub fn shuffle_strategies(v: &mut Vec<CaseStrategy>, rng: &mut rand::rngs::SmallRng)
    ensures
        final(v)@.to_multiset() == old(v)@.to_multiset(),
        final(v)@.len() == old(v)@.len(),
{
    v.shuffle(rng);
}

} // verus!
