//! The random choices of the game, made by the `rand` crate.
use vstd::prelude::*;

use rand::rngs::SmallRng;

use crate::engine::round::Idx;

verus! {

/// The random number generator of the game, opaque to the proofs.
#[verifier::external_type_specification]
#[verifier::external_body]
pub struct ExSmallRng(rand::rngs::SmallRng);

/// Calls `rand::Rng::gen_range(rng, 0..bound)`. Its documentation promises a value inside
/// the range, and a panic on an empty range, which `requires` rules out. Which value comes
/// back depends on the generator's state: nothing more is said of it.
#[verifier::external_body]
pub(crate) fn gen_below(rng: &mut SmallRng, bound: usize) -> (r: usize)
    requires
        bound > 0,
    ensures
        r < bound,
{
    rand::Rng::gen_range(rng, 0..bound)
}

/// Calls `rand::seq::IteratorRandom::choose` on the items, handed over as an iterator that
/// does not tell its length, so that the generator is drawn from once per item, as it is for a
/// filtered list. Its documentation promises one of the items, or `None` exactly when there is
/// none. Which item comes back depends on the generator's state: nothing more is said of it.
#[verifier::external_body]
pub(crate) fn choose_one(items: Vec<Idx>, rng: &mut SmallRng) -> (r: Option<Idx>)
    ensures
        r is None <==> items@.len() == 0,
        r matches Some(idx) ==> items@.contains(idx),
{
    let mut items = items.into_iter();
    rand::seq::IteratorRandom::choose(std::iter::from_fn(move || items.next()), rng)
}

/// Builds `rand::distributions::WeightedIndex::new` over the two weights and calls its
/// `Distribution::sample`. The source shows that the construction fails only when every
/// weight is zero (and that their sum is computed in `u8`), both ruled out by `requires`,
/// and that a sample is the index of an item whose weight is not zero. How often each
/// index comes back is not stated.
#[verifier::external_body]
pub(crate) fn sample_weighted(weights: &[u8; 2], rng: &mut SmallRng) -> (r: usize)
    requires
        weights[0] + weights[1] > 0,
        weights[0] + weights[1] <= u8::MAX,
    ensures
        r < 2,
        weights[r as int] > 0,
{
    let distribution = rand::distributions::WeightedIndex::new(weights.iter())
        .expect("the weights are not all zero");
    rand::distributions::Distribution::sample(&distribution, rng)
}

} // verus!
