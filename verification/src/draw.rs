//! The random draw among weighted alternatives.

use vstd::prelude::*;
use rand::distributions::{IndependentSample, Weighted, WeightedChoice};

verus! {

/// The sum of a sequence of weights.
pub open spec fn total(weights: Seq<u32>) -> nat
    decreases weights.len(),
{
    if weights.len() == 0 {
        0
    } else {
        total(weights.drop_last()) + weights.last() as nat
    }
}

/// Draws an index with `rand::distributions::WeightedChoice`, seeded by
/// `rand::thread_rng`: each index is given its weight, and the sample is the
/// index drawn. `WeightedChoice::new` panics on an empty list, on a total
/// weight of zero and on one that no `u32` holds, so those are left out;
/// `thread_rng` panics where the system has no entropy to give, which no
/// condition on the weights can leave out. Of the outcome only this is
/// claimed: it is one of the indices.
#[verifier::external_body]
pub(crate) fn weighted_index(weights: &Vec<u32>) -> (r: usize)
    requires
        weights@.len() > 0,
        0 < total(weights@) <= u32::MAX,
    ensures
        r < weights@.len(),
{
    let mut items: Vec<Weighted<usize>> =
        weights.iter().enumerate().map(|(i, w)| Weighted { weight: *w, item: i }).collect();
    let choice = WeightedChoice::new(&mut items);
    choice.ind_sample(&mut rand::thread_rng())
}

} // verus!
