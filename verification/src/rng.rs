use vstd::prelude::*;

verus! {

/// Relies on `rand::Rng::gen_range` over a half-open `usize` range: it
/// panics only when the range is empty, and returns a value inside the
/// range. Which value comes back depends on the thread's generator.
#[verifier::external_body]
pub(crate) fn rand_below(lo: usize, hi: usize) -> (r: usize)
    requires
        lo < hi,
    ensures
        lo <= r < hi,
{
    rand::Rng::gen_range(&mut rand::thread_rng(), lo..hi)
}

/// Relies on `rand::distributions::WeightedIndex::new`, which succeeds for
/// a nonempty list of positive weights whose sum fits the weight type, and
/// on `rand::distributions::Distribution::sample`, which returns an index
/// into the weight list.
#[verifier::external_body]
pub(crate) fn weighted_pick(weights: &Vec<u64>) -> (r: usize)
    requires
        1 <= weights@.len() <= 8,
        forall|i: int| 0 <= i < weights@.len() ==> 1 <= #[trigger] weights@[i] <= 1000,
    ensures
        r < weights@.len(),
{
    let dist = rand::distributions::WeightedIndex::new(weights.iter()).unwrap();
    rand::distributions::Distribution::sample(&dist, &mut rand::thread_rng())
}

/// Relies on `rand::seq::index::sample`: it returns exactly `amount`
/// distinct indices drawn from `0..length`, and panics when
/// `amount > length`.
#[verifier::external_body]
pub(crate) fn sample_indices(length: usize, amount: usize) -> (r: Vec<usize>)
    requires
        amount <= length,
    ensures
        r@.len() == amount,
        forall|i: int| 0 <= i < r@.len() ==> #[trigger] r@[i] < length,
        forall|i: int, j: int| 0 <= i < j < r@.len() ==> r@[i] != r@[j],
{
    rand::seq::index::sample(&mut rand::thread_rng(), length, amount).into_vec()
}

} // verus!
