//! Trusted boundary to the `rand` crate: the seedable generator type and the
//! three random primitives the optimizer draws on. Nothing is promised of a
//! random outcome beyond what holds of every outcome.
use vstd::prelude::*;
use crate::model::ModelItem;
use rand::Rng;
use rand::seq::SliceRandom;

verus! {

/// Declaration of rand's seedable standard generator, `rand::rngs::StdRng`,
/// so that generator values can be threaded through verified code. Callers
/// construct it with rand's `SeedableRng` (e.g. `seed_from_u64`).
#[verifier::external_type_specification]
#[verifier::external_body]
pub struct ExStdRng(rand::rngs::StdRng);

/// Relies on rand's `Rng::gen_range` over `0..n`: the result is uniform in
/// the range, so always strictly below `n`; the call panics only on an empty
/// range, which `n >= 1` rules out.
#[verifier::external_body]
pub(crate) fn rand_below(rng: &mut rand::rngs::StdRng, n: usize) -> (r: usize)
    requires
        n >= 1,
    ensures
        r < n,
{
    rng.gen_range(0..n)
}

/// Relies on rand's `Rng::gen_ratio`: the result is true with probability
/// `numerator / denominator`; the call panics only when the denominator is
/// zero or the numerator exceeds it, which the preconditions rule out.
/// Nothing is promised of the random outcome itself.
#[verifier::external_body]
pub(crate) fn rand_ratio(rng: &mut rand::rngs::StdRng, numerator: u32, denominator: u32) -> (r:
    bool)
    requires
        denominator >= 1,
        numerator <= denominator,
    ensures
        numerator == 0 ==> !r,
        numerator == denominator ==> r,
{
    rng.gen_ratio(numerator, denominator)
}

/// Relies on rand's `SliceRandom::shuffle`: a Fisher-Yates shuffle permutes
/// the slice in place, so the shuffled range keeps its multiset of candidates
/// and everything outside the range is untouched.
#[verifier::external_body]
pub(crate) fn shuffle_range(
    items: &mut Vec<ModelItem>,
    start: usize,
    end: usize,
    rng: &mut rand::rngs::StdRng,
)
    requires
        start <= end,
        end <= old(items)@.len(),
    ensures
        final(items)@.len() == old(items)@.len(),
        final(items)@.subrange(0, start as int) == old(items)@.subrange(0, start as int),
        final(items)@.subrange(end as int, final(items)@.len() as int) == old(items)@.subrange(
            end as int,
            old(items)@.len() as int,
        ),
        final(items)@.subrange(start as int, end as int).to_multiset() == old(items)@.subrange(
            start as int,
            end as int,
        ).to_multiset(),
{
    items[start..end].shuffle(rng)
}

} // verus!
