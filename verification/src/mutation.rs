//! The mutation operator: every mating-pool candidate is independently
//! handed to the adapter's mutation hook with the configured probability.
use vstd::prelude::*;
use crate::model::{Model, Spea2Model};
use crate::rng::rand_ratio;

verus! {

/// Applies the adapter's mutation hook to each mating-pool candidate
/// independently with probability `mutation_numerator / mutation_denominator`.
/// Which candidates are mutated, and into what, is up to chance and the
/// adapter; every candidate keeps one value per objective.
pub fn mutate<M: Spea2Model>(model: &mut Model, adapter: &mut M, rng: &mut rand::rngs::StdRng)
    requires
        old(model).wf(),
    ensures
        final(model).wf(),
        final(model).mating_pool@.len() == old(model).mating_pool@.len(),
        forall|i: int|
            0 <= i < final(model).mating_pool@.len() ==> (
            #[trigger] final(model).mating_pool@[i]).values@.len() == old(
                model,
            ).objectives@.len(),
        final(model).objectives@ == old(model).objectives@,
        final(model).population@ == old(model).population@,
        final(model).archive@ == old(model).archive@,
        final(model).population_size == old(model).population_size,
        final(model).neighbourhood_size == old(model).neighbourhood_size,
        final(model).mutation_numerator == old(model).mutation_numerator,
        final(model).mutation_denominator == old(model).mutation_denominator,
        final(model).sort_axis() == old(model).sort_axis(),
{
    let n = model.mating_pool.len();
    let mut i: usize = 0;
    while i < n
        invariant
            i <= n,
            n == model.mating_pool@.len(),
            forall|x: int|
                0 <= x < n ==> (#[trigger] model.mating_pool@[x]).values@.len() == old(
                    model,
                ).objectives@.len(),
            model.objectives@ == old(model).objectives@,
            model.population@ == old(model).population@,
            model.archive@ == old(model).archive@,
            model.population_size == old(model).population_size,
            model.neighbourhood_size == old(model).neighbourhood_size,
            model.mutation_numerator == old(model).mutation_numerator,
            model.mutation_denominator == old(model).mutation_denominator,
            model.sort_axis() == old(model).sort_axis(),
            old(model).wf(),
        decreases n - i,
    {
        if rand_ratio(rng, model.mutation_numerator, model.mutation_denominator) {
            adapter.mutate(&model.objectives, &mut model.mating_pool[i], rng);
        }
        i = i + 1;
    }
}

} // verus!
