//! The reproduction pipeline: binary-tournament mating selection from the
//! archive, neighbourhood-localised crossover, probabilistic mutation, and
//! population replacement.
use vstd::prelude::*;
use crate::crossover::neighbourhood_crossover;
use crate::model::{copies, Model, ModelItem, Spea2Model};
use crate::mutation::mutate;
use crate::rng::rand_below;

verus! {

/// Every candidate of `pool` is a copy of the fitter of two distinct members
/// of `archive`.
pub open spec fn tournament_pool(pool: Seq<ModelItem>, archive: Seq<ModelItem>) -> bool {
    forall|p: int|
        0 <= p < pool.len() ==> exists|a: int, b: int|
            {
                &&& 0 <= a < archive.len()
                &&& 0 <= b < archive.len()
                &&& a != b
                &&& copies(
                    #[trigger] pool[p],
                    if archive[a].fitness.spec_le(archive[b].fitness) {
                        archive[a]
                    } else {
                        archive[b]
                    },
                )
            }
}

/// Binary-tournament mating selection: clears the mating pool and fills it
/// with `population_size` candidates, each a copy of the fitter of two
/// distinct archive members drawn at random.
pub fn select_mating_pool(model: &mut Model, rng: &mut rand::rngs::StdRng)
    requires
        old(model).wf(),
        old(model).archive@.len() >= 2,
    ensures
        final(model).wf(),
        final(model).mating_pool@.len() == old(model).population_size,
        tournament_pool(final(model).mating_pool@, old(model).archive@),
        final(model).objectives@ == old(model).objectives@,
        final(model).population@ == old(model).population@,
        final(model).archive@ == old(model).archive@,
        final(model).population_size == old(model).population_size,
        final(model).neighbourhood_size == old(model).neighbourhood_size,
        final(model).mutation_numerator == old(model).mutation_numerator,
        final(model).mutation_denominator == old(model).mutation_denominator,
        final(model).sort_axis() == old(model).sort_axis(),
{
    model.mating_pool.clear();
    let len = model.archive.len();
    let ps = model.population_size;
    let mut c: usize = 0;
    while c < ps
        invariant
            old(model).wf(),
            c <= ps,
            ps == model.population_size,
            len == model.archive@.len(),
            len >= 2,
            model.mating_pool@.len() == c,
            tournament_pool(model.mating_pool@, old(model).archive@),
            model.objectives@ == old(model).objectives@,
            model.population@ == old(model).population@,
            model.archive@ == old(model).archive@,
            model.neighbourhood_size == old(model).neighbourhood_size,
            model.mutation_numerator == old(model).mutation_numerator,
            model.mutation_denominator == old(model).mutation_denominator,
            model.sort_axis() == old(model).sort_axis(),
        decreases ps - c,
    {
        let i = rand_below(rng, len);
        let j0 = rand_below(rng, len - 1);
        let j = if j0 >= i {
            j0 + 1
        } else {
            j0
        };
        let winner = if model.archive[i].fitness.le(&model.archive[j].fitness) {
            model.archive[i].clone()
        } else {
            model.archive[j].clone()
        };
        let ghost pool0 = model.mating_pool@;
        model.mating_pool.push(winner);
        proof {
            let arch = old(model).archive@;
            assert forall|p: int|
                0 <= p < model.mating_pool@.len() implies exists|a: int, b: int|
                    {
                        &&& 0 <= a < arch.len()
                        &&& 0 <= b < arch.len()
                        &&& a != b
                        &&& copies(
                            #[trigger] model.mating_pool@[p],
                            if arch[a].fitness.spec_le(arch[b].fitness) {
                                arch[a]
                            } else {
                                arch[b]
                            },
                        )
                    } by {
                if p < c as int {
                    assert(model.mating_pool@[p] == pool0[p]);
                } else {
                    let a = i as int;
                    let b = j as int;
                    assert(0 <= a < arch.len() && 0 <= b < arch.len() && a != b && copies(
                        model.mating_pool@[p],
                        if arch[a].fitness.spec_le(arch[b].fitness) {
                            arch[a]
                        } else {
                            arch[b]
                        },
                    ));
                }
            }
        }
        c = c + 1;
    }
}

/// Population replacement: the mating pool becomes the next population and
/// the pool is left empty.
pub fn set_next_population(model: &mut Model)
    requires
        old(model).wf(),
    ensures
        final(model).wf(),
        final(model).population@ == old(model).mating_pool@,
        final(model).mating_pool@.len() == 0,
        final(model).objectives@ == old(model).objectives@,
        final(model).archive@ == old(model).archive@,
        final(model).population_size == old(model).population_size,
        final(model).neighbourhood_size == old(model).neighbourhood_size,
        final(model).mutation_numerator == old(model).mutation_numerator,
        final(model).mutation_denominator == old(model).mutation_denominator,
        final(model).sort_axis() == old(model).sort_axis(),
{
    model.population.clear();
    model.population.append(&mut model.mating_pool);
    proof {
        assert(model.population@ =~= old(model).mating_pool@);
    }
}

/// The reproduction pipeline: tournament mating selection from the archive,
/// neighbourhood crossover, probabilistic mutation, and population
/// replacement. The archive is untouched; the new population has exactly
/// `population_size` candidates.
pub fn reproduce<M: Spea2Model>(model: &mut Model, adapter: &mut M, rng: &mut rand::rngs::StdRng)
    requires
        old(model).wf(),
        old(model).archive@.len() >= 2,
    ensures
        final(model).wf(),
        final(model).population@.len() == old(model).population_size,
        final(model).mating_pool@.len() == 0,
        final(model).archive@ == old(model).archive@,
        final(model).objectives@ == old(model).objectives@,
        final(model).population_size == old(model).population_size,
        final(model).neighbourhood_size == old(model).neighbourhood_size,
        final(model).mutation_numerator == old(model).mutation_numerator,
        final(model).mutation_denominator == old(model).mutation_denominator,
{
    select_mating_pool(model, rng);
    neighbourhood_crossover(model, rng);
    mutate(model, adapter, rng);
    set_next_population(model);
}

} // verus!
