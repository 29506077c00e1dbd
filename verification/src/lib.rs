//! A verified implementation of the SPEA2 (Strength Pareto Evolutionary
//! Algorithm 2) generational loop: Pareto-strength fitness assignment,
//! archive-based environmental selection with nearest-neighbour truncation,
//! and reproduction (tournament mating selection, neighbourhood-localised
//! crossover, probabilistic mutation).
//!
//! Decision values are integers, distances are exact squared Euclidean
//! distances, and fitness is a pair (raw strength-based fitness, k-th
//! nearest-neighbour squared distance) ordered exactly as the real number
//! `raw + 1 / sqrt(kth_sq)` would be.
#![verifier::loop_isolation(false)]

pub mod crossover;
pub mod fitness;
pub mod math;
pub mod mocks;
pub mod model;
pub mod mutation;
pub mod reproduction;
pub mod rng;
pub mod selection;
pub mod sort;

use vstd::prelude::*;

use crate::model::{Model, Spea2Error, Spea2Model};

verus! {

/// A collection of members that can seed a population.
pub trait Population {
    /// Produces an initial set of members.
    fn initilise<T: Member>(&self) -> Vec<T>;
}

/// A population member that can randomise its own state.
pub trait Member {
    /// Re-draws the member's state.
    fn randomise(&self);
}

/// Asks every member of the collection to randomise itself.
pub fn update<T: Member>(members: Vec<T>) {
    let mut i: usize = 0;
    while i < members.len()
        decreases members@.len() - i,
    {
        members[i].randomise();
        i = i + 1;
    }
}

/// One generation of the optimizer: fitness assignment over the union of
/// population and archive, environmental selection into the archive, and
/// reproduction of the next population. Returns an error, and leaves the
/// container untouched, exactly when the container is malformed, the
/// population size is below two, or the union holds fewer than two
/// candidates; the caller drives the generation loop.
pub fn evolve<M: Spea2Model>(
    model: &mut Model,
    adapter: &mut M,
    rng: &mut rand::rngs::StdRng,
) -> (r: Result<(), Spea2Error>)
    ensures
        r is Ok <==> old(model).wf() && old(model).population_size >= 2 && old(
            model,
        ).population@.len() + old(model).archive@.len() >= 2,
        r is Err ==> *final(model) == *old(model) && r == Err::<(), Spea2Error>(
            Spea2Error::InvariantViolation,
        ),
        r is Ok ==> final(model).wf(),
        r is Ok ==> final(model).population@.len() == old(model).population_size,
        r is Ok ==> final(model).mating_pool@.len() == 0,
        r is Ok ==> final(model).archive@.len() == if old(model).population@.len() + old(
            model,
        ).archive@.len() >= old(model).population_size {
            old(model).population_size as int
        } else {
            old(model).population@.len() + old(model).archive@.len() as int
        },
{
    let union_big_enough = model.population.len() >= 2 || model.archive.len() >= 2 || (
    model.population.len() == 1 && model.archive.len() == 1);
    if !(model.check_wf() && model.population_size >= 2 && union_big_enough) {
        return Err(Spea2Error::InvariantViolation);
    }
    fitness::set_fitness(model);
    selection::apply_selection(model);
    reproduction::reproduce(model, adapter, rng);
    Ok(())
}

} // verus!
