//! Ready-made fixtures: a small two-objective model, hand-scored candidate
//! lists, distance-record lists with and without ties, and a mock adapter.
use vstd::prelude::*;
use vstd::string::StringExecFns;
use crate::model::{
    Direction, Distance, Fitness, Model, ModelItem, Objective, Spea2Model, items_wf,
};
use crate::rng::rand_below;

verus! {

/// Smallest value a mock objective takes.
pub const MOCK_MIN_OBJECTIVE_VALUE: i32 = 0;

/// Largest value a mock objective takes.
pub const MOCK_MAX_OBJECTIVE_VALUE: i32 = 100;

/// Number of candidates in the mock populations.
pub const MOCK_POPULATION_COUNT: usize = 10;

/// Two mock objectives: the first maximised, the second minimised, both over
/// `[0, 100]`.
pub fn get_objectives() -> (r: Vec<Objective>)
    ensures
        r@.len() == 2,
        r@[0].direction == Direction::Maximised,
        r@[0].index == 0,
        r@[1].direction == Direction::Minimised,
        r@[1].index == 1,
{
    let mut r: Vec<Objective> = Vec::new();
    r.push(
        Objective {
            name: String::from_str("mock_objective_maximised"),
            direction: Direction::Maximised,
            min: MOCK_MIN_OBJECTIVE_VALUE,
            max: MOCK_MAX_OBJECTIVE_VALUE,
            index: 0,
        },
    );
    r.push(
        Objective {
            name: String::from_str("mock_objective_minimised"),
            direction: Direction::Minimised,
            min: MOCK_MIN_OBJECTIVE_VALUE,
            max: MOCK_MAX_OBJECTIVE_VALUE,
            index: 1,
        },
    );
    r
}

/// A candidate with the given values and a pre-set fitness.
pub fn get_model_item_with_fitness(values: Vec<i32>, fitness: Fitness) -> (r: ModelItem)
    ensures
        r.values@ == values@,
        r.fitness == fitness,
{
    let mut item = ModelItem::new(values, None);
    item.fitness = fitness;
    item
}

/// A two-valued candidate with a stale fitness and no adapter handle.
fn item2(a: i32, b: i32) -> (r: ModelItem)
    ensures
        r.values@ == seq![a, b],
        r.values@.len() == 2,
{
    let mut values: Vec<i32> = Vec::new();
    values.push(a);
    values.push(b);
    proof {
        assert(values@ =~= seq![a, b]);
    }
    ModelItem::new(values, None)
}

/// A two-valued candidate with a pre-set fitness.
fn item2_fit(a: i32, b: i32, raw: u128, kth_sq: u128) -> (r: ModelItem)
    ensures
        r.values@ == seq![a, b],
        r.fitness == (Fitness { raw, kth_sq }),
{
    let mut item = item2(a, b);
    item.fitness = Fitness { raw, kth_sq };
    item
}

/// `MOCK_POPULATION_COUNT + 1` candidates with values `[count - i, i]`.
pub fn get_sequential_model_item_vec() -> (r: Vec<ModelItem>)
    ensures
        r@.len() == MOCK_POPULATION_COUNT + 1,
        items_wf(r@, 2),
{
    let count = MOCK_POPULATION_COUNT;
    let mut r: Vec<ModelItem> = Vec::new();
    let mut i: usize = 0;
    while i <= count
        invariant
            count == MOCK_POPULATION_COUNT,
            i <= count + 1,
            r@.len() == i,
            items_wf(r@, 2),
        decreases count + 1 - i,
    {
        r.push(item2((count - i) as i32, i as i32));
        i = i + 1;
    }
    r
}

/// `MOCK_POPULATION_COUNT` candidates with values `[i, count - i]`.
fn get_spread_model_item_vec() -> (r: Vec<ModelItem>)
    ensures
        r@.len() == MOCK_POPULATION_COUNT,
        items_wf(r@, 2),
{
    let count = MOCK_POPULATION_COUNT;
    let mut r: Vec<ModelItem> = Vec::new();
    let mut i: usize = 0;
    while i < count
        invariant
            count == MOCK_POPULATION_COUNT,
            i <= count,
            r@.len() == i,
            items_wf(r@, 2),
        decreases count - i,
    {
        r.push(item2(i as i32, (count - i) as i32));
        i = i + 1;
    }
    r
}

/// Three scored candidates, all with fitness below one.
pub fn get_dominated() -> (r: Vec<ModelItem>)
    ensures
        r@.len() == 3,
        items_wf(r@, 2),
{
    let mut r: Vec<ModelItem> = Vec::new();
    r.push(item2_fit(0, 0, 0, 100));
    r.push(item2_fit(4, 0, 0, 25));
    r.push(item2_fit(0, 3, 0, 11));
    r
}

/// Four scored candidates, all with fitness of one or more.
pub fn get_non_dominated() -> (r: Vec<ModelItem>)
    ensures
        r@.len() == 4,
        items_wf(r@, 2),
{
    let mut r: Vec<ModelItem> = Vec::new();
    r.push(item2_fit(5, 0, 0, 1));
    r.push(item2_fit(0, 12, 1, 100));
    r.push(item2_fit(7, 0, 1, 25));
    r.push(item2_fit(0, 24, 1, 11));
    r
}

/// Six distance records already in ascending order, with a tie on the two
/// smallest values that shares the anchor index 0.
pub fn get_sorted_distances() -> (r: Vec<Distance>)
    ensures
        r@.len() == 6,
{
    let mut r: Vec<Distance> = Vec::new();
    r.push(Distance::new(0, 1, 1));
    r.push(Distance::new(0, 2, 1));
    r.push(Distance::new(0, 3, 3));
    r.push(Distance::new(1, 2, 4));
    r.push(Distance::new(1, 3, 5));
    r.push(Distance::new(3, 2, 6));
    r
}

/// Six distance records, unsorted, whose two smallest values tie across the
/// anchors 0 and 1.
pub fn get_distances_with_tie() -> (r: Vec<Distance>)
    ensures
        r@.len() == 6,
{
    let mut r: Vec<Distance> = Vec::new();
    r.push(Distance::new(0, 1, 1));
    r.push(Distance::new(0, 2, 2));
    r.push(Distance::new(0, 3, 4));
    r.push(Distance::new(1, 2, 3));
    r.push(Distance::new(1, 3, 1));
    r.push(Distance::new(3, 2, 5));
    r
}

/// A small container: two candidates in the population, one in the archive,
/// over the two mock objectives.
pub fn get_model_basic() -> (r: Model)
    ensures
        r.wf(),
        r.population@.len() == 2,
        r.archive@.len() == 1,
        r.objectives@.len() == 2,
{
    let objectives = get_objectives();
    let mut population: Vec<ModelItem> = Vec::new();
    population.push(item2(0, 0));
    population.push(item2(4, 0));
    let mut model = Model::new(objectives, population);
    let mut archive: Vec<ModelItem> = Vec::new();
    archive.push(item2(0, 3));
    model.archive = archive;
    model
}

/// The small container with fitness values already assigned: the two
/// population members stand just below and above the partition threshold,
/// the archive member below it.
pub fn get_model_with_fitness() -> (r: Model)
    ensures
        r.wf(),
        r.population@.len() == 2,
        r.archive@.len() == 1,
{
    let mut model = get_model_basic();
    let mut population: Vec<ModelItem> = Vec::new();
    population.push(item2_fit(0, 0, 0, 100));
    population.push(item2_fit(4, 0, 1, 4));
    let mut archive: Vec<ModelItem> = Vec::new();
    archive.push(item2_fit(0, 3, 0, 2));
    model.population = population;
    model.archive = archive;
    model
}

/// A container whose mating pool holds `MOCK_POPULATION_COUNT` candidates
/// with values `[i, count - i]`.
pub fn get_model_with_mating_pool() -> (r: Model)
    ensures
        r.wf(),
        r.mating_pool@.len() == MOCK_POPULATION_COUNT,
        r.population_size == MOCK_POPULATION_COUNT,
{
    let objectives = get_objectives();
    let population = get_spread_model_item_vec();
    let mut model = Model::new(objectives, population);
    model.mating_pool = get_spread_model_item_vec();
    model
}

/// A container whose archive holds the sequential candidates, whose values
/// average to half the population count on both objectives.
pub fn get_model_with_archive() -> (r: Model)
    ensures
        r.wf(),
        r.archive@.len() == MOCK_POPULATION_COUNT + 1,
{
    let objectives = get_objectives();
    let population = get_spread_model_item_vec();
    let mut model = Model::new(objectives, population);
    model.archive = get_sequential_model_item_vec();
    model
}

/// A mock adapter over the two mock objectives.
pub fn get_model() -> (r: MockModel)
{
    MockModel {  }
}

/// A mock optimization problem: a spread of two-valued candidates over the
/// mock objectives, with a mutation hook that re-draws one value uniformly
/// within its objective's range.
#[derive(Debug)]
pub struct MockModel {}

impl Spea2Model for MockModel {
    /// Builds the mock container: the two mock objectives and a spread
    /// population.
    fn get_model(&self) -> (r: Model) {
        let objectives = get_objectives();
        let population = get_spread_model_item_vec();
        Model::new(objectives, population)
    }

    /// Re-draws one randomly chosen value of the candidate uniformly within
    /// the matching objective's `[min, max]` range.
    fn mutate(
        &mut self,
        objectives: &Vec<Objective>,
        item: &mut ModelItem,
        rng: &mut rand::rngs::StdRng,
    ) {
        if objectives.len() == 0 {
            return ;
        }
        let axis = rand_below(rng, objectives.len());
        let min = objectives[axis].min;
        let max = objectives[axis].max;
        if min <= max && (max as i64) - (min as i64) < 1_000_000 {
            let span = ((max as i64) - (min as i64) + 1) as usize;
            let draw = rand_below(rng, span);
            let value = ((min as i64) + (draw as i64)) as i32;
            if axis < item.values.len() {
                item.values[axis] = value;
            }
        }
    }
}

} // verus!
