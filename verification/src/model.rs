//! Shared data model of the optimizer: objectives, candidates, fitness
//! values, pairwise distances and the population container, together with the
//! adapter contract through which optimization problems plug in.
use vstd::prelude::*;
use crate::math::trunc_div;

verus! {

/// Whether an objective's value is to be maximised or minimised.
#[derive(Clone, Copy, Debug, PartialEq, Eq, Structural)]
pub enum Direction {
    Maximised,
    Minimised,
}

/// One objective of the optimization problem. `index` is the position of the
/// objective's value inside every candidate's value vector.
#[derive(Debug)]
pub struct Objective {
    pub name: String,
    pub direction: Direction,
    pub min: i32,
    pub max: i32,
    pub index: usize,
}

/// The fitness of a candidate, assigned once per generation.
///
/// The value it stands for is the real number `raw + 1 / sqrt(kth_sq)`:
/// `raw` is the strength-based raw fitness (0 exactly for candidates that no
/// other candidate dominates) and `kth_sq` is the squared Euclidean distance
/// to the k-th nearest neighbour in objective space, whose inverse square
/// root is the density estimate. `kth_sq == 0` stands for an infinite
/// density (a candidate that coincides with its k-th nearest neighbour).
/// Comparisons ([`Fitness::spec_lt`]) order pairs exactly as those real
/// numbers are ordered; no rounding is involved.
#[derive(Clone, Copy, Debug, PartialEq, Eq, Structural)]
pub struct Fitness {
    pub raw: u128,
    pub kth_sq: u128,
}

impl Fitness {
    /// The fitness of a candidate before the assignor has run: the least
    /// possible value, standing for (just above) zero.
    pub open spec fn spec_initial() -> Fitness {
        Fitness { raw: 0, kth_sq: u128::MAX }
    }

    /// Fitness of a freshly created candidate (stale until assigned).
    pub fn initial() -> (r: Fitness)
        ensures
            r == Fitness::spec_initial(),
    {
        Fitness { raw: 0, kth_sq: u128::MAX }
    }

    /// Strict order: `self` stands for a strictly smaller (better) real value
    /// than `other`. A zero `kth_sq` stands for an infinite value, so it is
    /// never strictly below anything and strictly above everything finite.
    /// For finite values, a smaller `raw` part wins outright (the density
    /// part lies in (0, 1]), and equal `raw` parts are ordered by density,
    /// i.e. inversely by `kth_sq`.
    pub open spec fn spec_lt(self, other: Fitness) -> bool {
        if self.kth_sq == 0 {
            false
        } else if other.kth_sq == 0 {
            true
        } else {
            self.raw < other.raw || (self.raw == other.raw && self.kth_sq > other.kth_sq)
        }
    }

    /// Non-strict order on fitness values.
    pub open spec fn spec_le(self, other: Fitness) -> bool {
        !other.spec_lt(self)
    }

    /// Executable strict comparison.
    pub fn lt(&self, other: &Fitness) -> (r: bool)
        ensures
            r == self.spec_lt(*other),
    {
        if self.kth_sq == 0 {
            false
        } else if other.kth_sq == 0 {
            true
        } else {
            self.raw < other.raw || (self.raw == other.raw && self.kth_sq > other.kth_sq)
        }
    }

    /// Executable non-strict comparison.
    pub fn le(&self, other: &Fitness) -> (r: bool)
        ensures
            r == self.spec_le(*other),
    {
        !other.lt(self)
    }

    /// The environmental selector's partition test: the fitness value is
    /// strictly below 1, which holds exactly for the candidates that no other
    /// candidate dominates (`raw == 0`) whose density estimate is strictly
    /// below 1 (`kth_sq > 1`).
    pub open spec fn spec_is_non_dominated(self) -> bool {
        self.raw == 0 && self.kth_sq > 1
    }

    /// Executable partition test; see [`Fitness::spec_is_non_dominated`].
    pub fn is_non_dominated(&self) -> (r: bool)
        ensures
            r == self.spec_is_non_dominated(),
    {
        self.raw == 0 && self.kth_sq > 1
    }
}

/// The order on fitness values is total: any two values are comparable.
pub proof fn lemma_fitness_le_total(a: Fitness, b: Fitness)
    ensures
        a.spec_le(b) || b.spec_le(a),
        a.spec_le(b) && b.spec_le(a) ==> !a.spec_lt(b) && !b.spec_lt(a),
{
}

/// The order on fitness values is transitive.
pub proof fn lemma_fitness_le_trans(a: Fitness, b: Fitness, c: Fitness)
    requires
        a.spec_le(b),
        b.spec_le(c),
    ensures
        a.spec_le(c),
{
}

/// One candidate solution. `values` holds one value per objective;
/// `custom_data_index` is an opaque back-reference into adapter-owned state
/// that the core only threads through to the adapter's mutation hook.
#[derive(Debug)]
pub struct ModelItem {
    pub values: Vec<i32>,
    pub fitness: Fitness,
    pub custom_data_index: Option<usize>,
}

impl ModelItem {
    /// A new candidate with the given values and a stale initial fitness.
    pub fn new(values: Vec<i32>, custom_data_index: Option<usize>) -> (r: ModelItem)
        ensures
            r.values@ == values@,
            r.fitness == Fitness::spec_initial(),
            r.custom_data_index == custom_data_index,
    {
        ModelItem { values, fitness: Fitness::initial(), custom_data_index }
    }
}

impl Clone for ModelItem {
    /// Cloning a candidate keeps its values, fitness and adapter handle.
    fn clone(&self) -> (r: Self)
        ensures
            r.values@ == self.values@,
            r.fitness == self.fitness,
            r.custom_data_index == self.custom_data_index,
    {
        ModelItem {
            values: self.values.clone(),
            fitness: self.fitness,
            custom_data_index: self.custom_data_index,
        }
    }
}

/// The squared Euclidean distance between the candidates at positions `from`
/// and `to` of some candidate list. Squared distances order and compare
/// exactly as the distances themselves do.
#[derive(Clone, Copy, Debug, PartialEq, Eq, Structural)]
pub struct Distance {
    pub from: usize,
    pub to: usize,
    pub value: u128,
}

impl Distance {
    /// A new distance record.
    pub fn new(from: usize, to: usize, value: u128) -> (r: Distance)
        ensures
            r == (Distance { from, to, value }),
    {
        Distance { from, to, value }
    }
}

/// Every candidate of `items` has one value per objective.
pub open spec fn items_wf(items: Seq<ModelItem>, n_objectives: nat) -> bool {
    forall|i: int| 0 <= i < items.len() ==> #[trigger] items[i].values@.len() == n_objectives
}

/// The cyclic counter that selects the crossover axis. Its value is kept
/// private so that only [`Model::next_objective_sort_index`] can advance it.
#[derive(Debug)]
pub struct AxisCounter {
    value: usize,
}

impl AxisCounter {
    /// The counter's current value.
    pub closed spec fn spec_value(self) -> usize {
        self.value
    }

    /// A counter starting at the first objective.
    pub fn new() -> (r: AxisCounter)
        ensures
            r.spec_value() == 0,
    {
        AxisCounter { value: 0 }
    }

    /// Reads the counter's current value.
    pub fn get(&self) -> (r: usize)
        ensures
            r == self.spec_value(),
    {
        self.value
    }

    /// Returns the current value and advances the counter, wrapping back to 0
    /// once it would reach `n_objectives`.
    pub fn advance(&mut self, n_objectives: usize) -> (r: usize)
        requires
            old(self).spec_value() < n_objectives,
        ensures
            r == old(self).spec_value(),
            final(self).spec_value() == if old(self).spec_value() + 1 >= n_objectives {
                0usize
            } else {
                (old(self).spec_value() + 1) as usize
            },
    {
        let index = self.value;
        self.value = self.value + 1;
        if self.value >= n_objectives {
            self.value = 0;
        }
        index
    }
}

/// The population container: the objectives, the current population, the
/// elite archive, the transient mating pool, and the run's configuration.
#[derive(Debug)]
pub struct Model {
    pub objectives: Vec<Objective>,
    pub population: Vec<ModelItem>,
    pub archive: Vec<ModelItem>,
    pub mating_pool: Vec<ModelItem>,
    pub population_size: usize,
    pub neighbourhood_size: usize,
    pub mutation_numerator: u32,
    pub mutation_denominator: u32,
    pub objective_sort_index: AxisCounter,
}

/// Default mutation probability, as the ratio 6 / 100.
pub const MUTATION_RATE_NUMERATOR: u32 = 6;

/// Denominator of the default mutation probability.
pub const MUTATION_RATE_DENOMINATOR: u32 = 100;

impl Model {
    /// The cyclic crossover-axis counter's current value.
    pub open spec fn sort_axis(self) -> usize {
        self.objective_sort_index.spec_value()
    }

    /// Well-formedness of the container: at least one objective, every
    /// objective's `index` in range, every candidate in every list carrying
    /// one value per objective, the axis counter in range, a positive
    /// neighbourhood size, and a valid mutation ratio.
    pub open spec fn wf(self) -> bool {
        &&& self.objectives@.len() >= 1
        &&& forall|k: int|
            0 <= k < self.objectives@.len() ==> (#[trigger] self.objectives@[k].index)
                < self.objectives@.len()
        &&& items_wf(self.population@, self.objectives@.len())
        &&& items_wf(self.archive@, self.objectives@.len())
        &&& items_wf(self.mating_pool@, self.objectives@.len())
        &&& self.sort_axis() < self.objectives@.len()
        &&& self.neighbourhood_size >= 1
        &&& self.mutation_denominator > 0
        &&& self.mutation_numerator <= self.mutation_denominator
    }

    /// Ceiling of `population_size / 10`: the width of the blocks that the
    /// crossover operator shuffles.
    pub open spec fn spec_neighbourhood_size(population_size: usize) -> usize {
        if population_size % 10 != 0 {
            (population_size / 10 + 1) as usize
        } else {
            population_size / 10
        }
    }

    /// A new container over the given objectives and initial population, with
    /// an empty archive and mating pool, the population size fixed to the
    /// initial population's length, the neighbourhood size derived from it,
    /// and the default mutation rate.
    pub fn new(objectives: Vec<Objective>, population: Vec<ModelItem>) -> (r: Model)
        requires
            objectives@.len() >= 1,
            population@.len() >= 1,
            forall|k: int|
                0 <= k < objectives@.len() ==> (#[trigger] objectives@[k].index)
                    < objectives@.len(),
            items_wf(population@, objectives@.len()),
        ensures
            r.wf(),
            r.objectives@ == objectives@,
            r.population@ == population@,
            r.archive@.len() == 0,
            r.mating_pool@.len() == 0,
            r.population_size == population@.len(),
            r.neighbourhood_size == Model::spec_neighbourhood_size(r.population_size),
            r.mutation_numerator == MUTATION_RATE_NUMERATOR,
            r.mutation_denominator == MUTATION_RATE_DENOMINATOR,
            r.sort_axis() == 0,
    {
        let population_size = population.len();
        let neighbourhood_size = if population_size % 10 != 0 {
            population_size / 10 + 1
        } else {
            population_size / 10
        };
        Model {
            objectives,
            population,
            archive: Vec::new(),
            mating_pool: Vec::new(),
            population_size,
            neighbourhood_size,
            mutation_numerator: MUTATION_RATE_NUMERATOR,
            mutation_denominator: MUTATION_RATE_DENOMINATOR,
            objective_sort_index: AxisCounter::new(),
        }
    }

    /// Returns the current crossover axis and advances the cyclic counter,
    /// wrapping back to 0 after the last objective.
    pub fn next_objective_sort_index(&mut self) -> (r: usize)
        requires
            old(self).wf(),
        ensures
            r == old(self).sort_axis(),
            r < old(self).objectives@.len(),
            final(self).sort_axis() == if old(self).sort_axis() + 1
                >= old(self).objectives@.len() {
                0usize
            } else {
                (old(self).sort_axis() + 1) as usize
            },
            final(self).wf(),
            final(self).objectives@ == old(self).objectives@,
            final(self).population@ == old(self).population@,
            final(self).archive@ == old(self).archive@,
            final(self).mating_pool@ == old(self).mating_pool@,
            final(self).population_size == old(self).population_size,
            final(self).neighbourhood_size == old(self).neighbourhood_size,
            final(self).mutation_numerator == old(self).mutation_numerator,
            final(self).mutation_denominator == old(self).mutation_denominator,
    {
        let n = self.objectives.len();
        self.objective_sort_index.advance(n)
    }
}


/// A broken run invariant surfaced by the orchestrator instead of a panic:
/// a misconfigured adapter or a malformed container.
#[derive(Clone, Copy, Debug, PartialEq, Eq, Structural)]
pub enum Spea2Error {
    InvariantViolation,
}

/// One candidate carries the same data as another (they are copies up to
/// allocation).
pub open spec fn copies(a: ModelItem, b: ModelItem) -> bool {
    &&& a.values@ == b.values@
    &&& a.fitness == b.fitness
    &&& a.custom_data_index == b.custom_data_index
}

/// The adapter contract: an external collaborator builds the initial
/// container and supplies the mutation behaviour, keyed by each candidate's
/// opaque `custom_data_index` handle.
pub trait Spea2Model {
    /// Builds the initial population container (objectives and initial
    /// candidates).
    fn get_model(&self) -> (r: Model)
        ensures
            r.wf(),
    ;

    /// The mutation hook: may rewrite the candidate's values and any
    /// adapter-owned state behind the candidate's handle; the core imposes
    /// only that the value vector keeps its length.
    fn mutate(
        &mut self,
        objectives: &Vec<Objective>,
        item: &mut ModelItem,
        rng: &mut rand::rngs::StdRng,
    )
        ensures
            final(item).values@.len() == old(item).values@.len(),
    ;
}

/// The sum of the archive's values at one position of the value vector,
/// over the first `m` candidates.
pub open spec fn column_sum(items: Seq<ModelItem>, idx: int, m: int) -> int
    decreases m,
{
    if m <= 0 {
        0
    } else {
        column_sum(items, idx, m - 1) + items[m - 1].values@[idx]
    }
}

/// Column sums over `i32` values stay within `m` times the `i32` range.
pub proof fn lemma_column_sum_bounds(items: Seq<ModelItem>, idx: int, m: int)
    requires
        0 <= m <= items.len(),
    ensures
        -(m * 0x8000_0000) <= column_sum(items, idx, m) <= m * 0x8000_0000,
    decreases m,
{
    if m > 0 {
        lemma_column_sum_bounds(items, idx, m - 1);
        assert((m - 1) * 0x8000_0000 + 0x8000_0000 == m * 0x8000_0000) by (nonlinear_arith);
    }
}

/// The sum of the archive's raw fitness parts over the first `m` candidates.
pub open spec fn raw_fitness_sum(items: Seq<ModelItem>, m: int) -> int
    decreases m,
{
    if m <= 0 {
        0
    } else {
        raw_fitness_sum(items, m - 1) + items[m - 1].fitness.raw
    }
}

impl Model {
    /// Executable well-formedness check, for callers that cannot establish
    /// [`Model::wf`] statically.
    pub fn check_wf(&self) -> (r: bool)
        ensures
            r == self.wf(),
    {
        if self.objectives.len() < 1 {
            return false;
        }
        if self.neighbourhood_size < 1 {
            return false;
        }
        if self.mutation_denominator == 0 || self.mutation_numerator > self.mutation_denominator {
            return false;
        }
        if self.objective_sort_index.get() >= self.objectives.len() {
            return false;
        }
        let n_obj = self.objectives.len();
        let mut k: usize = 0;
        while k < n_obj
            invariant
                n_obj == self.objectives@.len(),
                k <= n_obj,
                forall|x: int|
                    0 <= x < k ==> (#[trigger] self.objectives@[x].index) < n_obj,
            decreases n_obj - k,
        {
            if self.objectives[k].index >= n_obj {
                return false;
            }
            k = k + 1;
        }
        let mut i: usize = 0;
        while i < self.population.len()
            invariant
                n_obj == self.objectives@.len(),
                i <= self.population@.len(),
                forall|x: int|
                    0 <= x < i ==> (#[trigger] self.population@[x]).values@.len() == n_obj,
            decreases self.population@.len() - i,
        {
            if self.population[i].values.len() != n_obj {
                return false;
            }
            i = i + 1;
        }
        let mut a: usize = 0;
        while a < self.archive.len()
            invariant
                n_obj == self.objectives@.len(),
                a <= self.archive@.len(),
                forall|x: int|
                    0 <= x < a ==> (#[trigger] self.archive@[x]).values@.len() == n_obj,
            decreases self.archive@.len() - a,
        {
            if self.archive[a].values.len() != n_obj {
                return false;
            }
            a = a + 1;
        }
        let mut p: usize = 0;
        while p < self.mating_pool.len()
            invariant
                n_obj == self.objectives@.len(),
                p <= self.mating_pool@.len(),
                forall|x: int|
                    0 <= x < p ==> (#[trigger] self.mating_pool@[x]).values@.len() == n_obj,
            decreases self.mating_pool@.len() - p,
        {
            if self.mating_pool[p].values.len() != n_obj {
                return false;
            }
            p = p + 1;
        }
        true
    }

    /// The archive's mean value per objective, as truncating integer
    /// division of each objective column's sum by the archive length; entry
    /// `k` belongs to the objective at position `k`, read at its `index`
    /// into the value vectors.
    pub fn get_average_archive_values(&self) -> (r: Vec<i64>)
        requires
            self.wf(),
            self.archive@.len() >= 1,
        ensures
            r@.len() == self.objectives@.len(),
            forall|k: int|
                0 <= k < r@.len() ==> (#[trigger] r@[k]) as int == trunc_div(
                    column_sum(
                        self.archive@,
                        self.objectives@[k].index as int,
                        self.archive@.len() as int,
                    ),
                    self.archive@.len() as int,
                ),
    {
        let len = self.archive.len();
        let n_obj = self.objectives.len();
        let mut r: Vec<i64> = Vec::new();
        let mut k: usize = 0;
        while k < n_obj
            invariant
                self.wf(),
                len == self.archive@.len(),
                len >= 1,
                n_obj == self.objectives@.len(),
                k <= n_obj,
                r@.len() == k,
                forall|x: int|
                    0 <= x < k ==> (#[trigger] r@[x]) as int == trunc_div(
                        column_sum(self.archive@, self.objectives@[x].index as int, len as int),
                        len as int,
                    ),
            decreases n_obj - k,
        {
            let idx = self.objectives[k].index;
            let mut sum: i128 = 0;
            let mut i: usize = 0;
            while i < len
                invariant
                    self.wf(),
                    len == self.archive@.len(),
                    n_obj == self.objectives@.len(),
                    idx < n_obj,
                    i <= len,
                    sum as int == column_sum(self.archive@, idx as int, i as int),
                    -((i as int) * 0x8000_0000) <= sum as int <= (i as int) * 0x8000_0000,
                decreases len - i,
            {
                proof {
                    assert((i as int) * 0x8000_0000 + 0x8000_0000 == (i as int + 1)
                        * 0x8000_0000) by (nonlinear_arith);
                    assert((i as int + 1) * 0x8000_0000 <= 0x1_0000_0000_0000_0000_0000_0000i128)
                        by (nonlinear_arith)
                        requires
                            0 <= i as int,
                            i as int + 1 <= 0xffff_ffff_ffff_ffffu64,
                    ;
                }
                let v = self.archive[i].values[idx];
                sum = sum + (v as i128);
                i = i + 1;
            }
            let q_opt = sum.checked_div(len as i128);
            proof {
                lemma_column_sum_bounds(self.archive@, idx as int, len as int);
                crate::math::lemma_trunc_div_bound(sum as int, len as int, 0x8000_0000);
            }
            let q = q_opt.unwrap();
            r.push(q as i64);
            proof {
                assert(q as int == trunc_div(sum as int, len as int));
            }
            k = k + 1;
        }
        r
    }

    /// The archive's mean raw fitness: the truncating quotient of the sum of
    /// the raw fitness parts (saturated at the `u128` range) by the archive
    /// length. The density parts, each below one, are not included.
    pub fn get_average_fitness(&self) -> (r: u128)
        requires
            self.archive@.len() >= 1,
        ensures
            raw_fitness_sum(self.archive@, self.archive@.len() as int) <= u128::MAX ==> r as int
                == raw_fitness_sum(self.archive@, self.archive@.len() as int) / (
            self.archive@.len() as int),
            raw_fitness_sum(self.archive@, self.archive@.len() as int) > u128::MAX ==> r as int
                == (u128::MAX as int) / (self.archive@.len() as int),
    {
        let len = self.archive.len();
        let mut sum: u128 = 0;
        let mut i: usize = 0;
        while i < len
            invariant
                len == self.archive@.len(),
                i <= len,
                raw_fitness_sum(self.archive@, i as int) <= u128::MAX ==> sum as int
                    == raw_fitness_sum(self.archive@, i as int),
                raw_fitness_sum(self.archive@, i as int) > u128::MAX ==> sum == u128::MAX,
                sum as int <= raw_fitness_sum(self.archive@, i as int),
            decreases len - i,
        {
            let raw = self.archive[i].fitness.raw;
            sum = if u128::MAX - sum >= raw {
                sum + raw
            } else {
                u128::MAX
            };
            i = i + 1;
        }
        sum / (len as u128)
    }
}

} // verus!
