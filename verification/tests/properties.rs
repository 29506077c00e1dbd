//! End-to-end and property-level tests: dominance scoring, distance
//! symmetry, archive sizing, tie-break determinism, crossover conservation,
//! mutation rate, and whole-run convergence.
use rand::rngs::StdRng;
use rand::SeedableRng;
use spea2::evolve;
use spea2::fitness::set_fitness;
use spea2::mocks;
use spea2::model::{
    Direction, Fitness, Model, ModelItem, Objective, Spea2Error, Spea2Model,
};
use spea2::mutation::mutate;
use spea2::reproduction::select_mating_pool;
use spea2::selection::apply_selection;

fn objective(name: &str, direction: Direction, index: usize) -> Objective {
    Objective {
        name: name.to_string(),
        direction,
        min: 0,
        max: 100,
        index,
    }
}

fn min_max_objectives() -> Vec<Objective> {
    vec![
        objective("first_minimised", Direction::Minimised, 0),
        objective("second_maximised", Direction::Maximised, 1),
    ]
}

/// Strengths, dominators and raw fitness of a known decision set, with
/// objective 0 minimised and objective 1 maximised.
#[test]
fn dominance_scoring_known_set() {
    let population = vec![
        ModelItem::new(vec![2, 4], None),
        ModelItem::new(vec![3, 3], None),
        ModelItem::new(vec![3, 2], None),
        ModelItem::new(vec![1, 5], None),
    ];
    let mut model = Model::new(min_max_objectives(), population);
    let (_, dominators, strengths) = set_fitness(&mut model);

    assert_eq!(strengths, vec![2, 0, 0, 3]);
    assert_eq!(dominators[0], vec![3]);
    assert_eq!(dominators[1], vec![0, 3]);
    assert_eq!(dominators[2], vec![0, 3]);
    assert_eq!(dominators[3], vec![]);

    // Raw fitness: the sum of the dominators' strengths.
    assert_eq!(model.population[0].fitness.raw, 3);
    assert_eq!(model.population[1].fitness.raw, 5);
    assert_eq!(model.population[2].fitness.raw, 5);
    assert_eq!(model.population[3].fitness.raw, 0);
}

/// The distance matrix is symmetric with an all-zero diagonal.
#[test]
fn distance_matrix_symmetry() {
    let population = vec![
        ModelItem::new(vec![2, 4], None),
        ModelItem::new(vec![3, 3], None),
        ModelItem::new(vec![3, 2], None),
        ModelItem::new(vec![1, 5], None),
    ];
    let mut model = Model::new(min_max_objectives(), population);
    let (distances, _, _) = set_fitness(&mut model);
    let n = distances.len();
    assert_eq!(n, 4);
    for i in 0..n {
        assert_eq!(distances[i][i], 0);
        for j in 0..n {
            assert_eq!(distances[i][j], distances[j][i]);
        }
    }
}

/// Post-selection the archive holds exactly `min(target, union size)`
/// candidates: the target when the union suffices, the whole union when it
/// falls short.
#[test]
fn archive_size_invariant() {
    for (n_pop, n_arch, target) in [(6usize, 4usize, 5usize), (3, 0, 5), (4, 4, 8), (2, 0, 2)] {
        let population: Vec<ModelItem> = (0..n_pop)
            .map(|i| ModelItem::new(vec![i as i32, 2 * i as i32], None))
            .collect();
        let mut model = Model::new(min_max_objectives(), population);
        model.population_size = target;
        model.archive = (0..n_arch)
            .map(|i| ModelItem::new(vec![50 + i as i32, 3 * i as i32], None))
            .collect();
        set_fitness(&mut model);
        apply_selection(&mut model);
        let union = n_pop + n_arch;
        let expected = if union >= target { target } else { union };
        assert_eq!(model.archive.len(), expected);
        assert!(model.population.is_empty());
    }
}

/// Crossover at split index 1 swaps the tails and conserves all values.
#[test]
fn crossover_value_conservation() {
    let mut p1 = ModelItem::new(vec![0, 100], None);
    let mut p2 = ModelItem::new(vec![1, 99], None);
    spea2::crossover::perform_crossover(&mut p1, &mut p2, 1);
    assert_eq!(p1.values, vec![0, 99]);
    assert_eq!(p2.values, vec![1, 100]);
}

/// A counting adapter: its mutation hook marks the candidate.
struct CountingAdapter {}

impl Spea2Model for CountingAdapter {
    fn get_model(&self) -> Model {
        let population = vec![ModelItem::new(vec![0, 0], None)];
        Model::new(mocks::get_objectives(), population)
    }

    fn mutate(
        &mut self,
        _objectives: &Vec<Objective>,
        item: &mut ModelItem,
        _rng: &mut StdRng,
    ) {
        item.values[0] = 1;
    }
}

/// Over 10000 independent trials at the default rate of 6 / 100, the mutated
/// fraction lies close to 0.06.
#[test]
fn mutation_rate_convergence() {
    let trials = 10_000usize;
    let population = vec![ModelItem::new(vec![0, 0], None)];
    let mut model = Model::new(mocks::get_objectives(), population);
    model.mating_pool = (0..trials).map(|_| ModelItem::new(vec![0, 0], None)).collect();
    assert_eq!(model.mutation_numerator, 6);
    assert_eq!(model.mutation_denominator, 100);

    let mut adapter = CountingAdapter {};
    let mut rng = StdRng::seed_from_u64(42);
    mutate(&mut model, &mut adapter, &mut rng);

    let mutated = model.mating_pool.iter().filter(|it| it.values[0] == 1).count();
    let fraction = mutated as f64 / trials as f64;
    assert!(
        (fraction - 0.06).abs() < 0.015,
        "observed mutated fraction {} is not close to 0.06",
        fraction
    );
}

/// A whole run improves the archive's mean value on each objective in its
/// favourable direction (statistically: early generations against late
/// ones, no systematic regression).
#[test]
fn end_to_end_convergence() {
    let size = 12usize;
    let generations = 40usize;
    let population: Vec<ModelItem> = (0..size).map(|_| ModelItem::new(vec![50, 50], None)).collect();
    let objectives = mocks::get_objectives(); // index 0 maximised, index 1 minimised
    let mut model = Model::new(objectives, population);
    let mut adapter = mocks::get_model();
    let mut rng = StdRng::seed_from_u64(7);

    let mut means: Vec<(f64, f64)> = Vec::new();
    for _ in 0..generations {
        evolve(&mut model, &mut adapter, &mut rng).unwrap();
        let len = model.archive.len() as f64;
        let m0: f64 = model.archive.iter().map(|it| it.values[0] as f64).sum::<f64>() / len;
        let m1: f64 = model.archive.iter().map(|it| it.values[1] as f64).sum::<f64>() / len;
        means.push((m0, m1));
    }
    let head = &means[..5];
    let tail = &means[generations - 5..];
    let head0: f64 = head.iter().map(|m| m.0).sum::<f64>() / head.len() as f64;
    let tail0: f64 = tail.iter().map(|m| m.0).sum::<f64>() / tail.len() as f64;
    let head1: f64 = head.iter().map(|m| m.1).sum::<f64>() / head.len() as f64;
    let tail1: f64 = tail.iter().map(|m| m.1).sum::<f64>() / tail.len() as f64;
    assert!(
        tail0 > head0,
        "maximised objective regressed: early mean {head0}, late mean {tail0}"
    );
    assert!(
        tail1 < head1,
        "minimised objective regressed: early mean {head1}, late mean {tail1}"
    );
}

/// The orchestrator rejects a malformed container instead of panicking, and
/// accepts a well-formed one.
#[test]
fn evolve_rejects_invariant_violations() {
    let mut rng = StdRng::seed_from_u64(1);
    let mut adapter = mocks::get_model();

    // Population size below two.
    let population = vec![ModelItem::new(vec![0, 0], None)];
    let mut model = Model::new(mocks::get_objectives(), population);
    assert_eq!(
        evolve(&mut model, &mut adapter, &mut rng),
        Err(Spea2Error::InvariantViolation)
    );

    // A candidate whose value vector does not match the objective count.
    let population = vec![
        ModelItem::new(vec![0, 0], None),
        ModelItem::new(vec![1], None),
    ];
    let mut model = Model::new(mocks::get_objectives(), population);
    assert_eq!(
        evolve(&mut model, &mut adapter, &mut rng),
        Err(Spea2Error::InvariantViolation)
    );

    // A well-formed container passes.
    let population = vec![
        ModelItem::new(vec![10, 20], None),
        ModelItem::new(vec![20, 10], None),
    ];
    let mut model = Model::new(mocks::get_objectives(), population);
    assert_eq!(evolve(&mut model, &mut adapter, &mut rng), Ok(()));
    assert_eq!(model.population.len(), model.population_size);
    assert!(model.mating_pool.is_empty());
}

/// A union of one candidate: the k-th-neighbour index clamps to the
/// candidate itself, whose self-distance is zero, standing for an infinite
/// density; the candidate is then not below the partition threshold.
#[test]
fn density_lookup_clamps_on_tiny_union() {
    let population = vec![ModelItem::new(vec![3, 4], None)];
    let mut model = Model::new(mocks::get_objectives(), population);
    set_fitness(&mut model);
    assert_eq!(model.population[0].fitness, Fitness { raw: 0, kth_sq: 0 });
    assert!(!model.population[0].fitness.is_non_dominated());
}

/// Binary-tournament selection fills the pool with copies of archive
/// members; with two archive members the fitter one always wins.
#[test]
fn tournament_picks_the_fitter_of_two() {
    let population = vec![
        ModelItem::new(vec![0, 0], None),
        ModelItem::new(vec![1, 1], None),
    ];
    let mut model = Model::new(mocks::get_objectives(), population);
    let better = mocks::get_model_item_with_fitness(vec![7, 7], Fitness { raw: 0, kth_sq: 100 });
    let worse = mocks::get_model_item_with_fitness(vec![9, 9], Fitness { raw: 4, kth_sq: 100 });
    model.archive = vec![better, worse];
    let mut rng = StdRng::seed_from_u64(3);
    select_mating_pool(&mut model, &mut rng);
    assert_eq!(model.mating_pool.len(), model.population_size);
    for item in &model.mating_pool {
        assert_eq!(item.values, vec![7, 7]);
    }
}

/// Shuffling keeps every neighbourhood block's candidates inside the block,
/// and a seeded run does move something.
#[test]
fn shuffle_preserves_blocks() {
    let objectives = mocks::get_objectives();
    let population: Vec<ModelItem> = (0..30)
        .map(|i| ModelItem::new(vec![i as i32, 0], None))
        .collect();
    let mut model = Model::new(objectives, population);
    assert_eq!(model.neighbourhood_size, 3);
    model.mating_pool = (0..30).map(|i| ModelItem::new(vec![i as i32, 0], None)).collect();

    let mut rng = StdRng::seed_from_u64(11);
    spea2::crossover::neighbourhood_shuffle(&mut model, &mut rng);

    let ns = model.neighbourhood_size;
    let mut moved = false;
    for b in 0..model.mating_pool.len() / ns {
        let mut block: Vec<i32> = model.mating_pool[b * ns..(b + 1) * ns]
            .iter()
            .map(|it| it.values[0])
            .collect();
        if block != ((b * ns) as i32..((b + 1) * ns) as i32).collect::<Vec<i32>>() {
            moved = true;
        }
        block.sort();
        let expected: Vec<i32> = ((b * ns) as i32..((b + 1) * ns) as i32).collect();
        assert_eq!(block, expected);
    }
    assert!(moved, "a 30-candidate shuffle left every block unchanged");
}

/// The dominance rule voids dominance on any tied objective: a candidate
/// that ties on one objective and wins on the other dominates nothing.
#[test]
fn tied_objective_voids_dominance() {
    let population = vec![
        ModelItem::new(vec![5, 9], None),
        ModelItem::new(vec![5, 3], None),
    ];
    let mut model = Model::new(min_max_objectives(), population);
    let (_, dominators, strengths) = set_fitness(&mut model);
    assert_eq!(strengths, vec![0, 0]);
    assert_eq!(dominators[0], vec![]);
    assert_eq!(dominators[1], vec![]);
}
