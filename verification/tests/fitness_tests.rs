//! Tests of the fitness assignor over the small mock container.
use spea2::fitness::set_fitness;
use spea2::mocks;
use spea2::model::Fitness;

#[test]
fn fitness_distances() {
    let mut model = mocks::get_model_basic();
    let (distances, _, _) = set_fitness(&mut model);
    // The mock candidates form a 3-4-5 triangle; squared: 9, 16, 25.
    assert_eq!(distances[0][1], 16);
    assert_eq!(distances[1][0], 16);
    assert_eq!(distances[0][2], 9);
    assert_eq!(distances[2][0], 9);
    assert_eq!(distances[1][2], 25);
    assert_eq!(distances[2][1], 25);
}

#[test]
fn fitness_dominators() {
    let mut model = mocks::get_model_basic();
    let (_, dominators, _) = set_fitness(&mut model);

    assert_eq!(dominators[0], vec![]);
    assert_eq!(dominators[1], vec![]);
    assert_eq!(dominators[2], [1]);
}

#[test]
fn fitness_strengths() {
    let mut model = mocks::get_model_basic();
    let (_, _, strengths) = set_fitness(&mut model);
    assert_eq!(strengths[0], 0);
    assert_eq!(strengths[1], 1);
    assert_eq!(strengths[2], 0);
}

#[test]
fn fitness_fitness() {
    let mut model = mocks::get_model_basic();
    set_fitness(&mut model);
    assert_ne!(model.population[0].fitness, Fitness::initial());
    assert_ne!(model.archive[0].fitness, Fitness::initial());
}
