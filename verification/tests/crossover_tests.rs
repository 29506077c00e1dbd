//! Tests of the crossover operator: axis sorting, neighbourhood shuffling
//! and tail swapping.
use rand::rngs::StdRng;
use rand::seq::SliceRandom;
use rand::SeedableRng;
use spea2::crossover::{neighbourhood_shuffle, perform_crossover, sort_pool_by_objective};
use spea2::mocks;

#[test]
fn crossover_sort_pool_by_objective() {
    let mut rng = StdRng::seed_from_u64(7);
    let mut model = mocks::get_model_with_mating_pool();
    model.mating_pool.shuffle(&mut rng);

    sort_pool_by_objective(&mut model);
    let pool = &model.mating_pool;
    for c in 0..pool.len() / 2 {
        let p1 = &pool[2 * c];
        let p2 = &pool[2 * c + 1];
        assert!(p1.values[0] < p2.values[0]);
    }

    sort_pool_by_objective(&mut model);
    let pool = &model.mating_pool;
    for c in 0..pool.len() / 2 {
        let p1 = &pool[2 * c];
        let p2 = &pool[2 * c + 1];
        assert!(p1.values[1] < p2.values[1]);
    }
}

#[test]
fn crossover_neighbourhood_shuffle() {
    let mut model = mocks::get_model_with_mating_pool();
    let mut rng = StdRng::seed_from_u64(7);
    let sort_index: usize = 0;

    neighbourhood_shuffle(&mut model, &mut rng);

    let ns = model.neighbourhood_size;
    for i in 0..model.mating_pool.len() / ns {
        let start = i * ns;
        let end = start + ns;
        let neighbours = model.mating_pool[start..end]
            .iter()
            .map(|p| p.values[sort_index])
            .collect::<Vec<_>>();
        let s = start as i32;
        let e = end as i32;
        assert!(neighbours.iter().all(|n2| *n2 >= s && *n2 < e));
    }
}

#[test]
fn crossover_perform_crossover() {
    let model = mocks::get_model_with_mating_pool();
    let split_index: usize = 1;

    let before0 = &model.mating_pool[0];
    let before1 = &model.mating_pool[1];

    let mut after0 = before0.clone();
    let mut after1 = before1.clone();

    perform_crossover(&mut after0, &mut after1, split_index);

    assert_eq!(before0.values[0], before0.values[0]);
    assert_eq!(after0.values[0], after0.values[0]);

    assert_eq!(before0.values[1], after1.values[1]);
    assert_eq!(before1.values[1], after0.values[1]);
}
