//! Tests of the environmental selector: the dominance partition, the pair
//! enumeration, archive sizing and the closest-pair tie-break.
use spea2::mocks;
use spea2::model::{Distance, Fitness, ModelItem};
use spea2::selection::{
    drain_model_by_dominance, ensure_archive_size, get_closest, get_orderable_distances,
};
use spea2::sort::sort_distances;

#[test]
fn selection_drain_model_by_dominance() {
    let mut model = mocks::get_model_with_fitness();
    let (dominated, non_dominated) = drain_model_by_dominance(&mut model);
    assert!(dominated.iter().all(|item| !item.fitness.is_non_dominated()));
    assert!(non_dominated.iter().all(|item| item.fitness.is_non_dominated()));
    assert!(model.population.is_empty());
    assert!(model.archive.is_empty());
}

#[test]
fn selection_get_orderable_distances() {
    let dominated = mocks::get_dominated();
    let distances = get_orderable_distances(&dominated);
    // Squared distances of the 3-4-5 triangle: 16, 9, 25.
    assert_eq!(
        distances[0],
        Distance {
            from: 0,
            to: 1,
            value: 16,
        }
    );
    assert_eq!(
        distances[1],
        Distance {
            from: 0,
            to: 2,
            value: 9,
        }
    );
    assert_eq!(
        distances[2],
        Distance {
            from: 1,
            to: 2,
            value: 25,
        }
    );
}

fn selection_ensure_archive_size(archive_max: usize) {
    let dominated = mocks::get_dominated();
    let mut non_dominated = mocks::get_non_dominated();
    ensure_archive_size(dominated, &mut non_dominated, archive_max);
    assert_eq!(non_dominated.len(), archive_max);
}

#[test]
fn selection_ensure_archive_size_extend() {
    selection_ensure_archive_size(5);
}

#[test]
fn selection_ensure_archive_size_truncate() {
    selection_ensure_archive_size(2);
}

#[test]
fn selection_get_closest() {
    let distances = mocks::get_sorted_distances();
    let closest = get_closest(&distances);
    assert_eq!(closest, distances[0]);
}

#[test]
fn selection_get_closest_with_tiebreak() {
    let distances = mocks::get_distances_with_tie();
    let distances = sort_distances(distances);
    let closest = get_closest(&distances);
    assert_eq!(closest.from, 1);
    assert_eq!(closest.to, 3);
}

#[test]
fn test_drain_model_by_dominance() {
    let mut model = mocks::get_model_with_fitness();
    let (dominated, non_dominated) = drain_model_by_dominance(&mut model);
    assert!(dominated.iter().all(|item| !item.fitness.is_non_dominated()));
    assert!(non_dominated.iter().all(|item| item.fitness.is_non_dominated()));
    assert_eq!(model.population.len(), 0);
    assert_eq!(model.archive.len(), 0);
}

#[test]
fn test_get_orderable_distances() {
    let dominated = mocks::get_dominated();
    let distances = get_orderable_distances(&dominated);
    assert_eq!(
        distances[0],
        Distance {
            from: 0,
            to: 1,
            value: 16,
        }
    );
    assert_eq!(
        distances[1],
        Distance {
            from: 0,
            to: 2,
            value: 9,
        }
    );
    assert_eq!(
        distances[2],
        Distance {
            from: 1,
            to: 2,
            value: 25,
        }
    );
}

fn test_ensure_archive_size(archive_max: usize) {
    let dominated = mocks::get_dominated();
    let mut non_dominated = mocks::get_non_dominated();
    ensure_archive_size(dominated, &mut non_dominated, archive_max);
    assert_eq!(non_dominated.len(), archive_max);
    println!("{:?}", non_dominated);
}

#[test]
fn test_ensure_archive_size_extend() {
    test_ensure_archive_size(5);
}

#[test]
fn test_ensure_archive_size_truncate() {
    test_ensure_archive_size(2);
}

#[test]
fn truncation_removes_the_closest_pair_anchor() {
    // Pairwise squared distances: (0,1)=16, (0,2)=9, (0,3)=200, (1,2)=25,
    // (1,3)=136, (2,3)=149; the unique closest pair is (0,2), and its `from`
    // candidate (index 0) is removed first.
    let mut non_dominated = vec![
        ModelItem::new(vec![0, 0], None),
        ModelItem::new(vec![4, 0], None),
        ModelItem::new(vec![0, 3], None),
        ModelItem::new(vec![10, 10], None),
    ];
    for item in non_dominated.iter_mut() {
        item.fitness = Fitness { raw: 0, kth_sq: 100 };
    }
    ensure_archive_size(Vec::new(), &mut non_dominated, 3);
    let values: Vec<Vec<i32>> = non_dominated.iter().map(|it| it.values.clone()).collect();
    assert_eq!(values, vec![vec![4, 0], vec![0, 3], vec![10, 10]]);
}

#[test]
fn extension_appends_best_fitness_first() {
    // Non-dominated falls two short; the two dominated candidates with the
    // least fitness are appended, in fitness order.
    let mut non_dominated = vec![mocks::get_model_item_with_fitness(
        vec![1, 1],
        Fitness { raw: 0, kth_sq: 50 },
    )];
    let dominated = vec![
        mocks::get_model_item_with_fitness(vec![9, 9], Fitness { raw: 3, kth_sq: 50 }),
        mocks::get_model_item_with_fitness(vec![7, 7], Fitness { raw: 1, kth_sq: 50 }),
        mocks::get_model_item_with_fitness(vec![8, 8], Fitness { raw: 2, kth_sq: 50 }),
    ];
    ensure_archive_size(dominated, &mut non_dominated, 3);
    let values: Vec<Vec<i32>> = non_dominated.iter().map(|it| it.values.clone()).collect();
    assert_eq!(values, vec![vec![1, 1], vec![7, 7], vec![8, 8]]);
}
