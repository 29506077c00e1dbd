//! Tests of the population container: the axis counter, averages, sizing
//! and the fitness ordering.
use spea2::mocks;
use spea2::model::{Fitness, Model, ModelItem};

#[test]
fn model_next_objective_sort_index() {
    let mut model = mocks::get_model_basic();

    let mut sort_index = model.next_objective_sort_index();
    assert_eq!(sort_index, 0);

    sort_index = model.next_objective_sort_index();
    assert_eq!(sort_index, 1);

    sort_index = model.next_objective_sort_index();
    assert_eq!(sort_index, 0);

    sort_index = model.next_objective_sort_index();
    assert_eq!(sort_index, 1);
}

#[test]
fn model_get_average_archive_values() {
    let model = mocks::get_model_with_archive();
    let average_values = model.get_average_archive_values();
    let expected = (mocks::MOCK_POPULATION_COUNT / 2) as i64;
    assert_eq!(average_values, vec![expected, expected]);
}

#[test]
fn model_new_sizes() {
    let objectives = mocks::get_objectives();
    let population: Vec<ModelItem> = (0..10).map(|i| ModelItem::new(vec![i, i], None)).collect();
    let model = Model::new(objectives, population);
    assert_eq!(model.population_size, 10);
    assert_eq!(model.neighbourhood_size, 1);
    assert!(model.archive.is_empty());
    assert!(model.mating_pool.is_empty());

    let objectives = mocks::get_objectives();
    let population: Vec<ModelItem> = (0..11).map(|i| ModelItem::new(vec![i, i], None)).collect();
    let model = Model::new(objectives, population);
    assert_eq!(model.population_size, 11);
    assert_eq!(model.neighbourhood_size, 2);
}

#[test]
fn model_fitness_ordering() {
    // Pairs stand for raw + 1 / sqrt(kth_sq); kth_sq == 0 stands for an
    // infinite value.
    let zero_ish = Fitness::initial();
    let tenth = Fitness { raw: 0, kth_sq: 100 }; // 0.1
    let one = Fitness { raw: 0, kth_sq: 1 }; // exactly 1.0
    let one_tenth_over = Fitness { raw: 1, kth_sq: 100 }; // 1.1
    let infinite = Fitness { raw: 0, kth_sq: 0 };
    let infinite_high_raw = Fitness { raw: 7, kth_sq: 0 };

    assert!(zero_ish.lt(&tenth));
    assert!(tenth.lt(&one));
    assert!(one.lt(&one_tenth_over));
    assert!(one_tenth_over.lt(&infinite));
    assert!(!infinite.lt(&infinite_high_raw));
    assert!(!infinite_high_raw.lt(&infinite));
    assert!(infinite.le(&infinite_high_raw));

    assert!(zero_ish.is_non_dominated());
    assert!(tenth.is_non_dominated());
    assert!(!one.is_non_dominated()); // exactly 1.0 is not below 1.0
    assert!(!one_tenth_over.is_non_dominated());
    assert!(!infinite.is_non_dominated());
}

#[test]
fn model_get_average_fitness() {
    let mut model = mocks::get_model_with_archive();
    for (i, item) in model.archive.iter_mut().enumerate() {
        item.fitness = Fitness {
            raw: i as u128,
            kth_sq: 100,
        };
    }
    // raws 0..=10 sum to 55, over 11 candidates: mean 5.
    assert_eq!(model.get_average_fitness(), 5);
}

struct Dummy {}

impl spea2::Member for Dummy {
    fn randomise(&self) {}
}

#[test]
fn update_visits_members() {
    let members = vec![Dummy {}, Dummy {}, Dummy {}];
    spea2::update(members);
}
