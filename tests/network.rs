use std::cell::Cell;

use nn::{Chance, ChanceError, CreationError, Network, RunError};

fn bipolar_sigmoid(t: f32, a: f32) -> f32 {
    2.0 / (1.0 + (-t * a).exp()) - 1.0
}

fn calculate_value(values: &[f32], weights: &[f32]) -> f32 {
    let mut total = 1.0;
    for i in 0..values.len() {
        total += values[i] * weights[i];
    }
    total += weights.last().unwrap();
    bipolar_sigmoid(total, 10.0)
}

fn uniform_weight() -> f32 {
    rand::Rng::gen_range(&mut rand::thread_rng(), -1.0f32..=1.0)
}

fn sum_node(values: &[i64], weights: &[i64]) -> i64 {
    values.iter().sum::<i64>() + weights.iter().sum::<i64>()
}

fn all_weights<W: Copy>(n: &Network<W>) -> Vec<Vec<Vec<W>>> {
    (0..n.layer_count())
        .map(|i| (0..n.node_count(i)).map(|j| n.weights(i, j).to_vec()).collect())
        .collect()
}

#[test]
fn new_rejects_short_or_zero_topologies() {
    assert_eq!(Network::<f32>::new(&[], uniform_weight).err(), Some(CreationError::NotEnoughLayers));
    assert_eq!(Network::<f32>::new(&[3], uniform_weight).err(), Some(CreationError::NotEnoughLayers));
    assert_eq!(
        Network::<f32>::new(&[3, 0, 2], uniform_weight).err(),
        Some(CreationError::NotEnoughLayers)
    );
    assert!(Network::<f32>::new(&[3, 4, 2], uniform_weight).is_ok());
}

#[test]
fn is_valid_type_matches_topology_rules() {
    assert_eq!(Network::<f32>::is_valid_type(&[]), Err(CreationError::NotEnoughLayers));
    assert_eq!(Network::<f32>::is_valid_type(&[5]), Err(CreationError::NotEnoughLayers));
    assert_eq!(Network::<f32>::is_valid_type(&[2, 3, 0]), Err(CreationError::NotEnoughLayers));
    assert_eq!(Network::<f32>::is_valid_type(&[0, 3]), Err(CreationError::NotEnoughLayers));
    assert_eq!(Network::<f32>::is_valid_type(&[2, 3, 1]), Ok(()));
    assert_eq!(Network::<f32>::is_valid_type(&[1, 1]), Ok(()));
}

#[test]
fn new_builds_bias_augmented_layers() {
    let n = Network::<f32>::new(&[3, 4, 2], uniform_weight).unwrap();
    assert_eq!(n.layer_count(), 2);
    assert_eq!(n.input_size(), 3);
    assert_eq!(n.node_count(0), 4);
    assert_eq!(n.node_count(1), 2);
    for j in 0..4 {
        assert_eq!(n.weights(0, j).len(), 4);
    }
    for j in 0..2 {
        assert_eq!(n.weights(1, j).len(), 5);
    }
    for layer in all_weights(&n) {
        for node in layer {
            for w in node {
                assert!((-1.0..=1.0).contains(&w));
            }
        }
    }
}

#[test]
fn new_takes_every_weight_from_draw() {
    let n = Network::<i64>::new(&[2, 2, 1], || 7).unwrap();
    assert_eq!(all_weights(&n), vec![vec![vec![7, 7, 7], vec![7, 7, 7]], vec![vec![7, 7, 7]]]);
}

#[test]
fn run_checks_input_count() {
    let n = Network::<f32>::new(&[2, 3, 1], uniform_weight).unwrap();
    let out = n.run(&[0.3, -0.7], calculate_value).unwrap();
    assert_eq!(out.len(), 1);
    assert_eq!(n.run(&[0.3, -0.7, 0.1], calculate_value), Err(RunError::WrongInputCount));
    assert_eq!(n.run(&[0.3], calculate_value), Err(RunError::WrongInputCount));
}

#[test]
fn run_outputs_lie_strictly_between_minus_one_and_one() {
    let n = Network::<f32>::new(&[4, 6, 5, 3], uniform_weight).unwrap();
    let out = n.run(&[1.0, -1.0, 0.5, 0.0], calculate_value).unwrap();
    assert_eq!(out.len(), 3);
    // In f32 the sigmoid rounds to -1.0 or 1.0 once |t * a| passes about 17.
    for v in out {
        assert!((-1.0..=1.0).contains(&v));
    }
    let small = Network::<f32>::new(&[2, 2, 1], || -0.1).unwrap();
    let out = small.run(&[0.5, 0.5], calculate_value).unwrap();
    assert!(out[0] > -1.0 && out[0] < 1.0);
}

#[test]
fn run_chains_layers_in_order() {
    // layer one: each node sums 1 + 2 and three unit weights, 6;
    // layer two: 6 + 6 and three unit weights, 15.
    let n = Network::<i64>::new(&[2, 2, 1], || 1).unwrap();
    assert_eq!(n.run(&[1, 2], sum_node), Ok(vec![15]));
}

#[test]
fn run_seeds_with_one_and_adds_bias_last() {
    let n = Network::<f32>::new(&[1, 1], || 0.0).unwrap();
    let out = n.run(&[0.8], calculate_value).unwrap();
    assert_eq!(out, vec![bipolar_sigmoid(1.0, 10.0)]);
}

#[test]
fn run_twice_gives_identical_output() {
    let n = Network::<f32>::new(&[3, 5, 2], uniform_weight).unwrap();
    let input = [0.25, -0.5, 0.75];
    let first = n.run(&input, calculate_value).unwrap();
    let second = n.run(&input, calculate_value).unwrap();
    assert_eq!(first, second);
}

#[test]
fn mutate_with_probability_zero_keeps_weights() {
    let mut n = Network::<f32>::new(&[3, 4, 2], uniform_weight).unwrap();
    let before = all_weights(&n);
    n.mutate(Chance::never(), uniform_weight);
    assert_eq!(all_weights(&n), before);
}

#[test]
fn mutate_with_probability_one_redraws_every_weight() {
    let mut n = Network::<i64>::new(&[2, 3, 1], || 1).unwrap();
    n.mutate(Chance::always(), || 9);
    assert_eq!(
        all_weights(&n),
        vec![vec![vec![9, 9, 9], vec![9, 9, 9], vec![9, 9, 9]], vec![vec![9, 9, 9, 9]]]
    );
}

#[test]
fn mutate_keeps_shape_and_draws_in_range() {
    let mut n = Network::<f32>::new(&[2, 3, 2], uniform_weight).unwrap();
    n.mutate(Chance::new(1, 2).unwrap(), uniform_weight);
    assert_eq!(n.layer_count(), 2);
    assert_eq!(n.node_count(0), 3);
    assert_eq!(n.node_count(1), 2);
    for layer in all_weights(&n) {
        for node in layer {
            for w in node {
                assert!((-1.0..=1.0).contains(&w));
            }
        }
    }
}

#[test]
fn breed_with_probability_zero_copies_father() {
    let f = Network::<i64>::new(&[2, 3, 1], || 1).unwrap();
    let m = Network::<i64>::new(&[2, 3, 1], || 2).unwrap();
    let child = Network::breed(&f, &m, Chance::never());
    assert_eq!(all_weights(&child), all_weights(&f));
}

#[test]
fn breed_with_probability_one_copies_mother() {
    let f = Network::<i64>::new(&[2, 3, 1], || 1).unwrap();
    let m = Network::<i64>::new(&[2, 3, 1], || 2).unwrap();
    let child = Network::breed(&f, &m, Chance::always());
    assert_eq!(all_weights(&child), all_weights(&m));
}

#[test]
fn breed_takes_each_weight_from_a_parent() {
    let f = Network::<i64>::new(&[3, 4, 2], || 1).unwrap();
    let m = Network::<i64>::new(&[3, 4, 2], || 2).unwrap();
    let child = Network::breed(&f, &m, Chance::new(1, 2).unwrap());
    for layer in all_weights(&child) {
        for node in layer {
            for w in node {
                assert!(w == 1 || w == 2);
            }
        }
    }
}

#[test]
fn breed_keeps_father_where_mother_is_smaller() {
    let f = Network::<i64>::new(&[2, 2, 1], || 1).unwrap();
    let m = Network::<i64>::new(&[1, 1], || 2).unwrap();
    let child = Network::breed(&f, &m, Chance::always());
    assert_eq!(all_weights(&child), vec![vec![vec![2, 2, 1], vec![1, 1, 1]], vec![vec![1, 1, 1]]]);
}

#[test]
fn chance_rejects_ratios_outside_unit_interval() {
    assert_eq!(Chance::new(1, 0), Err(ChanceError::InvalidProbability));
    assert_eq!(Chance::new(0, 0), Err(ChanceError::InvalidProbability));
    assert_eq!(Chance::new(3, 2), Err(ChanceError::InvalidProbability));
    let c = Chance::new(2, 3).unwrap();
    assert_eq!((c.numerator(), c.denominator()), (2, 3));
    assert!(Chance::new(0, 5).is_ok());
    assert!(Chance::new(5, 5).is_ok());
}

#[test]
fn chance_sample_honours_certain_outcomes() {
    for _ in 0..100 {
        assert!(!Chance::never().sample());
        assert!(Chance::always().sample());
        assert!(!Chance::new(0, 7).unwrap().sample());
        assert!(Chance::new(7, 7).unwrap().sample());
    }
}

fn alternating_mask<W>(shape: &Network<W>) -> Network<bool> {
    let count = Cell::new(0u32);
    Network::<bool>::like(shape, || {
        count.set(count.get() + 1);
        count.get() % 2 == 1
    })
}

#[test]
fn like_copies_the_shape() {
    let f = Network::<f32>::new(&[3, 4, 2], uniform_weight).unwrap();
    let mask = Network::<bool>::like(&f, || false);
    assert_eq!(
        all_weights(&mask),
        vec![vec![vec![false; 4]; 4], vec![vec![false; 5]; 2]]
    );
}

#[test]
fn breed_by_mask_takes_marked_weights_from_mother() {
    let f = Network::<i64>::new(&[1, 2, 1], || 1).unwrap();
    let m = Network::<i64>::new(&[1, 2, 1], || 2).unwrap();
    let mask = alternating_mask(&f);
    assert_eq!(
        all_weights(&mask),
        vec![vec![vec![true, false], vec![true, false]], vec![vec![true, false, true]]]
    );
    let child = Network::breed_by_mask(&f, &m, &mask);
    assert_eq!(all_weights(&child), vec![vec![vec![2, 1], vec![2, 1]], vec![vec![2, 1, 2]]]);
}

#[test]
fn breed_by_mask_ignores_positions_the_mother_lacks() {
    let f = Network::<i64>::new(&[2, 2, 1], || 1).unwrap();
    let m = Network::<i64>::new(&[1, 1], || 2).unwrap();
    let mask = Network::<bool>::like(&f, || true);
    let child = Network::breed_by_mask(&f, &m, &mask);
    assert_eq!(all_weights(&child), vec![vec![vec![2, 2, 1], vec![1, 1, 1]], vec![vec![1, 1, 1]]]);
}

#[test]
fn mutate_by_mask_redraws_marked_weights_only() {
    let mut n = Network::<i64>::new(&[1, 2, 1], || 1).unwrap();
    let mask = alternating_mask(&n);
    n.mutate_by_mask(&mask, || 5);
    assert_eq!(all_weights(&n), vec![vec![vec![5, 1], vec![5, 1]], vec![vec![5, 1, 5]]]);
}
