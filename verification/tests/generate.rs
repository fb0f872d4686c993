use rand::{RngCore, SeedableRng};
use rand_chacha::ChaCha20Rng;
use rand_distr::{Distribution, Normal, Uniform};
use srflp::clusters::cluster_sizes;
use srflp::generate::{GenerateError, SrflpGenerator};
use srflp::instance::SrflpInstance;
use srflp::seed::expand_seed;
use std::cell::RefCell;
use std::time::{Duration, Instant};

fn normal(rng: &mut ChaCha20Rng, mean: i128, deviation: i128) -> isize {
    Normal::new(mean as f64, deviation as f64).unwrap().sample(rng).round() as isize
}

fn generator(seed: Option<u128>, nb_departments: usize, nb_clusters: usize) -> SrflpGenerator {
    SrflpGenerator {
        seed,
        nb_departments,
        nb_clusters,
        min_length: 100,
        max_length: 10000,
        length_std_dev: 100,
        min_flow_position: 100,
        max_flow_position: 10000,
        flow_position_std_dev: 100,
        output: None,
    }
}

fn draw(rng: &mut ChaCha20Rng, centroid: f64, deviation: f64, count: usize) -> Vec<isize> {
    let distribution = Normal::new(centroid, deviation).unwrap();
    (0..count).map(|_| distribution.sample(rng).round() as isize).collect()
}

/// The same instance, drawn step by step with the distributions themselves.
fn drawn_step_by_step(parameters: &SrflpGenerator) -> SrflpInstance {
    let mut rng = ChaCha20Rng::from_seed(expand_seed(parameters.seed.unwrap()));
    let n = parameters.nb_departments;
    let c = parameters.nb_clusters;
    let (min_length, max_length) = if parameters.min_length < parameters.length_std_dev {
        let shift = parameters.length_std_dev - parameters.min_length;
        (parameters.min_length + shift, parameters.max_length + shift)
    } else {
        (parameters.min_length, parameters.max_length)
    };
    let sizes = cluster_sizes(n, c);
    let mut lengths = vec![];
    let centroids = Uniform::new_inclusive(min_length, max_length);
    for size in sizes.iter() {
        let centroid = centroids.sample(&mut rng);
        lengths.extend(draw(&mut rng, centroid as f64, parameters.length_std_dev as f64, *size));
    }
    let mut firsts = vec![];
    let mut first = 0;
    for size in sizes.iter() {
        firsts.push(first);
        first += size;
    }
    let mut flows = vec![vec![0isize; n]; n];
    let centroids =
        Uniform::new_inclusive(parameters.min_flow_position, parameters.max_flow_position);
    let deviation = parameters.flow_position_std_dev as f64;
    for a in 0..c {
        let centroid = centroids.sample(&mut rng);
        let own = draw(&mut rng, centroid as f64, deviation, sizes[a]);
        for b in a..c {
            let facing = if a == b {
                own.clone()
            } else {
                let centroid = centroids.sample(&mut rng);
                draw(&mut rng, centroid as f64, deviation, sizes[b])
            };
            for i in 0..sizes[a] {
                for j in 0..sizes[b] {
                    let flow = own[i].abs_diff(facing[j]) as isize;
                    flows[firsts[a] + i][firsts[b] + j] = flow;
                    flows[firsts[b] + j][firsts[a] + i] = flow;
                }
            }
        }
    }
    SrflpInstance { nb_departments: n, lengths, flows }
}

#[test]
fn same_seed_gives_same_instance() {
    let first = generator(Some(42), 6, 2).generate(&normal).unwrap();
    let second = generator(Some(42), 6, 2).generate(&normal).unwrap();
    assert_eq!(first.lengths, second.lengths);
    assert_eq!(first.flows, second.flows);
    assert_eq!(first, second);
}

#[test]
fn other_seed_gives_other_instance() {
    let first = generator(Some(42), 6, 2).generate(&normal).unwrap();
    let second = generator(Some(43), 6, 2).generate(&normal).unwrap();
    assert_ne!(first, second);
}

#[test]
fn generating_twice_from_the_same_parameters() {
    let mut parameters = generator(Some(7), 9, 4);
    let first = parameters.generate(&normal).unwrap();
    let second = parameters.generate(&normal).unwrap();
    assert_eq!(first, second);
}

#[test]
fn one_department_whatever_the_seed() {
    for seed in [0u128, 1, 42, 1 << 100, u128::MAX] {
        let instance = generator(Some(seed), 1, 1).generate(&normal).unwrap();
        assert_eq!(instance.nb_departments, 1);
        assert_eq!(instance.lengths.len(), 1);
        assert_eq!(instance.flows, vec![vec![0]]);
    }
}

#[test]
fn no_department_at_all() {
    let instance = generator(Some(3), 0, 2).generate(&normal).unwrap();
    assert_eq!(instance.nb_departments, 0);
    assert_eq!(instance.lengths, Vec::<isize>::new());
    assert_eq!(instance.flows, Vec::<Vec<isize>>::new());
}

#[test]
fn one_length_for_each_department() {
    for (nb_departments, nb_clusters) in [(10, 3), (6, 2), (5, 5), (3, 7), (17, 4), (0, 1)] {
        let instance = generator(Some(11), nb_departments, nb_clusters).generate(&normal).unwrap();
        assert_eq!(instance.nb_departments, nb_departments);
        assert_eq!(instance.lengths.len(), nb_departments);
    }
}

#[test]
fn flows_are_square_symmetric_and_not_negative() {
    for (nb_departments, nb_clusters) in [(10, 3), (6, 2), (5, 5), (3, 7), (17, 4), (12, 1)] {
        let instance = generator(Some(5), nb_departments, nb_clusters).generate(&normal).unwrap();
        let flows = &instance.flows;
        assert_eq!(flows.len(), nb_departments);
        for i in 0..nb_departments {
            assert_eq!(flows[i].len(), nb_departments);
            assert_eq!(flows[i][i], 0);
            for j in 0..nb_departments {
                assert_eq!(flows[i][j], flows[j][i]);
                assert!(flows[i][j] >= 0);
            }
        }
        assert_eq!(instance.validate(), Ok(()));
    }
}

#[test]
fn draws_come_in_the_stated_order() {
    for seed in [0u128, 42, 2024] {
        for (nb_departments, nb_clusters) in [(10, 3), (6, 2), (4, 4), (2, 5), (9, 1)] {
            let mut parameters = generator(Some(seed), nb_departments, nb_clusters);
            let expected = drawn_step_by_step(&parameters);
            assert_eq!(parameters.generate(&normal).unwrap(), expected);
        }
    }
}

#[test]
fn draws_come_in_the_stated_order_with_other_ranges() {
    let mut parameters = SrflpGenerator {
        seed: Some(99),
        nb_departments: 8,
        nb_clusters: 3,
        min_length: 3,
        max_length: 40,
        length_std_dev: 12,
        min_flow_position: -500,
        max_flow_position: 500,
        flow_position_std_dev: 30,
        output: None,
    };
    let expected = drawn_step_by_step(&parameters);
    assert_eq!(parameters.generate(&normal).unwrap(), expected);
}

#[test]
fn lengths_and_flows_of_given_draws() {
    let draws: Vec<isize> = vec![10, 20, 30, 7, -4, 100, 55];
    let calls: RefCell<Vec<(i128, i128)>> = RefCell::new(vec![]);
    let from_list = |_: &mut ChaCha20Rng, mean: i128, deviation: i128| -> isize {
        calls.borrow_mut().push((mean, deviation));
        draws[calls.borrow().len() - 1]
    };
    let mut parameters = SrflpGenerator {
        seed: Some(1),
        nb_departments: 3,
        nb_clusters: 2,
        min_length: 50,
        max_length: 50,
        length_std_dev: 5,
        min_flow_position: -7,
        max_flow_position: -7,
        flow_position_std_dev: 3,
        output: None,
    };
    let instance = parameters.generate(&from_list).unwrap();
    assert_eq!(instance.nb_departments, 3);
    assert_eq!(instance.lengths, vec![10, 20, 30]);
    assert_eq!(instance.flows, vec![vec![0, 11, 93], vec![11, 0, 104], vec![93, 104, 0]]);
    assert_eq!(
        *calls.borrow(),
        vec![(50, 5), (50, 5), (50, 5), (-7, 3), (-7, 3), (-7, 3), (-7, 3)]
    );
}

#[test]
fn one_cluster_gives_distances_between_the_draws_of_one_centroid() {
    let calls: RefCell<Vec<(i128, i128)>> = RefCell::new(vec![]);
    let values: RefCell<Vec<isize>> = RefCell::new(vec![]);
    let recorded = |rng: &mut ChaCha20Rng, mean: i128, deviation: i128| -> isize {
        let value = normal(rng, mean, deviation);
        calls.borrow_mut().push((mean, deviation));
        values.borrow_mut().push(value);
        value
    };
    let instance = generator(Some(8), 5, 1).generate(&recorded).unwrap();
    let calls = calls.borrow();
    let values = values.borrow();
    assert_eq!(calls.len(), 10);
    assert_eq!(instance.lengths, values[..5].to_vec());
    let positions = &values[5..];
    let (centroid, deviation) = calls[5];
    assert!(100 <= centroid && centroid <= 10000);
    assert_eq!(deviation, 100);
    for call in &calls[5..] {
        assert_eq!(*call, (centroid, deviation));
    }
    for i in 0..5 {
        for j in 0..5 {
            assert_eq!(instance.flows[i][j], (positions[i] - positions[j]).abs());
        }
    }
}

#[test]
fn each_cluster_has_its_own_centroid_within_the_range() {
    let calls: RefCell<Vec<(i128, i128)>> = RefCell::new(vec![]);
    let the_mean = |_: &mut ChaCha20Rng, mean: i128, deviation: i128| -> isize {
        calls.borrow_mut().push((mean, deviation));
        mean as isize
    };
    let mut parameters = generator(Some(2), 40, 40);
    parameters.min_flow_position = -30;
    parameters.max_flow_position = 30;
    let instance = parameters.generate(&the_mean).unwrap();
    assert_eq!(instance.lengths.len(), 40);
    assert!(instance.lengths.iter().all(|length| 100 <= *length && *length <= 10000));
    assert!(instance.lengths.iter().any(|length| *length != 100));
    assert!(instance.lengths.iter().any(|length| *length != 10000));
    assert!(instance.lengths.iter().any(|length| *length != instance.lengths[0]));
    let calls = calls.borrow();
    assert_eq!(calls.len(), 40 + 40 + 40 * 39 / 2);
    for (mean, deviation) in &calls[..40] {
        assert!(100 <= *mean && *mean <= 10000);
        assert_eq!(*deviation, 100);
    }
    for (mean, deviation) in &calls[40..] {
        assert!(-30 <= *mean && *mean <= 30);
        assert_eq!(*deviation, 100);
    }
    assert!(calls[40..].iter().any(|(mean, _)| *mean != -30));
    assert!(calls[40..].iter().any(|(mean, _)| *mean != 30));
    assert!(calls[40..].iter().any(|(mean, _)| *mean != calls[40].0));
}

#[test]
fn positions_too_far_apart_wrap_round() {
    let draws: Vec<isize> = vec![1, 2, isize::MIN, isize::MAX];
    let calls: RefCell<usize> = RefCell::new(0);
    let from_list = |_: &mut ChaCha20Rng, _: i128, _: i128| -> isize {
        *calls.borrow_mut() += 1;
        draws[*calls.borrow() - 1]
    };
    let instance = generator(Some(1), 2, 1).generate(&from_list).unwrap();
    assert_eq!(instance.flows, vec![vec![0, -1], vec![-1, 0]]);
}

#[test]
fn range_of_lengths_moves_up_to_the_deviation() {
    let mut parameters = generator(Some(4), 4, 2);
    parameters.min_length = 30;
    parameters.max_length = 35;
    parameters.length_std_dev = 100;
    let the_mean = |_: &mut ChaCha20Rng, mean: i128, _: i128| -> isize { mean as isize };
    let instance = parameters.generate(&the_mean).unwrap();
    assert_eq!(parameters.min_length, 100);
    assert_eq!(parameters.max_length, 105);
    assert!(instance.lengths.iter().all(|length| 100 <= *length && *length <= 105));
    assert_eq!(parameters.nb_departments, 4);
    assert_eq!(parameters.length_std_dev, 100);
}

#[test]
fn range_of_lengths_stays_where_it_begins_high_enough() {
    let mut parameters = generator(Some(4), 4, 2);
    parameters.generate(&normal).unwrap();
    assert_eq!(parameters.min_length, 100);
    assert_eq!(parameters.max_length, 10000);
}

#[test]
fn no_cluster_is_refused() {
    let mut parameters = generator(Some(1), 5, 0);
    assert_eq!(parameters.validate(), Err(GenerateError::NoCluster));
    assert_eq!(parameters.generate(&normal), Err(GenerateError::NoCluster));
}

#[test]
fn range_of_lengths_that_cannot_move_up_is_refused() {
    let mut parameters = generator(Some(1), 5, 2);
    parameters.min_length = 0;
    parameters.max_length = usize::MAX;
    parameters.length_std_dev = 1;
    assert_eq!(parameters.validate(), Err(GenerateError::LengthRange));
    assert_eq!(parameters.generate(&normal), Err(GenerateError::LengthRange));
    assert_eq!(parameters.min_length, 0);
    assert_eq!(parameters.max_length, usize::MAX);
}

#[test]
fn empty_range_of_lengths_is_refused() {
    let mut parameters = generator(Some(1), 5, 2);
    parameters.min_length = 200;
    parameters.max_length = 150;
    assert_eq!(parameters.validate(), Err(GenerateError::EmptyLengthRange));
    assert_eq!(parameters.generate(&normal), Err(GenerateError::EmptyLengthRange));
}

#[test]
fn empty_range_of_positions_is_refused() {
    let mut parameters = generator(Some(1), 5, 2);
    parameters.min_flow_position = 1;
    parameters.max_flow_position = 0;
    assert_eq!(parameters.validate(), Err(GenerateError::EmptyPositionRange));
    assert_eq!(parameters.generate(&normal), Err(GenerateError::EmptyPositionRange));
}

#[test]
fn negative_deviation_is_refused() {
    let mut parameters = generator(Some(1), 5, 2);
    parameters.flow_position_std_dev = -1;
    assert_eq!(parameters.validate(), Err(GenerateError::NegativeDeviation));
    assert_eq!(parameters.generate(&normal), Err(GenerateError::NegativeDeviation));
}

#[test]
fn nothing_is_drawn_from_refused_parameters() {
    let calls: RefCell<usize> = RefCell::new(0);
    let counted = |rng: &mut ChaCha20Rng, mean: i128, deviation: i128| -> isize {
        *calls.borrow_mut() += 1;
        normal(rng, mean, deviation)
    };
    let mut parameters = generator(Some(1), 5, 2);
    parameters.flow_position_std_dev = -1;
    assert!(parameters.generate(&counted).is_err());
    assert_eq!(*calls.borrow(), 0);
}

#[test]
fn first_fault_is_named() {
    let mut parameters = generator(Some(1), 5, 0);
    parameters.min_length = 200;
    parameters.max_length = 150;
    parameters.flow_position_std_dev = -1;
    assert_eq!(parameters.validate(), Err(GenerateError::NoCluster));
    parameters.nb_clusters = 1;
    assert_eq!(parameters.validate(), Err(GenerateError::EmptyLengthRange));
    parameters.max_length = 200;
    assert_eq!(parameters.validate(), Err(GenerateError::NegativeDeviation));
    parameters.flow_position_std_dev = 0;
    assert_eq!(parameters.validate(), Ok(()));
}

#[test]
fn single_values_for_ranges_are_accepted() {
    let mut parameters = generator(Some(1), 3, 2);
    parameters.min_length = 500;
    parameters.max_length = 500;
    parameters.length_std_dev = 0;
    parameters.min_flow_position = 9;
    parameters.max_flow_position = 9;
    parameters.flow_position_std_dev = 0;
    let instance = parameters.generate(&normal).unwrap();
    assert_eq!(instance.lengths, vec![500, 500, 500]);
    assert_eq!(instance.flows, vec![vec![0; 3]; 3]);
}

#[test]
fn seed_keys_the_random_source() {
    let mut ours = generator(Some(42), 1, 1).rng().unwrap();
    let mut key = [0u8; 32];
    key[15] = 42;
    key[31] = 42;
    let mut expected = ChaCha20Rng::from_seed(key);
    assert_eq!(ours, expected);
    for _ in 0..100 {
        assert_eq!(ours.next_u64(), expected.next_u64());
    }
    let other = generator(Some(43), 1, 1).rng().unwrap();
    assert_ne!(other, ChaCha20Rng::from_seed(key));
}

#[test]
fn clock_keys_the_random_source_without_a_seed() {
    let instance = generator(None, 10, 3).generate(&normal).unwrap();
    assert_eq!(instance.lengths.len(), 10);
    assert_eq!(instance.validate(), Ok(()));
}

#[test]
fn instances_without_a_seed_differ_from_one_moment_to_another() {
    let first = generator(None, 10, 3).generate(&normal).unwrap();
    let start = Instant::now();
    while start.elapsed() < Duration::from_millis(5) {}
    let second = generator(None, 10, 3).generate(&normal).unwrap();
    assert_ne!(first, second);
}
