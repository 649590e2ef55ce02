use sortviz::bars::{generate_bars, BAR_MAX, BAR_MIN};
use sortviz::engine::Engine;
use sortviz::event::Algorithm;
use sortviz::order::is_ordered;

/// Drives `engine` until the first `None`, checking the step bound, and
/// returns how many `Some` events were produced.
fn drive(engine: &mut Engine, array: &mut Vec<i32>) -> usize {
    let n = array.len();
    let bound = n * n + 1;
    let mut steps = 0;
    loop {
        match engine.step(array) {
            Some(_) => {
                steps += 1;
                assert!(steps <= bound, "more steps than the worst-case bound");
            }
            None => return steps,
        }
    }
}

/// Checks that a full run sorts `input`, keeps its multiset of values, and
/// stays a no-op after the first `None`.
fn check_full_run(algo: Algorithm, input: Vec<i32>) {
    let mut array = input.clone();
    let mut engine = Engine::new(algo);
    drive(&mut engine, &mut array);
    assert!(is_ordered(&array));
    let mut expected = input.clone();
    expected.sort();
    let mut actual = array.clone();
    actual.sort();
    assert_eq!(actual, expected, "the multiset of values changed");
    // no-op past termination
    for _ in 0..3 {
        let before = array.clone();
        assert!(engine.step(&mut array).is_none());
        assert_eq!(array, before);
    }
}

fn all_algorithms() -> Vec<Algorithm> {
    vec![Algorithm::Bubble, Algorithm::Selection, Algorithm::Insertion, Algorithm::Quick]
}

#[test]
fn full_runs_sort_every_shape_of_input() {
    for algo in all_algorithms() {
        check_full_run(algo, vec![]);
        check_full_run(algo, vec![7]);
        check_full_run(algo, vec![1, 2, 3, 4, 5]);
        check_full_run(algo, vec![5, 4, 3, 2, 1]);
        check_full_run(algo, vec![4, 4, 4, 4]);
        check_full_run(algo, vec![3, 1, 2]);
        check_full_run(algo, vec![2, 1]);
        check_full_run(algo, vec![10, -3, 7, -3, 0, 10, 2]);
    }
}

#[test]
fn full_runs_sort_random_input() {
    for algo in all_algorithms() {
        check_full_run(algo, generate_bars(40));
    }
}

#[test]
fn empty_array_is_terminal_immediately() {
    for algo in all_algorithms() {
        let mut array: Vec<i32> = vec![];
        let mut engine = Engine::new(algo);
        assert!(engine.step(&mut array).is_none());
        assert!(engine.step(&mut array).is_none());
    }
}

#[test]
fn single_element_yields_one_terminating_event() {
    for algo in all_algorithms() {
        let mut array = vec![42];
        let mut engine = Engine::new(algo);
        let e = engine.step(&mut array).expect("one terminating event");
        assert_eq!(e.compared, (None, None));
        assert!(engine.step(&mut array).is_none());
        assert_eq!(array, vec![42]);
    }
}

#[test]
fn bubble_concrete_scenario() {
    let mut array = vec![3, 1, 2];
    let mut engine = Engine::new(Algorithm::Bubble);

    let e1 = engine.step(&mut array).unwrap();
    assert_eq!(e1.compared, (Some(0), Some(1)));
    assert_eq!(array, vec![1, 3, 2]);

    let e2 = engine.step(&mut array).unwrap();
    assert_eq!(e2.compared, (Some(1), Some(2)));
    assert_eq!(array, vec![1, 2, 3]);

    // confirmatory pass: one comparison, no swap
    let e3 = engine.step(&mut array).unwrap();
    assert_eq!(e3.compared, (Some(0), Some(1)));
    assert_eq!(array, vec![1, 2, 3]);

    assert!(engine.step(&mut array).is_none());
    assert!(is_ordered(&array));
    assert!(engine.step(&mut array).is_none());
    assert_eq!(array, vec![1, 2, 3]);
}

#[test]
fn selection_concrete_scenario() {
    let mut array = vec![2, 3, 1];
    let mut engine = Engine::new(Algorithm::Selection);

    // scan compares index 1 against the running minimum at 0; no change
    let e1 = engine.step(&mut array).unwrap();
    assert_eq!(e1.compared, (Some(1), Some(0)));
    assert_eq!(array, vec![2, 3, 1]);

    // scan ends: the minimum at 2 is swapped to the boundary 0
    let e2 = engine.step(&mut array).unwrap();
    assert_eq!(e2.compared, (Some(0), Some(2)));
    assert_eq!(array, vec![1, 3, 2]);

    // second scan ends at once: minimum at 2 swapped to boundary 1
    let e3 = engine.step(&mut array).unwrap();
    assert_eq!(e3.compared, (Some(1), Some(2)));
    assert_eq!(array, vec![1, 2, 3]);

    assert!(engine.step(&mut array).is_none());
}

#[test]
fn insertion_concrete_scenario() {
    let mut array = vec![3, 1, 2];
    let mut engine = Engine::new(Algorithm::Insertion);

    let e1 = engine.step(&mut array).unwrap();
    assert_eq!(e1.compared, (Some(0), Some(1)));
    assert_eq!(array, vec![1, 3, 2]);

    let e2 = engine.step(&mut array).unwrap();
    assert_eq!(e2.compared, (Some(1), Some(2)));
    assert_eq!(array, vec![1, 2, 3]);

    let e3 = engine.step(&mut array).unwrap();
    assert_eq!(e3.compared, (Some(0), Some(1)));
    assert_eq!(array, vec![1, 2, 3]);

    assert!(engine.step(&mut array).is_none());
}

#[test]
fn quick_concrete_scenario() {
    let mut array = vec![3, 1, 2];
    let mut engine = Engine::new(Algorithm::Quick);

    // first partition comparison against the pivot 2: the 3 stays high
    let e1 = engine.step(&mut array).unwrap();
    assert_eq!(e1.compared, (Some(0), Some(2)));
    assert_eq!(array, vec![3, 1, 2]);

    // the 1 belongs below the pivot: swapped to the low boundary
    let e2 = engine.step(&mut array).unwrap();
    assert_eq!(e2.compared, (Some(0), Some(1)));
    assert_eq!(array, vec![1, 3, 2]);

    // scan exhausted: the pivot is placed between the regions
    let e3 = engine.step(&mut array).unwrap();
    assert_eq!(e3.compared, (Some(1), Some(2)));
    assert_eq!(array, vec![1, 2, 3]);

    // both sub-ranges have length one: nothing is pending
    assert!(engine.step(&mut array).is_none());
    assert_eq!(array, vec![1, 2, 3]);
}

#[test]
fn sorted_input_is_never_touched() {
    for algo in all_algorithms() {
        let input = vec![-5, 0, 0, 3, 9, 9, 11];
        let mut array = input.clone();
        let mut engine = Engine::new(algo);
        while let Some(_) = engine.step(&mut array) {
            assert_eq!(array, input, "a step changed an already-sorted array");
        }
    }
}

#[test]
fn sorted_input_confirmatory_step_counts() {
    let n = 6;
    let input: Vec<i32> = (0..n as i32).collect();

    // bubble: one confirmatory pass of n - 1 comparisons
    let mut array = input.clone();
    assert_eq!(drive(&mut Engine::new(Algorithm::Bubble), &mut array), n - 1);

    // insertion: each element settles after a single comparison
    let mut array = input.clone();
    assert_eq!(drive(&mut Engine::new(Algorithm::Insertion), &mut array), n - 1);

    // selection has no early exit: every scan runs in full, with zero swaps
    let mut array = input.clone();
    assert_eq!(drive(&mut Engine::new(Algorithm::Selection), &mut array), n * (n - 1) / 2);

    // quick degenerates on sorted input: each partition peels off its
    // maximum, spending one comparison per element plus one placement
    let mut array = input.clone();
    assert_eq!(drive(&mut Engine::new(Algorithm::Quick), &mut array), n * (n + 1) / 2 - 1);
}

#[test]
fn equal_elements_are_never_swapped() {
    for algo in all_algorithms() {
        let mut array = vec![7, 7, 7, 7];
        let mut engine = Engine::new(algo);
        while let Some(_) = engine.step(&mut array) {
            assert_eq!(array, vec![7, 7, 7, 7]);
        }
    }
}

#[test]
fn default_algorithm_is_bubble() {
    assert_eq!(Algorithm::default(), Algorithm::Bubble);
}

#[test]
fn is_ordered_matches_adjacent_pairs() {
    assert!(is_ordered(&vec![]));
    assert!(is_ordered(&vec![5]));
    assert!(is_ordered(&vec![1, 1, 2, 9]));
    assert!(!is_ordered(&vec![2, 1]));
    assert!(!is_ordered(&vec![1, 3, 2, 4]));
}

#[test]
fn generated_bars_have_size_and_bounds() {
    let bars = generate_bars(167);
    assert_eq!(bars.len(), 167);
    for &v in bars.iter() {
        assert!(BAR_MIN <= v && v < BAR_MAX);
    }
    assert_eq!(generate_bars(0).len(), 0);
}
