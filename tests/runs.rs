use patience_sort::schedule::{copy_runs_into_buf, empty_slots, unbalanced_ping_pong_merge, BufferSelector};
use patience_sort::{generate_runs, sqrt};
use std::collections::VecDeque;

fn contents(runs: &[VecDeque<i64>]) -> Vec<Vec<i64>> {
    runs.iter().map(|run| run.iter().cloned().collect()).collect()
}

fn check_runs(input: &[i64], runs: &[VecDeque<i64>]) {
    assert!(runs.len() <= input.len());
    let mut all: Vec<i64> = Vec::new();
    for run in runs {
        assert!(!run.is_empty());
        let v: Vec<i64> = run.iter().cloned().collect();
        assert!(v.windows(2).all(|w| w[0] <= w[1]));
        all.extend(v);
    }
    let mut expected = input.to_vec();
    expected.sort();
    all.sort();
    assert_eq!(all, expected);
    let heads: Vec<i64> = runs.iter().map(|r| *r.front().unwrap()).collect();
    let tails: Vec<i64> = runs.iter().map(|r| *r.back().unwrap()).collect();
    assert!(heads.windows(2).all(|w| w[0] <= w[1]));
    assert!(tails.windows(2).all(|w| w[0] >= w[1]));
}

#[test]
fn test_generate_runs() {
    let input: Vec<u64> = vec![3, 5, 4, 2, 1, 7, 6, 8, 9, 10];

    let expected: Vec<Vec<u64>> = vec![vec![1, 2, 3, 5, 7, 8, 9, 10], vec![4, 6]];

    let result = generate_runs(input);

    let got: Vec<Vec<u64>> = result.iter().map(|run| run.iter().cloned().collect()).collect();
    assert_eq!(expected, got);
}

#[test]
fn generate_runs_keeps_every_element() {
    let input: Vec<i64> = vec![5, -3, 8, 8, 0, 12, -7, 5, 3, 9, 1, 1, 4, -2, 6];
    let runs = generate_runs(input.clone());
    check_runs(&input, &runs);
}

#[test]
fn generate_runs_on_empty_input() {
    let runs = generate_runs(Vec::<i64>::new());
    assert!(runs.is_empty());
}

#[test]
fn generate_runs_on_one_element() {
    let runs = generate_runs(vec![42i64]);
    assert_eq!(contents(&runs), vec![vec![42]]);
}

#[test]
fn generate_runs_on_equal_elements() {
    let runs = generate_runs(vec![7i64; 6]);
    assert_eq!(contents(&runs), vec![vec![7; 6]]);
}

#[test]
fn generate_runs_on_descending_input() {
    let input: Vec<i64> = (0..20).rev().collect();
    let runs = generate_runs(input.clone());
    check_runs(&input, &runs);
    // each element goes to the head of the single run
    assert_eq!(contents(&runs), vec![(0..20).collect::<Vec<i64>>()]);
}

#[test]
fn generate_runs_on_alternating_input() {
    let input: Vec<i64> = vec![1, 10, 2, 9, 3, 8, 4, 7];
    let runs = generate_runs(input.clone());
    check_runs(&input, &runs);
    assert_eq!(contents(&runs), vec![vec![1, 10], vec![2, 9], vec![3, 8], vec![4, 7]]);
}

#[test]
fn integer_square_roots() {
    assert_eq!(sqrt(0), 0);
    assert_eq!(sqrt(1), 1);
    assert_eq!(sqrt(2), 1);
    assert_eq!(sqrt(3), 1);
    assert_eq!(sqrt(4), 2);
    assert_eq!(sqrt(15), 3);
    assert_eq!(sqrt(16), 4);
    assert_eq!(sqrt(17), 4);
    assert_eq!(sqrt(1_000_000), 1000);
    assert_eq!(sqrt(999_999), 999);
    assert_eq!(sqrt(usize::MAX), (1usize << (usize::BITS / 2)) - 1);
}

fn deque(values: &[i64]) -> VecDeque<i64> {
    values.iter().cloned().collect()
}

#[test]
fn runs_are_packed_shortest_first() {
    let runs = vec![deque(&[1, 5, 9]), deque(&[4]), deque(&[2, 3])];
    let mut buf = empty_slots::<i64>(6);
    let descs = copy_runs_into_buf(&mut buf, runs);
    let lens: Vec<usize> = descs.iter().map(|d| d.len).collect();
    let offsets: Vec<usize> = descs.iter().map(|d| d.offset).collect();
    assert_eq!(lens, vec![1, 2, 3]);
    assert_eq!(offsets, vec![0, 1, 3]);
    assert!(descs.iter().all(|d| d.buffer == BufferSelector::A));
    assert_eq!(buf, vec![Some(4), Some(2), Some(3), Some(1), Some(5), Some(9)]);
}

#[test]
fn ping_pong_merge_of_several_runs() {
    let runs = vec![
        deque(&[1, 5, 9, 20]),
        deque(&[4]),
        deque(&[2, 3]),
        deque(&[0, 6, 7]),
        deque(&[8, 11]),
    ];
    let mut buf = empty_slots::<i64>(12);
    unbalanced_ping_pong_merge(&mut buf, runs);
    let result: Vec<i64> = buf.iter().map(|s| s.unwrap()).collect();
    assert_eq!(result, vec![0, 1, 2, 3, 4, 5, 6, 7, 8, 9, 11, 20]);
}

#[test]
fn ping_pong_merge_of_one_run() {
    let mut buf = empty_slots::<i64>(3);
    unbalanced_ping_pong_merge(&mut buf, vec![deque(&[1, 2, 3])]);
    assert_eq!(buf, vec![Some(1), Some(2), Some(3)]);
}

#[test]
fn ping_pong_merge_of_no_runs() {
    let mut buf = empty_slots::<i64>(0);
    unbalanced_ping_pong_merge(&mut buf, Vec::new());
    assert!(buf.is_empty());
}

fn generate_runs_prop(vec: Vec<i64>) -> bool {
    let runs = generate_runs(vec.clone());

    let heads: Vec<i64> = runs.iter().map(|run| *run.front().unwrap()).collect();
    let mut sorted_heads = heads.clone();
    sorted_heads.sort();

    let tails: Vec<i64> = runs.iter().map(|run| *run.back().unwrap()).collect();
    let mut sorted_tails = tails.clone();
    sorted_tails.sort();
    sorted_tails.reverse();

    let runs_are_sorted = runs.iter().all(|run| {
        let v: Vec<i64> = run.iter().cloned().collect();
        let mut sorted_run = v.clone();
        sorted_run.sort();
        sorted_run == v
    });

    let mut all: Vec<i64> = runs.iter().flat_map(|run| run.iter().cloned()).collect();
    all.sort();
    let mut expected = vec.clone();
    expected.sort();

    vec.len() >= runs.len() && runs_are_sorted && heads == sorted_heads && tails == sorted_tails
        && all == expected
}

#[test]
fn check_generate_runs() {
    quickcheck::quickcheck(generate_runs_prop as fn(Vec<i64>) -> bool);
}
