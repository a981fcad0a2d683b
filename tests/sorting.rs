use patience_sort::{generate_runs, patience_sort};

fn lcg(seed: &mut u64) -> u64 {
    *seed = seed.wrapping_mul(6364136223846793005).wrapping_add(1442695040888963407);
    *seed >> 33
}

#[test]
fn test_foo() {
    let mut input: Vec<u64> = vec![3, 4, 5, 6, 7, 8, 10, 13, 2, 1];
    let mut expected = input.clone();

    expected.sort();
    patience_sort(&mut input);

    println!("expected: {:?}", expected);
    println!("actual:   {:?}", input);

    assert!(input == expected)
}

#[test]
fn sorts_the_example_input() {
    let input: Vec<i64> = vec![3, 5, 4, 2, 1, 7, 6, 8, 9, 10];
    let runs = generate_runs(input.clone());
    let mut got: Vec<Vec<i64>> = runs.iter().map(|r| r.iter().cloned().collect()).collect();
    got.sort();
    assert_eq!(got, vec![vec![1, 2, 3, 5, 7, 8, 9, 10], vec![4, 6]]);

    let mut v = input;
    patience_sort(&mut v);
    assert_eq!(v, vec![1, 2, 3, 4, 5, 6, 7, 8, 9, 10]);
}

#[test]
fn sorts_empty_input() {
    let mut v: Vec<i64> = Vec::new();
    patience_sort(&mut v);
    assert!(v.is_empty());
}

#[test]
fn sorts_single_element() {
    let mut v = vec![17i64];
    patience_sort(&mut v);
    assert_eq!(v, vec![17]);
}

#[test]
fn sorts_equal_elements() {
    let mut v = vec![4i64; 9];
    patience_sort(&mut v);
    assert_eq!(v, vec![4; 9]);
}

#[test]
fn sorts_descending_input() {
    let mut v: Vec<i64> = (0..50).rev().collect();
    patience_sort(&mut v);
    assert_eq!(v, (0..50).collect::<Vec<i64>>());
    assert!(v.windows(2).all(|w| w[0] < w[1]));
}

#[test]
fn sorting_sorted_input_is_identity() {
    let sorted: Vec<i64> = vec![-5, -5, 0, 1, 1, 2, 8, 13, 13, 21];
    let mut v = sorted.clone();
    patience_sort(&mut v);
    assert_eq!(v, sorted);
    patience_sort(&mut v);
    assert_eq!(v, sorted);
}

#[test]
fn sorts_pseudo_random_inputs() {
    let mut seed = 7u64;
    for n in [2usize, 3, 5, 8, 13, 100, 1000, 1024] {
        let input: Vec<u64> = (0..n).map(|_| lcg(&mut seed) % 50).collect();
        let mut expected = input.clone();
        expected.sort();
        let mut v = input.clone();
        patience_sort(&mut v);
        assert_eq!(v.len(), input.len());
        assert_eq!(v, expected);
    }
}

#[test]
fn sorts_sawtooth_input() {
    let mut v: Vec<i32> = Vec::new();
    for block in 0..10 {
        for k in 0..10 {
            v.push(if block % 2 == 0 { k } else { 10 - k });
        }
    }
    let mut expected = v.clone();
    expected.sort();
    patience_sort(&mut v);
    assert_eq!(v, expected);
}

#[derive(Debug, Clone, PartialEq, Eq, PartialOrd, Ord)]
struct Label(String);

#[test]
fn sorts_values_that_are_not_copied() {
    let mut v: Vec<Label> = ["pear", "apple", "fig", "kiwi", "banana", "apple"]
        .iter()
        .map(|s| Label(s.to_string()))
        .collect();
    patience_sort(&mut v);
    let names: Vec<&str> = v.iter().map(|l| l.0.as_str()).collect();
    assert_eq!(names, vec!["apple", "apple", "banana", "fig", "kiwi", "pear"]);
}

fn patience_sort_prop(mut vec: Vec<i64>) -> bool {
    let mut sorted_copy = vec.clone();
    sorted_copy.sort();
    patience_sort(&mut vec);

    sorted_copy == vec
}

#[test]
fn check_patience_sort() {
    quickcheck::quickcheck(patience_sort_prop as fn(Vec<i64>) -> bool);
}
