use patience_sort::{runs_bsearch, runs_search};

#[test]
fn test_runs_search() {
    let runs: Vec<Vec<isize>> = vec![vec![3, 5, 7, 8, 9, 10], vec![4, 6], vec![2], vec![1]];

    assert_eq!(Some(&runs[0]), runs_search(&runs, &100));
    assert_eq!(Some(&runs[0]), runs_search(&runs, &10));
    assert_eq!(Some(&runs[1]), runs_search(&runs, &9));
    assert_eq!(Some(&runs[1]), runs_search(&runs, &6));
    assert_eq!(Some(&runs[2]), runs_search(&runs, &5));
    assert_eq!(Some(&runs[2]), runs_search(&runs, &2));
    assert_eq!(Some(&runs[3]), runs_search(&runs, &1));
    assert_eq!(None, runs_search(&runs, &0));
    assert_eq!(None, runs_search(&runs, &-1));
}

#[test]
fn test_search() {
    let runs: Vec<Vec<isize>> = vec![vec![3, 5, 7, 8, 9, 10], vec![4, 6], vec![2], vec![1]];

    assert_eq!(0, runs_bsearch(&runs, &100));
    assert_eq!(0, runs_bsearch(&runs, &10));
    assert_eq!(1, runs_bsearch(&runs, &9));
    assert_eq!(1, runs_bsearch(&runs, &6));
    assert_eq!(2, runs_bsearch(&runs, &5));
    assert_eq!(2, runs_bsearch(&runs, &2));
    assert_eq!(3, runs_bsearch(&runs, &1));
    assert_eq!(4, runs_bsearch(&runs, &0));
    assert_eq!(4, runs_bsearch(&runs, &-1));
}

#[test]
fn runs_search_takes_an_empty_run() {
    let runs: Vec<Vec<isize>> = vec![vec![5, 9], vec![], vec![1]];
    assert_eq!(Some(&runs[1]), runs_search(&runs, &3));
    assert_eq!(Some(&runs[0]), runs_search(&runs, &9));
    assert_eq!(1, runs_bsearch(&runs, &3));
}

#[test]
fn runs_search_on_no_runs() {
    let runs: Vec<Vec<isize>> = Vec::new();
    assert_eq!(None, runs_search(&runs, &3));
    assert_eq!(0, runs_bsearch(&runs, &3));
}

#[test]
fn runs_bsearch_equal_tails_gives_the_first() {
    let runs: Vec<Vec<u32>> = vec![vec![9], vec![1, 4], vec![0, 4], vec![2]];
    assert_eq!(1, runs_bsearch(&runs, &4));
}
