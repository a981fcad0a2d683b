use patience_sort::merge::{get_next, IteratorSelector, MergingIterator};
use std::collections::VecDeque;

#[test]
fn get_next_prefers_the_source_that_is_left() {
    assert_eq!(get_next::<i32>(None, None), IteratorSelector::B);
    assert_eq!(get_next(None, Some(&3)), IteratorSelector::B);
    assert_eq!(get_next(Some(&3), None), IteratorSelector::A);
}

#[test]
fn get_next_takes_the_smaller_head() {
    assert_eq!(get_next(Some(&1), Some(&2)), IteratorSelector::A);
    assert_eq!(get_next(Some(&5), Some(&2)), IteratorSelector::B);
    // on a tie the first source goes first
    assert_eq!(get_next(Some(&4), Some(&4)), IteratorSelector::A);
}

#[test]
fn merging_iterator_yields_the_merge() {
    let a: VecDeque<i32> = vec![1, 4, 4, 9].into_iter().collect();
    let b: VecDeque<i32> = vec![0, 4, 10].into_iter().collect();
    let mut it = MergingIterator::new(a, b);
    assert_eq!(it.size_hint(), (7, Some(7)));
    let mut out = Vec::new();
    while let Some(x) = it.next() {
        out.push(x);
    }
    assert_eq!(out, vec![0, 1, 4, 4, 4, 9, 10]);
    assert_eq!(it.size_hint(), (0, Some(0)));
    assert_eq!(it.next(), None);
}

#[test]
fn merging_iterator_over_empty_sources() {
    let mut it = MergingIterator::new(VecDeque::<u8>::new(), VecDeque::new());
    assert_eq!(it.size_hint(), (0, Some(0)));
    assert_eq!(it.next(), None);
}
