use patience_sort::merge::{blind_merge, slice_merge};
use quickcheck::quickcheck;
use std::cmp::Ordering;

fn slice_merge_prop(mut run1: Vec<i64>, mut run2: Vec<i64>) -> bool {
    run1.sort();
    run2.sort();

    let mut expected = run1.clone();
    expected.extend_from_slice(&run2);
    expected.sort();

    let mut sink = vec![0i64; expected.len()];

    slice_merge(run1.as_slice(), run2.as_slice(), sink.as_mut_slice());

    expected == sink
}

#[test]
fn check_slice_merge() {
    quickcheck(slice_merge_prop as fn(Vec<i64>, Vec<i64>) -> bool);
}

fn slots(values: &[i64]) -> Vec<Option<i64>> {
    values.iter().map(|v| Some(*v)).collect()
}

fn blind_merge_disjoint_prop(mut a: Vec<i64>, mut b: Vec<i64>) -> bool {
    a.sort();
    b.sort();
    let mut expected = a.clone();
    expected.extend_from_slice(&b);
    expected.sort();

    let mut src = slots(&a);
    src.extend(slots(&b));
    let mut sink: Vec<Option<i64>> = vec![None; a.len() + b.len()];
    blind_merge(&mut src, &mut sink, 0, a.len(), b.len(), false);
    sink == slots(&expected)
}

fn blind_merge_overlapping_prop(mut a: Vec<i64>, mut b: Vec<i64>) -> bool {
    a.sort();
    b.sort();
    let mut expected = a.clone();
    expected.extend_from_slice(&b);
    expected.sort();

    let mut src = slots(&a);
    src.extend(vec![None; b.len()]);
    let mut sink: Vec<Option<i64>> = vec![None; a.len()];
    sink.extend(slots(&b));
    blind_merge(&mut src, &mut sink, 0, a.len(), b.len(), true);
    sink == slots(&expected)
}

#[test]
fn check_blind_merge() {
    quickcheck(blind_merge_disjoint_prop as fn(Vec<i64>, Vec<i64>) -> bool);
}

#[test]
fn check_blind_merge_overlapping() {
    quickcheck(blind_merge_overlapping_prop as fn(Vec<i64>, Vec<i64>) -> bool);
}

#[test]
fn merges_two_runs_exactly() {
    let a = [1u32, 4, 6, 9];
    let b = [2u32, 3, 7];
    let mut sink = [0u32; 7];
    slice_merge(&a, &b, &mut sink);
    assert_eq!(sink, [1, 2, 3, 4, 6, 7, 9]);
}

#[test]
fn merges_with_an_empty_run() {
    let a: [u32; 0] = [];
    let b = [5u32, 8];
    let mut sink = [0u32; 2];
    slice_merge(&a, &b, &mut sink);
    assert_eq!(sink, [5, 8]);
    let mut sink2 = [0u32; 2];
    slice_merge(&b, &a, &mut sink2);
    assert_eq!(sink2, [5, 8]);
}

#[test]
fn blind_merge_agrees_with_disjoint_merge() {
    let a = [2i64, 3, 10, 11];
    let b = [1i64, 4, 5, 12, 13];
    let mut disjoint = [0i64; 9];
    slice_merge(&a, &b, &mut disjoint);

    let mut src = slots(&a);
    src.extend(vec![None; b.len()]);
    let mut sink: Vec<Option<i64>> = vec![None; a.len()];
    sink.extend(slots(&b));
    blind_merge(&mut src, &mut sink, 0, a.len(), b.len(), true);
    assert_eq!(sink, slots(&disjoint));
    assert_eq!(disjoint, [1, 2, 3, 4, 5, 10, 11, 12, 13]);
    // the elements of the first run were moved out
    assert!(src.iter().all(|s| s.is_none()));
}

#[test]
fn blind_merge_leaves_the_tail_in_place() {
    let a = [1i64, 2];
    let b = [3i64, 4, 5];
    let mut src = slots(&a);
    src.extend(vec![None; 3]);
    let mut sink: Vec<Option<i64>> = vec![None, None];
    sink.extend(slots(&b));
    blind_merge(&mut src, &mut sink, 0, 2, 3, true);
    assert_eq!(sink, slots(&[1, 2, 3, 4, 5]));
}

#[test]
fn blind_merge_touches_only_its_region() {
    let mut src: Vec<Option<i64>> = vec![Some(100), Some(7), Some(8), Some(1), Some(200)];
    let mut sink: Vec<Option<i64>> = vec![Some(-1), None, None, None, Some(-2)];
    blind_merge(&mut src, &mut sink, 1, 2, 1, false);
    assert_eq!(sink, vec![Some(-1), Some(1), Some(7), Some(8), Some(-2)]);
    assert_eq!(src[0], Some(100));
    assert_eq!(src[4], Some(200));
}

#[derive(Debug, Clone, Copy)]
struct Keyed {
    key: u32,
    tag: char,
}

impl PartialEq for Keyed {
    fn eq(&self, other: &Self) -> bool {
        self.key == other.key
    }
}

impl Eq for Keyed {}

impl PartialOrd for Keyed {
    fn partial_cmp(&self, other: &Self) -> Option<Ordering> {
        Some(self.cmp(other))
    }
}

impl Ord for Keyed {
    fn cmp(&self, other: &Self) -> Ordering {
        self.key.cmp(&other.key)
    }
}

#[test]
fn merge_ties_take_the_first_run_first() {
    let a = [Keyed { key: 1, tag: 'a' }, Keyed { key: 2, tag: 'a' }];
    let b = [Keyed { key: 1, tag: 'b' }, Keyed { key: 2, tag: 'b' }];
    let mut sink = [Keyed { key: 0, tag: '-' }; 4];
    slice_merge(&a, &b, &mut sink);
    let tags: Vec<char> = sink.iter().map(|k| k.tag).collect();
    assert_eq!(tags, vec!['a', 'b', 'a', 'b']);

    let mut src: Vec<Option<Keyed>> = a.iter().map(|k| Some(*k)).collect();
    src.extend(vec![None, None]);
    let mut buf: Vec<Option<Keyed>> = vec![None, None];
    buf.extend(b.iter().map(|k| Some(*k)));
    blind_merge(&mut src, &mut buf, 0, 2, 2, true);
    let tags: Vec<char> = buf.iter().map(|k| k.unwrap().tag).collect();
    assert_eq!(tags, vec!['a', 'b', 'a', 'b']);
}
