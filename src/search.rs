use vstd::prelude::*;
use vstd::laws_cmp::obeys_cmp;
use vstd::std_specs::cmp::OrdSpec;
use std::cmp::Ordering;
use crate::order::{le, lemma_cmp_answers, lemma_cmp_reverse};

verus! {

/// `key` is `Less` on a prefix of `s` and something else on the rest: once an
/// element is not `Less`, no later one is.
pub open spec fn monotone<T>(s: Seq<T>, key: spec_fn(T) -> Ordering) -> bool {
    forall|i: int, j: int|
        0 <= i <= j < s.len() && key(#[trigger] s[i]) != Ordering::Less ==> key(#[trigger] s[j])
            != Ordering::Less
}

/// Binary search for the start of the suffix of `slice` on which `pred` does
/// not answer `Less`; `slice.len()` where there is none. `key` says what
/// `pred` answers. Where `pred` is not monotone the index is still within
/// `[0, slice.len()]`.
pub fn bsearch<T, F: Fn(&T) -> Ordering>(
    slice: &[T],
    pred: F,
    Ghost(key): Ghost<spec_fn(T) -> Ordering>,
) -> (r: usize)
    requires
        forall|i: int| 0 <= i < slice@.len() ==> call_requires(pred, (&slice@[i],)),
        forall|x: &T, o: Ordering| call_ensures(pred, (x,), o) ==> o == key(*x),
    ensures
        r <= slice@.len(),
        monotone(slice@, key) ==> forall|j: int|
            0 <= j < r ==> key(#[trigger] slice@[j]) == Ordering::Less,
        monotone(slice@, key) ==> forall|j: int|
            r <= j < slice@.len() ==> key(#[trigger] slice@[j]) != Ordering::Less,
{
    let mut base: usize = 0;
    let mut lim: usize = slice.len();
    while base < lim
        invariant
            lim <= slice@.len(),
            base <= lim,
            forall|i: int| 0 <= i < slice@.len() ==> call_requires(pred, (&slice@[i],)),
            forall|x: &T, o: Ordering| call_ensures(pred, (x,), o) ==> o == key(*x),
            monotone(slice@, key) ==> forall|j: int|
                0 <= j < base ==> key(#[trigger] slice@[j]) == Ordering::Less,
            monotone(slice@, key) ==> forall|j: int|
                lim <= j < slice@.len() ==> key(#[trigger] slice@[j]) != Ordering::Less,
        decreases lim - base,
    {
        let ix = base + (lim - base) / 2;
        let o = pred(&slice[ix]);
        match o {
            Ordering::Less => {
                base = ix + 1;
            },
            _ => {
                lim = ix;
            },
        }
    }
    base
}

/// `element` may go at the tail of `run`: the run is empty, or its last
/// element is not greater than `element`.
pub open spec fn accepts<T: Ord>(run: Seq<T>, element: T) -> bool {
    run.len() == 0 || le(run.last(), element)
}

/// The runs that accept `element` form a suffix of `runs`.
pub open spec fn accepting_suffix<T: Ord>(runs: Seq<Vec<T>>, element: T) -> bool {
    forall|i: int, j: int|
        0 <= i <= j < runs.len() && accepts(#[trigger] runs[i]@, element) ==> accepts(
            #[trigger] runs[j]@,
            element,
        )
}

/// The first run, scanning from the front, that accepts `element` at its
/// tail.
pub fn runs_search<'a, T: Ord>(runs: &'a Vec<Vec<T>>, element: &T) -> (r: Option<&'a Vec<T>>)
    requires
        obeys_cmp::<T>(),
    ensures
        match r {
            None => forall|i: int| 0 <= i < runs@.len() ==> !accepts(#[trigger] runs@[i]@, *element),
            Some(run) => exists|i: int|
                0 <= i < runs@.len() && *run == runs@[i] && accepts(runs@[i]@, *element) && forall|
                    j: int,
                | 0 <= j < i ==> !accepts(#[trigger] runs@[j]@, *element),
        },
{
    proof {
        lemma_cmp_answers::<T>();
    }
    let mut i: usize = 0;
    while i < runs.len()
        invariant
            obeys_cmp::<T>(),
            T::obeys_cmp_spec(),
            i <= runs@.len(),
            forall|j: int| 0 <= j < i ==> !accepts(#[trigger] runs@[j]@, *element),
        decreases runs@.len() - i,
    {
        let run = &runs[i];
        if run.len() == 0 {
            return Some(run);
        }
        match element.cmp(&run[run.len() - 1]) {
            Ordering::Less => {
                proof {
                    lemma_cmp_reverse(*element, run@.last());
                }
            },
            _ => {
                proof {
                    lemma_cmp_reverse(*element, run@.last());
                }
                return Some(run);
            },
        }
        i = i + 1;
    }
    None
}

/// Binary search for the first run that accepts `element` at its tail;
/// `runs.len()` where none does. That holds where the accepting runs form a
/// suffix; otherwise the index is only known to be within `[0, runs.len()]`.
pub fn runs_bsearch<T: Ord>(runs: &Vec<Vec<T>>, element: &T) -> (r: usize)
    requires
        obeys_cmp::<T>(),
    ensures
        r <= runs@.len(),
        accepting_suffix(runs@, *element) ==> forall|j: int|
            0 <= j < r ==> !accepts(#[trigger] runs@[j]@, *element),
        accepting_suffix(runs@, *element) ==> forall|j: int|
            r <= j < runs@.len() ==> accepts(#[trigger] runs@[j]@, *element),
{
    proof {
        lemma_cmp_answers::<T>();
    }
    let ghost key = |run: Vec<T>|
        if run@.len() == 0 {
            Ordering::Greater
        } else {
            element.cmp_spec(&run@.last())
        };
    let pred = |run: &Vec<T>| -> (o: Ordering)
        ensures
            o == key(*run),
        {
            if run.len() == 0 {
                Ordering::Greater
            } else {
                element.cmp(&run[run.len() - 1])
            }
        };
    proof {
        assert forall|run: Vec<T>| key(run) != Ordering::Less <==> accepts(run@, *element) by {
            if run@.len() > 0 {
                lemma_cmp_reverse(*element, run@.last());
            }
        }
    }
    let r = bsearch(runs.as_slice(), pred, Ghost(key));
    r
}

} // verus!
