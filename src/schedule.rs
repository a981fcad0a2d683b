use vstd::prelude::*;
use vstd::laws_cmp::obeys_cmp;
use vstd::multiset::Multiset;
use std::collections::VecDeque;
use crate::order::sorted;
use crate::merge::{filled, values, merged, blind_merge, lemma_merged_multiset, lemma_merged_sorted};
use crate::runs::{run_contents, runs_multiset};

verus! {

/// One of the two buffers that runs are merged between: `A` is the primary
/// buffer, `B` the auxiliary one.
#[derive(Clone, Copy, PartialEq, Eq, Structural, Debug)]
pub enum BufferSelector {
    A,
    B,
}

/// Where a run lives while runs are merged: a buffer, and a region of it.
#[derive(Clone, Copy, PartialEq, Eq, Structural, Debug)]
pub struct RunDescriptor {
    pub buffer: BufferSelector,
    pub offset: usize,
    pub len: usize,
}

/// The slots of the buffer that `sel` names.
pub open spec fn arena<T>(a: Seq<Option<T>>, b: Seq<Option<T>>, sel: BufferSelector) -> Seq<
    Option<T>,
> {
    match sel {
        BufferSelector::A => a,
        BufferSelector::B => b,
    }
}

/// The slots of the region that `d` describes.
pub open spec fn region<T>(a: Seq<Option<T>>, b: Seq<Option<T>>, d: RunDescriptor) -> Seq<
    Option<T>,
> {
    arena(a, b, d.buffer).subrange(d.offset as int, d.offset + d.len)
}

/// The elements of each described run, in order.
pub open spec fn described<T>(
    a: Seq<Option<T>>,
    b: Seq<Option<T>>,
    descs: Seq<RunDescriptor>,
) -> Seq<Seq<T>> {
    descs.map_values(|d: RunDescriptor| values(region(a, b, d)))
}

/// The descriptors cover `[0, n)` in order, each starting where the one
/// before it ends.
#[verifier::opaque]
pub open spec fn tiles<T>(descs: Seq<RunDescriptor>, n: nat) -> bool {
    &&& descs.len() > 0 ==> descs[0].offset == 0
    &&& descs.len() > 0 ==> descs.last().offset + descs.last().len == n
    &&& forall|i: int, j: int|
        0 <= i && j == i + 1 && j < descs.len() ==> (#[trigger] descs[i]).offset + descs[i].len == (
        #[trigger] descs[j]).offset
    &&& forall|i: int, j: int|
        0 <= i < j < descs.len() ==> (#[trigger] descs[i]).offset + descs[i].len <= (
        #[trigger] descs[j]).offset
    &&& forall|k: int| 0 <= k < descs.len() ==> (#[trigger] descs[k]).offset + descs[k].len <= n
}

/// The run that `d` describes is held in full and is ascending.
#[verifier::opaque]
pub open spec fn run_held<T: Ord>(a: Seq<Option<T>>, b: Seq<Option<T>>, d: RunDescriptor) -> bool {
    filled(region(a, b, d)) && sorted(values(region(a, b, d)))
}

/// Every described run is held in full and is ascending.
pub open spec fn runs_held<T: Ord>(
    a: Seq<Option<T>>,
    b: Seq<Option<T>>,
    descs: Seq<RunDescriptor>,
) -> bool {
    forall|k: int| 0 <= k < descs.len() ==> #[trigger] run_held(a, b, descs[k])
}

/// Replacing one run by another adds the new run's elements in place of the
/// old one's.
pub proof fn lemma_runs_multiset_update<T>(runs: Seq<Seq<T>>, i: int, run: Seq<T>)
    requires
        0 <= i < runs.len(),
    ensures
        runs_multiset(runs.update(i, run)).add(runs[i].to_multiset()) == runs_multiset(runs).add(
            run.to_multiset(),
        ),
    decreases runs.len(),
{
    broadcast use {vstd::seq_lib::group_to_multiset_ensures, vstd::multiset::group_multiset_axioms};

    let updated = runs.update(i, run);
    let rest = runs.drop_last();
    if i == runs.len() - 1 {
        assert(updated.drop_last() =~= rest);
        assert(runs_multiset(updated) == runs_multiset(rest).add(run.to_multiset()));
        assert(runs_multiset(runs) == runs_multiset(rest).add(runs[i].to_multiset()));
        assert(runs_multiset(updated).add(runs[i].to_multiset()) =~= runs_multiset(runs).add(
            run.to_multiset(),
        ));
    } else {
        lemma_runs_multiset_update(rest, i, run);
        assert(updated.drop_last() =~= rest.update(i, run));
        assert(rest[i] == runs[i]);
        assert(runs_multiset(updated) == runs_multiset(rest.update(i, run)).add(
            runs.last().to_multiset(),
        ));
        assert(runs_multiset(runs) == runs_multiset(rest).add(runs.last().to_multiset()));
        assert(runs_multiset(updated).add(runs[i].to_multiset()) =~= runs_multiset(
            rest.update(i, run),
        ).add(rest[i].to_multiset()).add(runs.last().to_multiset()));
        assert(runs_multiset(updated).add(runs[i].to_multiset()) =~= runs_multiset(rest).add(
            run.to_multiset(),
        ).add(runs.last().to_multiset()));
        assert(runs_multiset(updated).add(runs[i].to_multiset()) =~= runs_multiset(runs).add(
            run.to_multiset(),
        ));
    }
}

/// Replacing two neighbouring runs by one that holds the elements of both
/// keeps the elements of all runs.
pub proof fn lemma_runs_multiset_join<T>(runs: Seq<Seq<T>>, i: int, run: Seq<T>)
    requires
        0 <= i < runs.len() - 1,
        run.to_multiset() == runs[i].to_multiset().add(runs[i + 1].to_multiset()),
    ensures
        runs_multiset(runs.update(i, run).remove(i + 1)) == runs_multiset(runs),
    decreases runs.len(),
{
    broadcast use {vstd::seq_lib::group_to_multiset_ensures, vstd::multiset::group_multiset_axioms};

    let joined = runs.update(i, run).remove(i + 1);
    if i == runs.len() - 2 {
        let rest = runs.drop_last();
        assert(joined.drop_last() =~= rest.drop_last());
        assert(joined.last() == run);
        assert(rest.last() == runs[i]);
        assert(runs_multiset(joined) == runs_multiset(rest.drop_last()).add(run.to_multiset()));
        assert(runs_multiset(rest) == runs_multiset(rest.drop_last()).add(
            runs[i].to_multiset(),
        ));
        assert(runs_multiset(runs) == runs_multiset(rest).add(runs[i + 1].to_multiset()));
        assert(runs_multiset(joined) =~= runs_multiset(runs));
    } else {
        lemma_runs_multiset_join(runs.drop_last(), i, run);
        assert(joined.drop_last() =~= runs.drop_last().update(i, run).remove(i + 1));
        assert(joined.last() == runs.last());
    }
}

/// A sequence of empty runs holds no elements.
pub proof fn lemma_runs_multiset_empty<T>(runs: Seq<Seq<T>>)
    requires
        forall|i: int| 0 <= i < runs.len() ==> (#[trigger] runs[i]).len() == 0,
    ensures
        runs_multiset(runs) == Multiset::<T>::empty(),
    decreases runs.len(),
{
    broadcast use {vstd::seq_lib::group_to_multiset_ensures, vstd::multiset::group_multiset_axioms};

    if runs.len() > 0 {
        lemma_runs_multiset_empty(runs.drop_last());
        assert(runs.last() =~= Seq::<T>::empty());
        assert(runs_multiset(runs) =~= Multiset::<T>::empty());
    }
}

/// Relies on `slice::sort`: the keys come back in ascending order, which
/// orders them by their first component.
#[verifier::external_body]
fn sort_keys(keys: &mut Vec<(usize, usize)>)
    ensures
        final(keys)@.to_multiset() == old(keys)@.to_multiset(),
        forall|i: int, j: int|
            0 <= i < j < final(keys)@.len() ==> (#[trigger] final(keys)@[i]).0 <= (
            #[trigger] final(keys)@[j]).0,
{
    keys.sort();
}

/// Appending a descriptor that starts where the last one ends keeps the
/// descriptors in order.
proof fn lemma_tiles_push<T>(descs0: Seq<RunDescriptor>, d: RunDescriptor)
    requires
        tiles::<T>(descs0, d.offset as nat),
        descs0.len() > 0 ==> descs0.last().offset + descs0.last().len == d.offset,
        descs0.len() == 0 ==> d.offset == 0,
    ensures
        tiles::<T>(descs0.push(d), (d.offset + d.len) as nat),
{
    reveal(tiles);
    let descs = descs0.push(d);
    assert forall|q1: int, q2: int| 0 <= q1 && q2 == q1 + 1 && q2 < descs.len() implies (
    #[trigger] descs[q1]).offset + descs[q1].len == (#[trigger] descs[q2]).offset by {
        assert(descs[q1] == descs0[q1]);
        if q2 < descs0.len() {
            assert(descs[q2] == descs0[q2]);
        }
    }
    assert forall|q1: int, q2: int| 0 <= q1 < q2 < descs.len() implies (
    #[trigger] descs[q1]).offset + descs[q1].len <= (#[trigger] descs[q2]).offset by {
        assert(descs[q1] == descs0[q1]);
        if q2 < descs0.len() {
            assert(descs[q2] == descs0[q2]);
        }
    }
    assert forall|q: int| 0 <= q < descs.len() implies (#[trigger] descs[q]).offset
        + descs[q].len <= d.offset + d.len by {
        if q < descs0.len() {
            assert(descs[q] == descs0[q]);
        }
    }
}

/// Appending a descriptor for a run just written at the end of the packed
/// prefix of `buf` keeps every described run held, and describes the new one.
proof fn lemma_pack_step<T: Ord>(
    buf0: Seq<Option<T>>,
    buf1: Seq<Option<T>>,
    descs0: Seq<RunDescriptor>,
    d: RunDescriptor,
    taken: Seq<T>,
)
    requires
        tiles::<T>(descs0, d.offset as nat),
        runs_held(buf0, buf0, descs0),
        d.buffer == BufferSelector::A,
        d.len == taken.len(),
        sorted(taken),
        buf1.len() == buf0.len(),
        d.offset + d.len <= buf0.len(),
        forall|q: int| 0 <= q < d.offset ==> buf1[q] == buf0[q],
        forall|q: int| 0 <= q < d.len ==> buf1[d.offset + q] == Some(taken[q]),
    ensures
        runs_held(buf1, buf1, descs0.push(d)),
        described(buf1, buf1, descs0.push(d)) == described(buf0, buf0, descs0).push(taken),
{
    let descs = descs0.push(d);
    assert forall|q: int| 0 <= q < descs0.len() implies region(buf1, buf1, #[trigger] descs0[q])
        == region(buf0, buf0, descs0[q]) by {
        reveal(tiles);
        assert(descs0[q].offset + descs0[q].len <= d.offset);
        assert(region(buf1, buf1, descs0[q]) =~= region(buf0, buf0, descs0[q]));
    }
    assert(values(region(buf1, buf1, d)) =~= taken);
    assert(described(buf1, buf1, descs) =~= described(buf0, buf0, descs0).push(taken));
    assert(run_held(buf1, buf1, d)) by {
        reveal(run_held);
        let r = region(buf1, buf1, d);
        assert(arena(buf1, buf1, d.buffer) == buf1);
        assert forall|q: int| 0 <= q < r.len() implies (#[trigger] r[q]) is Some by {
            assert(r[q] == buf1[d.offset + q]);
            assert(buf1[d.offset + q] == Some(taken[q]));
        }
    }
    assert forall|q: int| 0 <= q < descs.len() implies #[trigger] run_held(buf1, buf1, descs[q]) by {
        if q < descs0.len() {
            assert(descs[q] == descs0[q]);
            assert(run_held(buf0, buf0, descs0[q]));
            assert(region(buf1, buf1, descs0[q]) == region(buf0, buf0, descs0[q]));
            reveal(run_held);
        }
    }
}

/// Pairs each run's length with its index.
fn length_keys<T>(runs: &Vec<VecDeque<T>>) -> (keys: Vec<(usize, usize)>)
    ensures
        keys@.len() == runs@.len(),
        forall|j: int| 0 <= j < runs@.len() ==> #[trigger] keys@[j] == (runs@[j].len(), j as usize),
{
    let k = runs.len();
    let mut keys: Vec<(usize, usize)> = Vec::with_capacity(k);
    let mut i: usize = 0;
    while i < k
        invariant
            k == runs@.len(),
            i <= k,
            keys@.len() == i,
            forall|j: int| 0 <= j < i ==> #[trigger] keys@[j] == (runs@[j].len(), j as usize),
        decreases k - i,
    {
        keys.push((runs[i].len(), i));
        i = i + 1;
    }
    keys
}

/// Sorting the keys keeps each of them, so each index still occurs, and
/// nothing else does.
proof fn lemma_keys_cover(unsorted: Seq<(usize, usize)>, keys: Seq<(usize, usize)>)
    requires
        forall|j: int| 0 <= j < unsorted.len() ==> (#[trigger] unsorted[j]).1 == j,
        keys.to_multiset() == unsorted.to_multiset(),
    ensures
        keys.len() == unsorted.len(),
        forall|t: int| 0 <= t < keys.len() ==> (#[trigger] keys[t]).1 < unsorted.len(),
        forall|j: int| 0 <= j < unsorted.len() ==> keys.contains(#[trigger] unsorted[j]),
        forall|t: int| 0 <= t < keys.len() ==> #[trigger] keys[t] == unsorted[keys[t].1 as int],
        keys.no_duplicates(),
{
    broadcast use {vstd::seq_lib::group_to_multiset_ensures, vstd::multiset::group_multiset_axioms};

    vstd::seq_lib::to_multiset_len(keys);
    vstd::seq_lib::to_multiset_len(unsorted);
    assert forall|t: int| 0 <= t < keys.len() implies (#[trigger] keys[t]).1 < unsorted.len()
        && keys[t] == unsorted[keys[t].1 as int] by {
        assert(keys.contains(keys[t]));
        assert(unsorted.to_multiset().count(keys[t]) > 0);
        let j = choose|j: int| 0 <= j < unsorted.len() && unsorted[j] == keys[t];
    }
    assert(unsorted.no_duplicates()) by {
        assert forall|i: int, j: int|
            0 <= i < unsorted.len() && 0 <= j < unsorted.len() && i != j implies unsorted[i]
            != unsorted[j] by {
            assert(unsorted[i].1 == i && unsorted[j].1 == j);
        }
    }
    unsorted.lemma_multiset_has_no_duplicates();
    keys.lemma_multiset_has_no_duplicates_conv();
    assert forall|j: int| 0 <= j < unsorted.len() implies keys.contains(#[trigger] unsorted[j]) by {
        assert(unsorted.contains(unsorted[j]));
        assert(keys.to_multiset().count(unsorted[j]) > 0);
    }
}

/// Moves the elements of `run` into the slots of `buf` from `offset` on.
fn move_run_into<T>(buf: &mut Vec<Option<T>>, offset: usize, run: VecDeque<T>)
    requires
        offset + run@.len() <= old(buf)@.len(),
    ensures
        final(buf)@.len() == old(buf)@.len(),
        forall|q: int| 0 <= q < run@.len() ==> final(buf)@[offset + q] == Some(run@[q]),
        forall|q: int|
            0 <= q < offset || offset + run@.len() <= q < old(buf)@.len() ==> final(buf)@[q]
                == old(buf)@[q],
{
    let ghost taken = run@;
    let ghost buf0 = buf@;
    proof {
        assert(buf@.len() == buf.len());
    }
    let run_len = run.len();
    let mut run = run;
    let mut j: usize = 0;
    while j < run_len
        invariant
            j <= run_len,
            run_len == taken.len(),
            run@ == taken.subrange(j as int, run_len as int),
            buf@.len() == buf0.len(),
            buf0.len() <= usize::MAX,
            offset + run_len <= buf0.len(),
            forall|q: int| 0 <= q < j ==> buf@[offset + q] == Some(taken[q]),
            forall|q: int|
                0 <= q < offset || offset + j <= q < buf0.len() ==> buf@[q] == buf0[q],
        decreases run_len - j,
    {
        let x = run.pop_front().unwrap();
        buf[offset + j] = Some(x);
        j = j + 1;
    }
}

/// Moves the runs into `buf`, packed from slot 0 in ascending order of
/// length, and describes where each one went.
pub fn copy_runs_into_buf<T: Ord>(buf: &mut Vec<Option<T>>, runs: Vec<VecDeque<T>>) -> (descs: Vec<
    RunDescriptor,
>)
    requires
        forall|i: int| 0 <= i < runs@.len() ==> sorted(#[trigger] runs@[i]@),
        runs_multiset(run_contents(runs@)).len() == old(buf)@.len(),
    ensures
        final(buf)@.len() == old(buf)@.len(),
        descs@.len() == runs@.len(),
        forall|i: int, j: int| 0 <= i < j < descs@.len() ==> (#[trigger] descs@[i]).len <= (
        #[trigger] descs@[j]).len,
        runs@.len() == 1 ==> described(final(buf)@, final(buf)@, descs@) == seq![runs@[0]@],
        tiles::<T>(descs@, old(buf)@.len()),
        forall|k: int| 0 <= k < descs@.len() ==> (#[trigger] descs@[k]).buffer == BufferSelector::A,
        runs_held(final(buf)@, final(buf)@, descs@),
        runs_multiset(described(final(buf)@, final(buf)@, descs@)) == runs_multiset(
            run_contents(runs@),
        ),
{
    proof {
        assert(buf@.len() == buf.len());
    }
    let ghost n = buf@.len();
    let ghost total = runs_multiset(run_contents(runs@));
    let ghost initial_runs = runs@;
    let mut runs = runs;
    let k = runs.len();
    let mut keys = length_keys(&runs);
    let ghost unsorted = keys@;
    sort_keys(&mut keys);
    proof {
        lemma_keys_cover(unsorted, keys@);
        assert(described(buf@, buf@, Seq::<RunDescriptor>::empty()) =~= Seq::<Seq<T>>::empty());
        reveal(tiles);
    }
    let mut descs: Vec<RunDescriptor> = Vec::with_capacity(k);
    let mut offset: usize = 0;
    let mut t: usize = 0;
    while t < k
        invariant
            k == runs@.len(),
            k == keys@.len(),
            k == unsorted.len(),
            t <= k,
            buf@.len() == n,
            n <= usize::MAX,
            offset <= n,
            descs@.len() == t,
            t == 0 ==> runs@ == initial_runs,
            k == 1 && t == 1 ==> described(buf@, buf@, descs@) == seq![initial_runs[0]@],
            forall|j: int| 0 <= j < k ==> (#[trigger] keys@[j]).1 < k,
            forall|j: int| 0 <= j < k ==> (#[trigger] unsorted[j]).1 == j,
            forall|j: int| 0 <= j < k ==> keys@.contains(#[trigger] unsorted[j]),
            forall|j: int| 0 <= j < k ==> #[trigger] keys@[j] == unsorted[keys@[j].1 as int],
            forall|j: int| 0 <= j < k ==> (#[trigger] unsorted[j]).0 == initial_runs[j].len(),
            keys@.no_duplicates(),
            forall|i: int, j: int| 0 <= i < j < k ==> (#[trigger] keys@[i]).0 <= (#[trigger] keys@[j]).0,
            forall|t2: int| t <= t2 < k ==> runs@[(#[trigger] keys@[t2]).1 as int]
                == initial_runs[keys@[t2].1 as int],
            forall|t2: int| 0 <= t2 < t ==> (#[trigger] descs@[t2]).len == keys@[t2].0,
            forall|j: int| 0 <= j < k ==> sorted(#[trigger] runs@[j]@),
            forall|t2: int| 0 <= t2 < t ==> runs@[(#[trigger] keys@[t2]).1 as int]@.len() == 0,
            descs@.len() > 0 ==> descs@.last().offset + descs@.last().len == offset,
            descs@.len() == 0 ==> offset == 0,
            tiles::<T>(descs@, offset as nat),
            forall|j: int| 0 <= j < descs@.len() ==> (#[trigger] descs@[j]).buffer == BufferSelector::A,
            runs_held(buf@, buf@, descs@),
            offset + runs_multiset(run_contents(runs@)).len() == n,
            runs_multiset(described(buf@, buf@, descs@)).add(runs_multiset(run_contents(runs@)))
                == total,
        decreases k - t,
    {
        let idx = keys[t].1;
        let ghost runs0 = runs@;
        let ghost buf0 = buf@;
        let ghost descs0 = descs@;
        let mut run: VecDeque<T> = VecDeque::new();
        std::mem::swap(&mut run, &mut runs[idx]);
        let ghost taken = run@;
        let ghost rc0 = run_contents(runs0);
        let ghost rc1 = run_contents(runs@);
        let run_len = run.len();
        proof {
            broadcast use {vstd::seq_lib::group_to_multiset_ensures, vstd::multiset::group_multiset_axioms};

            assert(taken == runs0[idx as int]@);
            assert(runs0[idx as int] == initial_runs[idx as int]);
            assert(run_len == keys@[t as int].0);
            assert(runs@ == runs0.update(idx as int, runs@[idx as int]));
            assert(rc1 =~= rc0.update(idx as int, Seq::<T>::empty()));
            assert(rc0[idx as int] == taken);
            lemma_runs_multiset_update(rc0, idx as int, Seq::<T>::empty());
            assert(Seq::<T>::empty().to_multiset() =~= Multiset::<T>::empty());
            assert(runs_multiset(rc1).add(taken.to_multiset()) =~= runs_multiset(rc0));
            assert(taken.to_multiset().len() == run_len);
        }
        move_run_into(buf, offset, run);
        let d = RunDescriptor { buffer: BufferSelector::A, offset, len: run_len };
        proof {
            lemma_tiles_push::<T>(descs0, d);
            lemma_pack_step(buf0, buf@, descs0, d, taken);
        }
        descs.push(d);
        offset = offset + run_len;
        t = t + 1;
        proof {
            let dd = described(buf@, buf@, descs@);
            assert(dd.drop_last() =~= described(buf0, buf0, descs0));
            if k == 1 && t == 1 {
                assert(dd =~= seq![initial_runs[0]@]);
            }
            assert(runs_multiset(dd) == runs_multiset(described(buf0, buf0, descs0)).add(
                taken.to_multiset(),
            ));
            assert(runs_multiset(dd).add(runs_multiset(rc1)) =~= total);
            assert forall|t2: int| 0 <= t2 < t implies runs@[(#[trigger] keys@[t2]).1 as int]@.len()
                == 0 by {
                let r = keys@[t2].1 as int;
                if r != idx {
                    assert(runs@[r] == runs0[r]);
                }
            }
            assert forall|q: int| 0 <= q < k implies sorted(#[trigger] runs@[q]@) by {
                if q != idx {
                    assert(runs@[q] == runs0[q]);
                }
            }
            assert forall|t2: int| t <= t2 < k implies runs@[(#[trigger] keys@[t2]).1 as int]
                == initial_runs[keys@[t2].1 as int] by {
                assert(keys@[t2] != keys@[t - 1]);
                assert(keys@[t2].1 != idx);
            }
            assert forall|t2: int| 0 <= t2 < t implies (#[trigger] descs@[t2]).len == keys@[t2].0 by {
                if t2 < t - 1 {
                    assert(descs@[t2] == descs0[t2]);
                }
            }
        }
    }
    proof {
        assert forall|i: int, j: int| 0 <= i < j < descs@.len() implies (#[trigger] descs@[i]).len
            <= (#[trigger] descs@[j]).len by {
            assert(keys@[i].0 <= keys@[j].0);
        }
        assert forall|q: int| 0 <= q < k implies (#[trigger] run_contents(runs@)[q]).len() == 0 by {
            assert(keys@.contains(unsorted[q]));
            let t2 = choose|t2: int| 0 <= t2 < keys@.len() && keys@[t2] == unsorted[q];
            assert(runs@[(keys@[t2]).1 as int]@.len() == 0);
        }
        lemma_runs_multiset_empty(run_contents(runs@));
        assert(runs_multiset(described(buf@, buf@, descs@)) =~= total);
    }
    descs
}

/// The buffer that `sel` does not name.
pub open spec fn other(sel: BufferSelector) -> BufferSelector {
    match sel {
        BufferSelector::A => BufferSelector::B,
        BufferSelector::B => BufferSelector::A,
    }
}

/// Two neighbouring descriptors: the second starts where the first ends, and
/// both end within the buffers.
proof fn lemma_pair_bounds<T>(descs: Seq<RunDescriptor>, n: nat, c: int)
    requires
        tiles::<T>(descs, n),
        0 <= c < descs.len() - 1,
    ensures
        descs[c].offset + descs[c].len == descs[c + 1].offset,
        descs[c + 1].offset + descs[c + 1].len <= n,
{
    reveal(tiles);
    assert(descs[c].offset + descs[c].len == descs[c + 1].offset);
    assert(descs[c + 1].offset + descs[c + 1].len <= n);
}

/// Before a merge of the runs at `c` and `c + 1`: both are held in full where
/// their descriptors say.
proof fn lemma_merge_pre<T: Ord>(
    a: Seq<Option<T>>,
    b: Seq<Option<T>>,
    descs: Seq<RunDescriptor>,
    n: nat,
    c: int,
)
    requires
        tiles::<T>(descs, n),
        runs_held(a, b, descs),
        0 <= c < descs.len() - 1,
    ensures
        descs[c].offset + descs[c].len == descs[c + 1].offset,
        descs[c + 1].offset + descs[c + 1].len <= n,
        filled(region(a, b, descs[c])),
        filled(region(a, b, descs[c + 1])),
{
    lemma_pair_bounds::<T>(descs, n, c);
    assert(run_held(a, b, descs[c]));
    assert(run_held(a, b, descs[c + 1]));
    reveal(run_held);
}

/// Replacing two neighbouring descriptors by one that covers both keeps the
/// descriptors tiling `[0, n)`.
proof fn lemma_join_tiles<T>(descs: Seq<RunDescriptor>, n: nat, c: int, joined: RunDescriptor)
    requires
        tiles::<T>(descs, n),
        0 <= c < descs.len() - 1,
        joined.offset == descs[c].offset,
        joined.len == descs[c].len + descs[c + 1].len,
    ensures
        tiles::<T>(descs.update(c, joined).remove(c + 1), n),
{
    reveal(tiles);
    let after = descs.update(c, joined).remove(c + 1);
    assert forall|j: int| 0 <= j < after.len() implies after[j] == (if j < c {
        descs[j]
    } else if j == c {
        joined
    } else {
        descs[j + 1]
    }) by {}
    assert(descs[c].offset + descs[c].len == descs[c + 1].offset);
    assert forall|i: int, j: int| 0 <= i && j == i + 1 && j < after.len() implies (
    #[trigger] after[i]).offset + after[i].len == (#[trigger] after[j]).offset by {
        if i == c - 1 {
            assert(descs[i].offset + descs[i].len == descs[c].offset);
        } else if i == c {
            assert(descs[c + 1].offset + descs[c + 1].len == descs[c + 2].offset);
        } else if i < c {
            assert(descs[i].offset + descs[i].len == descs[i + 1].offset);
        } else {
            assert(descs[i + 1].offset + descs[i + 1].len == descs[i + 2].offset);
        }
    }
    assert forall|i: int, j: int| 0 <= i < j < after.len() implies (
    #[trigger] after[i]).offset + after[i].len <= (#[trigger] after[j]).offset by {
        if j == c {
            assert(descs[i].offset + descs[i].len <= descs[c].offset);
        } else if i == c {
            assert(descs[c + 1].offset + descs[c + 1].len <= descs[j + 1].offset);
        } else if j < c {
            assert(descs[i].offset + descs[i].len <= descs[j].offset);
        } else if i < c {
            assert(descs[i].offset + descs[i].len <= descs[j + 1].offset);
        } else {
            assert(descs[i + 1].offset + descs[i + 1].len <= descs[j + 1].offset);
        }
    }
    assert forall|j: int| 0 <= j < after.len() implies (#[trigger] after[j]).offset + after[j].len
        <= n by {
        if j > c {
            assert(descs[j + 1].offset + descs[j + 1].len <= n);
        } else if j < c {
            assert(descs[j].offset + descs[j].len <= n);
        } else {
            assert(descs[c + 1].offset + descs[c + 1].len <= n);
        }
    }
    if c == 0 {
        assert(after[0] == joined);
    } else {
        assert(after[0] == descs[0]);
    }
    if c == after.len() - 1 {
        assert(after.last() == joined);
        assert(descs.last() == descs[c + 1]);
    } else {
        assert(after.last() == descs.last());
    }
}

/// After the runs at `c` and `c + 1` were merged into the other buffer than
/// the one that holds the first: one descriptor for the merged run replaces
/// the two, and every run is still held and ascending.
proof fn lemma_merge_step<T: Ord>(
    a0: Seq<Option<T>>,
    b0: Seq<Option<T>>,
    a1: Seq<Option<T>>,
    b1: Seq<Option<T>>,
    descs: Seq<RunDescriptor>,
    n: nat,
    c: int,
    joined: RunDescriptor,
)
    requires
        obeys_cmp::<T>(),
        tiles::<T>(descs, n),
        runs_held(a0, b0, descs),
        0 <= c < descs.len() - 1,
        a0.len() == n,
        b0.len() == n,
        a1.len() == n,
        b1.len() == n,
        joined.buffer == other(descs[c].buffer),
        joined.offset == descs[c].offset,
        joined.len == descs[c].len + descs[c + 1].len,
        filled(region(a1, b1, joined)),
        values(region(a1, b1, joined)) == merged(
            values(region(a0, b0, descs[c])),
            values(region(a0, b0, descs[c + 1])),
        ),
        forall|k: int|
            0 <= k < joined.offset || joined.offset + joined.len <= k < n ==> a1[k] == a0[k]
                && b1[k] == b0[k],
    ensures
        tiles::<T>(descs.update(c, joined).remove(c + 1), n),
        runs_held(a1, b1, descs.update(c, joined).remove(c + 1)),
        described(a1, b1, descs.update(c, joined).remove(c + 1)) == described(
            a0,
            b0,
            descs,
        ).update(
            c,
            merged(values(region(a0, b0, descs[c])), values(region(a0, b0, descs[c + 1]))),
        ).remove(c + 1),
{
    let cur = descs[c];
    let next = descs[c + 1];
    lemma_join_tiles::<T>(descs, n, c, joined);
    let after = descs.update(c, joined).remove(c + 1);
    let m = merged(values(region(a0, b0, cur)), values(region(a0, b0, next)));
    assert forall|j: int| 0 <= j < descs.len() && j != c && j != c + 1 implies region(
        a1,
        b1,
        #[trigger] descs[j],
    ) == region(a0, b0, descs[j]) by {
        reveal(tiles);
        if j < c {
            assert(descs[j].offset + descs[j].len <= cur.offset);
        } else {
            assert(next.offset + next.len <= descs[j].offset);
            assert(descs[c].offset + descs[c].len == descs[c + 1].offset);
        }
        assert(region(a1, b1, descs[j]) =~= region(a0, b0, descs[j]));
    }
    assert forall|j: int| 0 <= j < after.len() implies after[j] == (if j < c {
        descs[j]
    } else if j == c {
        joined
    } else {
        descs[j + 1]
    }) by {}
    assert(run_held(a0, b0, cur));
    assert(run_held(a0, b0, next));
    assert(run_held(a1, b1, joined)) by {
        reveal(run_held);
        lemma_merged_sorted(values(region(a0, b0, cur)), values(region(a0, b0, next)));
    }
    assert forall|j: int| 0 <= j < after.len() implies #[trigger] run_held(a1, b1, after[j]) by {
        if j < c {
            assert(run_held(a0, b0, descs[j]));
            reveal(run_held);
        } else if j > c {
            assert(run_held(a0, b0, descs[j + 1]));
            reveal(run_held);
        }
    }
    let d0 = described(a0, b0, descs);
    assert(described(a1, b1, after) =~= d0.update(c, m).remove(c + 1));
}

/// A buffer of `n` empty slots.
pub fn empty_slots<T>(n: usize) -> (buf: Vec<Option<T>>)
    ensures
        buf@.len() == n,
        forall|k: int| 0 <= k < n ==> buf@[k] is None,
{
    let mut buf: Vec<Option<T>> = Vec::with_capacity(n);
    while buf.len() < n
        invariant
            buf@.len() <= n,
            forall|k: int| 0 <= k < buf@.len() ==> buf@[k] is None,
        decreases n - buf@.len(),
    {
        buf.push(None);
    }
    buf
}

/// Merges the ascending runs into one ascending run in `a`, the primary
/// buffer, with the help of one auxiliary buffer of the same size.
///
/// The runs are packed into `a` in order of length. Then, while more than one
/// run is left, two neighbouring runs are merged into the buffer that does
/// not hold the first of them. The pair is found by scanning forward from
/// where the last merge happened, wrapping round to the start, for the first
/// pair whose combined length does not exceed that of the first two runs;
/// the first pair always qualifies. When the second run of a pair already lies
/// in the destination buffer, the merge leaves its untouched tail in place.
/// The last run is moved back into `a` if it ends up in the auxiliary buffer.
pub fn unbalanced_ping_pong_merge<T: Ord>(a: &mut Vec<Option<T>>, runs: Vec<VecDeque<T>>)
    requires
        obeys_cmp::<T>(),
        forall|i: int| 0 <= i < runs@.len() ==> sorted(#[trigger] runs@[i]@),
        runs_multiset(run_contents(runs@)).len() == old(a)@.len(),
    ensures
        final(a)@.len() == old(a)@.len(),
        filled(final(a)@),
        sorted(values(final(a)@)),
        values(final(a)@).to_multiset() == runs_multiset(run_contents(runs@)),
        runs@.len() == 1 ==> values(final(a)@) == runs@[0]@,
{
    let len = a.len();
    let ghost given_runs = runs@;
    let ghost n = len as nat;
    let ghost total = runs_multiset(run_contents(runs@));
    let mut run_bufs = copy_runs_into_buf(a, runs);
    let mut b: Vec<Option<T>> = empty_slots(len);
    proof {
        assert(described(a@, b@, run_bufs@) =~= described(a@, a@, run_bufs@));
        assert forall|k: int| 0 <= k < run_bufs@.len() implies #[trigger] run_held(
            a@,
            b@,
            run_bufs@[k],
        ) by {
            assert(run_held(a@, a@, run_bufs@[k]));
            assert(region(a@, b@, run_bufs@[k]) == region(a@, a@, run_bufs@[k]));
            reveal(run_held);
        }
    }
    if run_bufs.len() == 0 {
        proof {
            broadcast use vstd::seq_lib::group_to_multiset_ensures;

            // no runs: no elements, so the buffer is empty
            assert(described(a@, b@, run_bufs@) =~= Seq::<Seq<T>>::empty());
            assert(total == Multiset::<T>::empty());
            assert(a@.len() == 0);
            assert(values(a@) =~= Seq::<T>::empty());
        }
        return;
    }
    let mut current: usize = 0;
    while run_bufs.len() >= 2
        invariant
            obeys_cmp::<T>(),
            a@.len() == n,
            b@.len() == n,
            len == n,
            run_bufs@.len() >= 1,
            current < run_bufs@.len(),
            tiles::<T>(run_bufs@, n),
            runs_held(a@, b@, run_bufs@),
            runs_multiset(described(a@, b@, run_bufs@)) == total,
            run_bufs@.len() <= given_runs.len(),
            given_runs.len() == 1 ==> described(a@, b@, run_bufs@) == seq![given_runs[0]@],
        decreases run_bufs@.len(),
    {
        let count = run_bufs.len();
        proof {
            lemma_pair_bounds::<T>(run_bufs@, n, 0);
        }
        let threshold = run_bufs[0].len + run_bufs[1].len;
        let mut c: usize = if current + 1 < count {
            current
        } else {
            0
        };
        proof {
            lemma_pair_bounds::<T>(run_bufs@, n, c as int);
        }
        while c != 0 && run_bufs[c].len + run_bufs[c + 1].len > threshold
            invariant
                count == run_bufs@.len(),
                count >= 2,
                c + 1 < count,
                len == n,
                tiles::<T>(run_bufs@, n),
                run_bufs@[c as int].offset + run_bufs@[c as int].len == run_bufs@[c + 1].offset,
                run_bufs@[c + 1].offset + run_bufs@[c + 1].len <= n,
            decreases (if c == 0 {
                0
            } else {
                count - c
            }),
        {
            c = if c + 2 < count {
                c + 1
            } else {
                0
            };
            proof {
                lemma_pair_bounds::<T>(run_bufs@, n, c as int);
            }
        }
        let cur = run_bufs[c];
        let next = run_bufs[c + 1];
        let ghost a0 = a@;
        let ghost b0 = b@;
        proof {
            lemma_merge_pre(a@, b@, run_bufs@, n, c as int);
        }
        let src2_in_sink = next.buffer != cur.buffer;
        let joined_len = cur.len + next.len;
        let dest = match cur.buffer {
            BufferSelector::A => {
                blind_merge(a, &mut b, cur.offset, cur.len, next.len, src2_in_sink);
                BufferSelector::B
            },
            BufferSelector::B => {
                blind_merge(&mut b, a, cur.offset, cur.len, next.len, src2_in_sink);
                BufferSelector::A
            },
        };
        let joined = RunDescriptor { buffer: dest, offset: cur.offset, len: joined_len };
        proof {
            let end = cur.offset + joined_len;
            assert(region(a@, b@, joined) =~= arena(a@, b@, dest).subrange(cur.offset as int, end));
            assert(region(a0, b0, cur) =~= arena(a0, b0, cur.buffer).subrange(
                cur.offset as int,
                cur.offset + cur.len,
            ));
            assert(region(a0, b0, next) =~= arena(a0, b0, next.buffer).subrange(
                cur.offset + cur.len,
                end,
            ));
            lemma_merge_step(a0, b0, a@, b@, run_bufs@, n, c as int, joined);
            let m = merged(values(region(a0, b0, cur)), values(region(a0, b0, next)));
            lemma_merged_multiset(values(region(a0, b0, cur)), values(region(a0, b0, next)));
            let d0 = described(a0, b0, run_bufs@);
            assert(d0[c as int] == values(region(a0, b0, cur)));
            assert(d0[c + 1] == values(region(a0, b0, next)));
            lemma_runs_multiset_join(d0, c as int, m);
        }
        let ghost descs0 = run_bufs@;
        run_bufs.remove(c + 1);
        run_bufs.set(c, joined);
        proof {
            assert(run_bufs@ =~= descs0.update(c as int, joined).remove(c + 1));
        }
        current = c;
    }
    let ghost result = values(region(a@, b@, run_bufs@[0]));
    proof {
        reveal(tiles);
        assert(run_bufs@.last() == run_bufs@[0]);
        assert(run_held(a@, b@, run_bufs@[0]));
        reveal(run_held);
        let d = run_bufs@[0];
        assert(d.offset == 0 && d.len == n);
        assert(region(a@, b@, d) =~= arena(a@, b@, d.buffer));
        let dd = described(a@, b@, run_bufs@);
        assert(dd.drop_last() =~= Seq::<Seq<T>>::empty());
        assert(dd.last() == result);
        assert(given_runs.len() == 1 ==> result == given_runs[0]@);
        broadcast use vstd::multiset::group_multiset_axioms;

        assert(runs_multiset(dd) == runs_multiset(dd.drop_last()).add(result.to_multiset()));
        assert(runs_multiset(dd.drop_last()) == Multiset::<T>::empty());
        assert(total =~= result.to_multiset());
    }
    let last = run_bufs[0];
    if last.buffer == BufferSelector::B {
        // the result lies in the auxiliary buffer: move it back
        let ghost b0 = b@;
        let mut i: usize = 0;
        while i < len
            invariant
                len == n,
                a@.len() == n,
                b@.len() == n,
                b0.len() == n,
                i <= len,
                forall|k: int| 0 <= k < i ==> a@[k] == b0[k],
                forall|k: int| i <= k < n ==> b@[k] == b0[k],
                filled(b0),
            decreases len - i,
        {
            proof {
                assert(b0[i as int] is Some);
                assert(b@[i as int] == b0[i as int]);
            }
            let x = crate::merge::take_slot(&mut b, i);
            a.set(i, Some(x));
            i = i + 1;
        }
        proof {
            assert(a@ =~= b0);
        }
    }
    proof {
        assert(values(a@) == result);
    }
}

} // verus!
