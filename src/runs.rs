use vstd::prelude::*;
use vstd::laws_cmp::obeys_cmp;
use vstd::multiset::Multiset;
use vstd::std_specs::cmp::OrdSpec;
use std::cmp::Ordering;
use std::collections::VecDeque;
use crate::order::{le, sorted, lemma_cmp_answers, lemma_cmp_reverse, lemma_le_trans};
use crate::search::{bsearch, monotone};

verus! {

/// The contents of each run, in order.
pub open spec fn run_contents<T>(runs: Seq<VecDeque<T>>) -> Seq<Seq<T>> {
    runs.map_values(|run: VecDeque<T>| run@)
}

/// All elements held by a sequence of runs, counted with repetition.
pub open spec fn runs_multiset<T>(runs: Seq<Seq<T>>) -> Multiset<T>
    decreases runs.len(),
{
    if runs.len() == 0 {
        Multiset::empty()
    } else {
        runs_multiset(runs.drop_last()).add(runs.last().to_multiset())
    }
}

/// Adding one element to one run adds it to the elements of all runs.
pub proof fn lemma_runs_multiset_grow<T>(runs: Seq<Seq<T>>, i: int, run: Seq<T>, e: T)
    requires
        0 <= i < runs.len(),
        run.to_multiset() == runs[i].to_multiset().insert(e),
    ensures
        runs_multiset(runs.update(i, run)) == runs_multiset(runs).insert(e),
    decreases runs.len(),
{
    let updated = runs.update(i, run);
    if i == runs.len() - 1 {
        assert(updated.drop_last() =~= runs.drop_last());
        assert(runs_multiset(updated) =~= runs_multiset(runs).insert(e));
    } else {
        lemma_runs_multiset_grow(runs.drop_last(), i, run, e);
        assert(updated.drop_last() =~= runs.drop_last().update(i, run));
        assert(runs_multiset(updated) =~= runs_multiset(runs).insert(e));
    }
}

/// The runs a builder keeps: each non-empty and ascending, their heads
/// ascending and their tails descending along the collection.
pub open spec fn runs_ordered<T: Ord>(runs: Seq<Seq<T>>) -> bool {
    &&& forall|i: int| 0 <= i < runs.len() ==> (#[trigger] runs[i]).len() > 0
    &&& forall|i: int| 0 <= i < runs.len() ==> sorted(#[trigger] runs[i])
    &&& forall|i: int, j: int|
        0 <= i < j < runs.len() ==> le((#[trigger] runs[i]).first(), (#[trigger] runs[j]).first())
    &&& forall|i: int, j: int|
        0 <= i < j < runs.len() ==> le((#[trigger] runs[j]).last(), (#[trigger] runs[i]).last())
}

/// The integer square root: the largest `r` with `r * r <= size`.
pub fn sqrt(size: usize) -> (r: usize)
    ensures
        r * r <= size,
        size < (r + 1) * (r + 1),
{
    let mut lo: u128 = 0;
    let mut hi: u128 = if (size as u128) < 0x1_0000_0000 {
        size as u128 + 1
    } else {
        0x1_0000_0001
    };
    proof {
        assert(hi * hi > size) by (nonlinear_arith)
            requires
                hi == size + 1 || (hi == 0x1_0000_0001 && size <= 0xffff_ffff_ffff_ffff),
        ;
    }
    while hi - lo > 1
        invariant
            lo < hi <= 0x1_0000_0001,
            lo * lo <= size,
            size < hi * hi,
        decreases hi - lo,
    {
        let mid = lo + (hi - lo) / 2;
        proof {
            assert(mid * mid <= 0x1_0000_0001 * 0x1_0000_0001) by (nonlinear_arith)
                requires
                    mid < 0x1_0000_0001,
            ;
        }
        if mid * mid <= size as u128 {
            lo = mid;
        } else {
            hi = mid;
        }
    }
    proof {
        assert(lo <= size) by (nonlinear_arith)
            requires
                lo * lo <= size,
        ;
    }
    lo as usize
}

/// Splits `input` into ascending runs, taking its elements in order. Each
/// element goes at the tail of the first run whose tail is not greater than
/// it; failing that, at the head of the first run whose head is not less than
/// it; failing that, it starts a new run at the end of the collection.
pub fn generate_runs<T: Ord>(input: Vec<T>) -> (runs: Vec<VecDeque<T>>)
    requires
        obeys_cmp::<T>(),
    ensures
        runs@.len() <= input@.len(),
        runs_ordered(run_contents(runs@)),
        runs_multiset(run_contents(runs@)) == input@.to_multiset(),
        sorted(input@) && input@.len() > 0 ==> runs@.len() == 1 && runs@[0]@ == input@,
{
    let n = input.len();
    let mut size = sqrt(n);
    let extra = sqrt(size);
    proof {
        assert(size + extra <= usize::MAX) by (nonlinear_arith)
            requires
                size * size <= n,
                extra * extra <= size,
                n <= usize::MAX,
        ;
    }
    size = size + extra;
    let size_step = if n == 0 { 0 } else { size / n };
    // the elements, last one first, so that popping yields them in order
    let mut source = input;
    let mut pending: Vec<T> = Vec::new();
    while source.len() > 0
        invariant
            n == input@.len(),
            source@ == input@.subrange(0, source@.len() as int),
            pending@.len() + source@.len() == n,
            forall|t: int| 0 <= t < pending@.len() ==> pending@[t] == input@[n - 1 - t],
        decreases source@.len(),
    {
        let e = source.pop().unwrap();
        pending.push(e);
    }
    proof {
        lemma_cmp_answers::<T>();
    }
    let mut runs: Vec<VecDeque<T>> = Vec::with_capacity(size);
    proof {
        assert(run_contents(runs@) =~= Seq::<Seq<T>>::empty());
        assert(input@.subrange(0, 0) =~= Seq::<T>::empty());
        assert(Seq::<T>::empty().to_multiset() =~= Multiset::empty()) by {
            vstd::seq_lib::to_multiset_len(Seq::<T>::empty());
        }
    }
    while pending.len() > 0
        invariant
            obeys_cmp::<T>(),
            T::obeys_cmp_spec(),
            n == input@.len(),
            pending@.len() <= n,
            forall|t: int| 0 <= t < pending@.len() ==> pending@[t] == input@[n - 1 - t],
            runs@.len() <= n - pending@.len(),
            runs_ordered(run_contents(runs@)),
            runs_multiset(run_contents(runs@)) == input@.subrange(
                0,
                n - pending@.len(),
            ).to_multiset(),
            sorted(input@) && pending@.len() == n ==> runs@.len() == 0,
            sorted(input@) && pending@.len() < n ==> runs@.len() == 1 && runs@[0]@
                == input@.subrange(0, n - pending@.len()),
        decreases pending@.len(),
    {
        let ghost done = n - pending@.len();
        let e = pending.pop().unwrap();
        let ghost rs = run_contents(runs@);
        proof {
            assert(e == input@[done]);
            assert(input@.subrange(0, done + 1) =~= input@.subrange(0, done).push(e));
            input@.subrange(0, done).to_multiset_ensures();
        }
        let ghost tail_key = |run: VecDeque<T>| e.cmp_spec(&run@.last());
        proof {
            assert forall|i: int| 0 <= i < runs@.len() implies (#[trigger] runs@[i])@.len() > 0 by {
                assert(rs[i] == runs@[i]@);
            }
            assert forall|i: int, j: int|
                0 <= i <= j < runs@.len() && tail_key(#[trigger] runs@[i]) != Ordering::Less
                    implies tail_key(#[trigger] runs@[j]) != Ordering::Less by {
                assert(rs[i] == runs@[i]@ && rs[j] == runs@[j]@);
                lemma_cmp_reverse(e, rs[i].last());
                lemma_cmp_reverse(e, rs[j].last());
                if i < j {
                    lemma_le_trans(rs[j].last(), rs[i].last(), e);
                }
            }
        }
        let tail_pred = |run: &VecDeque<T>| -> (o: Ordering)
            requires
                run@.len() > 0,
                obeys_cmp::<T>(),
            ensures
                o == tail_key(*run),
            {
                proof {
                    lemma_cmp_answers::<T>();
                }
                e.cmp(&run[run.len() - 1])
            };
        let tail_index = bsearch(runs.as_slice(), tail_pred, Ghost(tail_key));
        proof {
            if sorted(input@) && done > 0 {
                assert(le(input@[done - 1], input@[done]));
                assert(runs@[0]@.last() == input@[done - 1]);
                lemma_cmp_reverse(e, input@[done - 1]);
                assert(tail_key(runs@[0]) != Ordering::Less);
            }
        }
        if tail_index < runs.len() {
            let ghost old_run = rs[tail_index as int];
            runs[tail_index].push_back(e);
            proof {
                let nrs = run_contents(runs@);
                assert(nrs =~= rs.update(tail_index as int, old_run.push(e)));
                lemma_cmp_reverse(e, old_run.last());
                assert(le(old_run.last(), e));
                assert(old_run.push(e).to_multiset() =~= old_run.to_multiset().insert(e)) by {
                    old_run.to_multiset_ensures();
                }
                lemma_runs_multiset_grow(rs, tail_index as int, old_run.push(e), e);
                if sorted(input@) {
                    assert(input@.subrange(0, done + 1) =~= old_run.push(e));
                }
                assert forall|i: int| 0 <= i < nrs.len() implies sorted(#[trigger] nrs[i]) by {
                    if i == tail_index {
                        assert(sorted(old_run));
                        assert forall|k: int| 0 <= k < nrs[i].len() - 1 implies le(
                            #[trigger] nrs[i][k],
                            nrs[i][k + 1],
                        ) by {
                            if k < old_run.len() - 1 {
                                assert(nrs[i][k] == old_run[k]);
                                assert(nrs[i][k + 1] == old_run[k + 1]);
                            }
                        }
                    }
                }
                assert forall|i: int, j: int| 0 <= i < j < nrs.len() implies le(
                    (#[trigger] nrs[j]).last(),
                    (#[trigger] nrs[i]).last(),
                ) by {
                    if j == tail_index {
                        assert(tail_key(runs@[i]) == Ordering::Less);
                        assert(rs[i] == runs@[i]@);
                    } else if i == tail_index {
                        lemma_le_trans(rs[j].last(), old_run.last(), e);
                    }
                }
                assert forall|i: int, j: int| 0 <= i < j < nrs.len() implies le(
                    (#[trigger] nrs[i]).first(),
                    (#[trigger] nrs[j]).first(),
                ) by {
                    assert(rs[i].first() == nrs[i].first());
                    assert(rs[j].first() == nrs[j].first());
                }
            }
        } else {
            let ghost head_key = |run: VecDeque<T>| run@.first().cmp_spec(&e);
            proof {
                assert forall|i: int, j: int|
                    0 <= i <= j < runs@.len() && head_key(#[trigger] runs@[i]) != Ordering::Less
                        implies head_key(#[trigger] runs@[j]) != Ordering::Less by {
                    assert(rs[i] == runs@[i]@ && rs[j] == runs@[j]@);
                    lemma_cmp_reverse(rs[i].first(), e);
                    lemma_cmp_reverse(rs[j].first(), e);
                    if i < j {
                        lemma_le_trans(e, rs[i].first(), rs[j].first());
                    }
                }
            }
            let head_pred = |run: &VecDeque<T>| -> (o: Ordering)
                requires
                    run@.len() > 0,
                    obeys_cmp::<T>(),
                ensures
                    o == head_key(*run),
                {
                    proof {
                        lemma_cmp_answers::<T>();
                    }
                    run[0].cmp(&e)
                };
            let head_index = bsearch(runs.as_slice(), head_pred, Ghost(head_key));
            if head_index < runs.len() {
                let ghost old_run = rs[head_index as int];
                runs[head_index].push_front(e);
                proof {
                    let nrs = run_contents(runs@);
                    let new_run = seq![e] + old_run;
                    assert(nrs =~= rs.update(head_index as int, new_run));
                    lemma_cmp_reverse(old_run.first(), e);
                    assert(le(e, old_run.first()));
                    assert(new_run.to_multiset() =~= old_run.to_multiset().insert(e)) by {
                        vstd::seq_lib::lemma_multiset_commutative(seq![e], old_run);
                        seq![e].to_multiset_ensures();
                        Seq::<T>::empty().to_multiset_ensures();
                        assert(seq![e] =~= Seq::<T>::empty().push(e));
                    }
                    lemma_runs_multiset_grow(rs, head_index as int, new_run, e);
                    assert forall|i: int| 0 <= i < nrs.len() implies sorted(#[trigger] nrs[i]) by {
                        if i == head_index {
                            assert(sorted(old_run));
                            assert forall|k: int| 0 <= k < nrs[i].len() - 1 implies le(
                                #[trigger] nrs[i][k],
                                nrs[i][k + 1],
                            ) by {
                                if k > 0 {
                                    assert(nrs[i][k] == old_run[k - 1]);
                                    assert(nrs[i][k + 1] == old_run[k]);
                                }
                            }
                        }
                    }
                    assert forall|i: int, j: int| 0 <= i < j < nrs.len() implies le(
                        (#[trigger] nrs[i]).first(),
                        (#[trigger] nrs[j]).first(),
                    ) by {
                        if j == head_index {
                            assert(head_key(runs@[i]) == Ordering::Less);
                            assert(rs[i] == runs@[i]@);
                        } else if i == head_index {
                            lemma_le_trans(e, old_run.first(), rs[j].first());
                        }
                    }
                    assert forall|i: int, j: int| 0 <= i < j < nrs.len() implies le(
                        (#[trigger] nrs[j]).last(),
                        (#[trigger] nrs[i]).last(),
                    ) by {
                        assert(rs[i].last() == nrs[i].last());
                        assert(rs[j].last() == nrs[j].last());
                    }
                }
            } else {
                let mut run = VecDeque::with_capacity(size);
                run.push_back(e);
                runs.push(run);
                size = size.saturating_sub(size_step);
                proof {
                    let nrs = run_contents(runs@);
                    assert(nrs =~= rs.push(seq![e]));
                    if sorted(input@) {
                        assert(input@.subrange(0, done + 1) =~= seq![e]);
                    }
                    assert(nrs.drop_last() =~= rs);
                    assert(seq![e].to_multiset() =~= Multiset::empty().insert(e)) by {
                        seq![e].to_multiset_ensures();
                        Seq::<T>::empty().to_multiset_ensures();
                        assert(seq![e] =~= Seq::<T>::empty().push(e));
                    }
                    assert forall|i: int| 0 <= i < rs.len() implies le(e, #[trigger] rs[i].last())
                        && le(rs[i].first(), e) by {
                        assert(tail_key(runs@[i]) == Ordering::Less);
                        assert(head_key(runs@[i]) == Ordering::Less);
                        assert(rs[i] == runs@[i]@);
                    }
                    assert forall|i: int| 0 <= i < nrs.len() implies sorted(#[trigger] nrs[i]) by {
                        if i < rs.len() {
                            assert(nrs[i] == rs[i]);
                        }
                    }
                    assert forall|i: int, j: int| 0 <= i < j < nrs.len() implies le(
                        (#[trigger] nrs[i]).first(),
                        (#[trigger] nrs[j]).first(),
                    ) && le(nrs[j].last(), nrs[i].last()) by {
                        assert(nrs[i] == rs[i]);
                        if j < rs.len() {
                            assert(nrs[j] == rs[j]);
                        }
                    }
                }
            }
        }
    }
    proof {
        assert(input@.subrange(0, n as int) =~= input@);
    }
    runs
}

} // verus!
