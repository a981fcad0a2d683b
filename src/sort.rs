use vstd::prelude::*;
use vstd::laws_cmp::obeys_cmp;
use crate::order::sorted;
use crate::merge::{filled, values, take_slot};
use crate::runs::{generate_runs, run_contents};
use crate::schedule::{empty_slots, unbalanced_ping_pong_merge};

verus! {

/// Sorts `slice` in place into ascending order: it splits the elements into
/// ascending runs, then merges the runs between the slice's own storage and
/// one auxiliary buffer of the same size.
pub fn patience_sort<T: Ord>(slice: &mut Vec<T>)
    requires
        obeys_cmp::<T>(),
    ensures
        final(slice)@.len() == old(slice)@.len(),
        final(slice)@.to_multiset() == old(slice)@.to_multiset(),
        sorted(final(slice)@),
        sorted(old(slice)@) ==> final(slice)@ == old(slice)@,
{
    let len = slice.len();
    if len <= 1 {
        return;
    }
    let mut input: Vec<T> = Vec::new();
    std::mem::swap(&mut input, slice);
    let runs = generate_runs(input);
    let mut primary: Vec<Option<T>> = empty_slots(len);
    proof {
        vstd::seq_lib::to_multiset_len(input@);
        assert forall|i: int| 0 <= i < runs@.len() implies sorted(#[trigger] runs@[i]@) by {
            assert(run_contents(runs@)[i] == runs@[i]@);
        }
    }
    unbalanced_ping_pong_merge(&mut primary, runs);
    let ghost result = primary@;
    let mut i: usize = 0;
    while i < len
        invariant
            i <= len,
            primary@.len() == len,
            result.len() == len,
            filled(result),
            slice@ == values(result).subrange(0, i as int),
            forall|k: int| i <= k < len ==> primary@[k] == result[k],
        decreases len - i,
    {
        proof {
            assert(result[i as int] is Some);
        }
        let x = take_slot(&mut primary, i);
        slice.push(x);
        i = i + 1;
        proof {
            assert(slice@ =~= values(result).subrange(0, i as int));
        }
    }
    proof {
        assert(slice@ =~= values(result));
        vstd::seq_lib::to_multiset_len(slice@);
    }
}

} // verus!
