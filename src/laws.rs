use vstd::prelude::*;
use vstd::laws_cmp::obeys_cmp;
use crate::order::sorted;
use crate::merge::{merged, lemma_merged_multiset, lemma_merged_sorted};

verus! {

/// Merging two ascending sequences gives an ascending sequence of both
/// lengths together, holding the elements of both. `slice_merge` and
/// `blind_merge` both produce exactly this merge, so their results agree.
pub proof fn lemma_merge_correct<T: Ord>(a: Seq<T>, b: Seq<T>)
    requires
        obeys_cmp::<T>(),
        sorted(a),
        sorted(b),
    ensures
        sorted(merged(a, b)),
        merged(a, b).len() == a.len() + b.len(),
        merged(a, b).to_multiset() == a.to_multiset().add(b.to_multiset()),
{
    lemma_merged_sorted(a, b);
    lemma_merged_multiset(a, b);
}

} // verus!
