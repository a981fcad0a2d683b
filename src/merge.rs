use vstd::prelude::*;
use vstd::laws_cmp::obeys_cmp;
use vstd::multiset::Multiset;
use vstd::std_specs::cmp::OrdSpec;
use std::cmp::Ordering;
use std::collections::VecDeque;
use crate::order::{le, sorted, lemma_cmp_reverse, lemma_cmp_answers};

verus! {

/// The ascending merge of `a` and `b`: at each step the smaller head is taken,
/// and on a tie the head of `a` goes first.
pub open spec fn merged<T: Ord>(a: Seq<T>, b: Seq<T>) -> Seq<T>
    decreases a.len() + b.len(),
{
    if a.len() == 0 {
        b
    } else if b.len() == 0 {
        a
    } else if le(a[0], b[0]) {
        seq![a[0]] + merged(a.drop_first(), b)
    } else {
        seq![b[0]] + merged(a, b.drop_first())
    }
}

/// A merge keeps every element of both inputs, and nothing else.
pub proof fn lemma_merged_multiset<T: Ord>(a: Seq<T>, b: Seq<T>)
    ensures
        merged(a, b).len() == a.len() + b.len(),
        merged(a, b).to_multiset() == a.to_multiset().add(b.to_multiset()),
    decreases a.len() + b.len(),
{
    if a.len() == 0 {
        a.to_multiset_ensures();
        assert(a.to_multiset() =~= Multiset::empty());
        assert(b.to_multiset() =~= Multiset::empty().add(b.to_multiset()));
    } else if b.len() == 0 {
        b.to_multiset_ensures();
        assert(b.to_multiset() =~= Multiset::empty());
        assert(a.to_multiset() =~= a.to_multiset().add(Multiset::empty()));
    } else if le(a[0], b[0]) {
        lemma_merged_multiset(a.drop_first(), b);
        assert(a =~= seq![a[0]] + a.drop_first());
        vstd::seq_lib::lemma_multiset_commutative(seq![a[0]], merged(a.drop_first(), b));
        vstd::seq_lib::lemma_multiset_commutative(seq![a[0]], a.drop_first());
        assert(merged(a, b).to_multiset() =~= a.to_multiset().add(b.to_multiset()));
    } else {
        lemma_merged_multiset(a, b.drop_first());
        assert(b =~= seq![b[0]] + b.drop_first());
        vstd::seq_lib::lemma_multiset_commutative(seq![b[0]], merged(a, b.drop_first()));
        vstd::seq_lib::lemma_multiset_commutative(seq![b[0]], b.drop_first());
        assert(merged(a, b).to_multiset() =~= a.to_multiset().add(b.to_multiset()));
    }
}

/// The merge of two ascending sequences is ascending, and it starts with the
/// head of one of them.
pub proof fn lemma_merged_sorted<T: Ord>(a: Seq<T>, b: Seq<T>)
    requires
        obeys_cmp::<T>(),
        sorted(a),
        sorted(b),
    ensures
        sorted(merged(a, b)),
        merged(a, b).len() > 0 ==> (a.len() > 0 && merged(a, b)[0] == a[0]) || (b.len() > 0
            && merged(a, b)[0] == b[0]),
    decreases a.len() + b.len(),
{
    lemma_merged_multiset(a, b);
    if a.len() == 0 || b.len() == 0 {
    } else if le(a[0], b[0]) {
        let rest = merged(a.drop_first(), b);
        lemma_merged_sorted(a.drop_first(), b);
        lemma_merged_multiset(a.drop_first(), b);
        assert(sorted(a.drop_first()));
        if rest.len() > 0 {
            if a.len() > 1 && rest[0] == a.drop_first()[0] {
                assert(le(a[0], a[1]));
            }
        }
        assert(sorted(merged(a, b))) by {
            let m = merged(a, b);
            assert(m =~= seq![a[0]] + rest);
            assert forall|i: int| 0 <= i < m.len() - 1 implies le(#[trigger] m[i], m[i + 1]) by {
                if i > 0 {
                    assert(m[i] == rest[i - 1]);
                    assert(m[i + 1] == rest[i]);
                }
            }
        }
    } else {
        let rest = merged(a, b.drop_first());
        lemma_merged_sorted(a, b.drop_first());
        lemma_merged_multiset(a, b.drop_first());
        lemma_cmp_reverse(a[0], b[0]);
        assert(sorted(b.drop_first()));
        if rest.len() > 0 {
            if b.len() > 1 && rest[0] == b.drop_first()[0] {
                assert(le(b[0], b[1]));
            }
        }
        assert(sorted(merged(a, b))) by {
            let m = merged(a, b);
            assert(m =~= seq![b[0]] + rest);
            assert forall|i: int| 0 <= i < m.len() - 1 implies le(#[trigger] m[i], m[i + 1]) by {
                if i > 0 {
                    assert(m[i] == rest[i - 1]);
                    assert(m[i + 1] == rest[i]);
                }
            }
        }
    }
}

/// One step of a merge: what it emits next, and what is left to merge.
proof fn lemma_merged_step<T: Ord>(a: Seq<T>, b: Seq<T>, i1: int, i2: int)
    requires
        0 <= i1 <= a.len(),
        0 <= i2 <= b.len(),
        i1 < a.len() || i2 < b.len(),
    ensures
        ({
            let rest = merged(a.subrange(i1, a.len() as int), b.subrange(i2, b.len() as int));
            if i1 < a.len() && (i2 == b.len() || le(a[i1], b[i2])) {
                rest == seq![a[i1]] + merged(
                    a.subrange(i1 + 1, a.len() as int),
                    b.subrange(i2, b.len() as int),
                )
            } else {
                rest == seq![b[i2]] + merged(
                    a.subrange(i1, a.len() as int),
                    b.subrange(i2 + 1, b.len() as int),
                )
            }
        }),
{
    let sa = a.subrange(i1, a.len() as int);
    let sb = b.subrange(i2, b.len() as int);
    if i1 < a.len() {
        assert(sa.drop_first() =~= a.subrange(i1 + 1, a.len() as int));
    }
    if i2 < b.len() {
        assert(sb.drop_first() =~= b.subrange(i2 + 1, b.len() as int));
    }
    if i1 == a.len() {
        assert(sb =~= seq![b[i2]] + sb.drop_first());
        assert(sa.len() == 0);
    } else if i2 == b.len() {
        assert(sa =~= seq![a[i1]] + sa.drop_first());
        assert(sb.len() == 0);
        assert(merged(sa.drop_first(), sb) == sa.drop_first());
    }
}


/// Merges the ascending slices `src1` and `src2` into `sink`, which is as long
/// as both together. The three slices are disjoint; on a tie the element of
/// `src1` goes first.
pub fn slice_merge<T: Ord + Copy>(src1: &[T], src2: &[T], sink: &mut [T])
    requires
        obeys_cmp::<T>(),
        old(sink)@.len() == src1@.len() + src2@.len(),
    ensures
        final(sink)@ == merged(src1@, src2@),
{
    let src1_len = src1.len();
    let src2_len = src2.len();
    let sink_len = sink.len();
    let ghost m = merged(src1@, src2@);
    proof {
        lemma_cmp_answers::<T>();
        lemma_merged_multiset(src1@, src2@);
        assert(src1@.subrange(0, src1@.len() as int) =~= src1@);
        assert(src2@.subrange(0, src2@.len() as int) =~= src2@);
    }
    let mut index1: usize = 0;
    let mut index2: usize = 0;
    while index1 + index2 < sink_len
        invariant
            obeys_cmp::<T>(),
            T::obeys_cmp_spec(),
            src1_len == src1@.len(),
            src2_len == src2@.len(),
            sink_len == sink@.len(),
            sink_len == src1_len + src2_len,
            m == merged(src1@, src2@),
            m.len() == sink_len,
            index1 <= src1_len,
            index2 <= src2_len,
            forall|k: int| 0 <= k < index1 + index2 ==> sink@[k] == m[k],
            merged(src1@.subrange(index1 as int, src1_len as int), src2@.subrange(index2 as int, src2_len as int))
                == m.subrange(index1 + index2, m.len() as int),
        decreases sink_len - index1 - index2,
    {
        let i = index1 + index2;
        proof {
            lemma_merged_step(src1@, src2@, index1 as int, index2 as int);
            let rest = m.subrange(i as int, m.len() as int);
            assert(rest[0] == m[i as int]);
            assert(rest.drop_first() =~= m.subrange(i + 1, m.len() as int));
        }
        if index1 == src1_len {
            // src1 is exhausted: the rest comes from src2
            sink[i] = src2[index2];
            index2 = index2 + 1;
        } else if index2 == src2_len {
            // src2 is exhausted: the rest comes from src1
            sink[i] = src1[index1];
            index1 = index1 + 1;
        } else {
            match src1[index1].cmp(&src2[index2]) {
                Ordering::Greater => {
                    sink[i] = src2[index2];
                    index2 = index2 + 1;
                },
                _ => {
                    sink[i] = src1[index1];
                    index1 = index1 + 1;
                },
            }
        }
    }
    assert(sink@ =~= m);
}

/// Every slot of `s` holds an element.
pub open spec fn filled<T>(s: Seq<Option<T>>) -> bool {
    forall|k: int| 0 <= k < s.len() ==> (#[trigger] s[k]) is Some
}

/// The elements held in the slots of `s`, in order.
pub open spec fn values<T>(s: Seq<Option<T>>) -> Seq<T> {
    s.map_values(|o: Option<T>| o->0)
}

/// Moves the element out of slot `k`, leaving the slot empty.
pub(crate) fn take_slot<T>(v: &mut Vec<Option<T>>, k: usize) -> (r: T)
    requires
        k < old(v)@.len(),
        old(v)@[k as int] is Some,
    ensures
        Some(r) == old(v)@[k as int],
        final(v)@ == old(v)@.update(k as int, None),
{
    let slot = v[k].take();
    slot.unwrap()
}

/// Borrows the element held in slot `k`.
fn slot_ref<T>(v: &Vec<Option<T>>, k: usize) -> (r: &T)
    requires
        k < v@.len(),
        v@[k as int] is Some,
    ensures
        Some(*r) == v@[k as int],
{
    v[k].as_ref().unwrap()
}

/// Merges two ascending regions into the region of `sink` that starts at
/// `offset`; on a tie the element of the first region goes first.
///
/// The first region is `src[offset .. offset + src1_len]`. The second follows
/// it at `offset + src1_len`, in `src` or, when `src2_in_sink`, in `sink`: it is
/// then the tail of the destination region. Once the first region runs out,
/// what is left of the second already stands where it belongs, and the merge
/// stops without moving it.
///
/// No slot outside the two regions changes; the slots of `src` inside them
/// are left with nothing promised of their contents.
pub fn blind_merge<T: Ord>(
    src: &mut Vec<Option<T>>,
    sink: &mut Vec<Option<T>>,
    offset: usize,
    src1_len: usize,
    src2_len: usize,
    src2_in_sink: bool,
)
    requires
        obeys_cmp::<T>(),
        offset + src1_len + src2_len <= old(src)@.len(),
        offset + src1_len + src2_len <= old(sink)@.len(),
        filled(old(src)@.subrange(offset as int, offset + src1_len)),
        filled(
            (if src2_in_sink { old(sink)@ } else { old(src)@ }).subrange(
                offset + src1_len,
                offset + src1_len + src2_len,
            ),
        ),
    ensures
        final(src)@.len() == old(src)@.len(),
        final(sink)@.len() == old(sink)@.len(),
        filled(final(sink)@.subrange(offset as int, offset + src1_len + src2_len)),
        values(final(sink)@.subrange(offset as int, offset + src1_len + src2_len)) == merged(
            values(old(src)@.subrange(offset as int, offset + src1_len)),
            values(
                (if src2_in_sink { old(sink)@ } else { old(src)@ }).subrange(
                    offset + src1_len,
                    offset + src1_len + src2_len,
                ),
            ),
        ),
        forall|k: int|
            0 <= k < offset || offset + src1_len + src2_len <= k < old(sink)@.len()
                ==> final(sink)@[k] == old(sink)@[k],
        forall|k: int|
            0 <= k < offset || offset + src1_len + src2_len <= k < old(src)@.len()
                ==> final(src)@[k] == old(src)@[k],
{
    let ghost src0 = src@;
    let ghost sink0 = sink@;
    let ghost arena2 = if src2_in_sink { sink0 } else { src0 };
    let ghost a = values(src0.subrange(offset as int, offset + src1_len));
    let ghost b = values(arena2.subrange(offset + src1_len, offset + src1_len + src2_len));
    let ghost m = merged(a, b);
    proof {
        // the regions lie within a buffer, whose length is a usize
        assert(src@.len() == src.len());
    }
    let start2 = offset + src1_len;
    let end = start2 + src2_len;
    proof {
        lemma_cmp_answers::<T>();
        lemma_merged_multiset(a, b);
        assert(a.subrange(0, a.len() as int) =~= a);
        assert(b.subrange(0, b.len() as int) =~= b);
    }
    let mut idx1: usize = 0;
    let mut idx2: usize = 0;
    while idx1 < src1_len && idx2 < src2_len
        invariant
            T::obeys_cmp_spec(),
            start2 == offset + src1_len,
            end == start2 + src2_len,
            end <= src0.len(),
            end <= sink0.len(),
            src@.len() == src0.len(),
            sink@.len() == sink0.len(),
            arena2 == if src2_in_sink { sink0 } else { src0 },
            a == values(src0.subrange(offset as int, start2 as int)),
            b == values(arena2.subrange(start2 as int, end as int)),
            m == merged(a, b),
            m.len() == src1_len + src2_len,
            a.len() == src1_len,
            b.len() == src2_len,
            filled(src0.subrange(offset as int, start2 as int)),
            filled(arena2.subrange(start2 as int, end as int)),
            idx1 <= src1_len,
            idx2 <= src2_len,
            forall|k: int| offset + idx1 <= k < start2 ==> src@[k] == src0[k],
            forall|k: int|
                start2 + idx2 <= k < end ==> (if src2_in_sink { sink@ } else { src@ })[k]
                    == arena2[k],
            forall|k: int| 0 <= k < idx1 + idx2 ==> sink@[offset + k] == Some(m[k]),
            forall|k: int|
                0 <= k < offset || end <= k < sink0.len() ==> sink@[k] == sink0[k],
            forall|k: int| 0 <= k < offset || end <= k < src0.len() ==> src@[k] == src0[k],
            merged(a.subrange(idx1 as int, a.len() as int), b.subrange(idx2 as int, b.len() as int))
                == m.subrange(idx1 + idx2, m.len() as int),
        decreases src1_len + src2_len - idx1 - idx2,
    {
        let i = idx1 + idx2;
        proof {
            lemma_merged_step(a, b, idx1 as int, idx2 as int);
            let rest = m.subrange(i as int, m.len() as int);
            assert(rest[0] == m[i as int]);
            assert(rest.drop_first() =~= m.subrange(i + 1, m.len() as int));
            assert(src0.subrange(offset as int, start2 as int)[idx1 as int] == src0[offset + idx1]);
            assert(arena2.subrange(start2 as int, end as int)[idx2 as int] == arena2[start2 + idx2]);
        }
        let ord = if src2_in_sink {
            slot_ref(src, offset + idx1).cmp(slot_ref(sink, start2 + idx2))
        } else {
            slot_ref(src, offset + idx1).cmp(slot_ref(src, start2 + idx2))
        };
        match ord {
            Ordering::Greater => {
                let x = if src2_in_sink {
                    take_slot(sink, start2 + idx2)
                } else {
                    take_slot(src, start2 + idx2)
                };
                sink[offset + i] = Some(x);
                idx2 = idx2 + 1;
            },
            _ => {
                let x = take_slot(src, offset + idx1);
                sink[offset + i] = Some(x);
                idx1 = idx1 + 1;
            },
        }
    }
    if idx1 < src1_len {
        // the second region is exhausted: move what is left of the first
        while idx1 < src1_len
            invariant
                start2 == offset + src1_len,
                end == start2 + src2_len,
                end <= src0.len(),
                end <= sink0.len(),
                src@.len() == src0.len(),
                sink@.len() == sink0.len(),
                a == values(src0.subrange(offset as int, start2 as int)),
                b == values(arena2.subrange(start2 as int, end as int)),
                m.len() == src1_len + src2_len,
                a.len() == src1_len,
                b.len() == src2_len,
            a.len() == src1_len,
            b.len() == src2_len,
                filled(src0.subrange(offset as int, start2 as int)),
                idx1 <= src1_len,
                idx2 == src2_len,
                forall|k: int| offset + idx1 <= k < start2 ==> src@[k] == src0[k],
                forall|k: int| 0 <= k < idx1 + idx2 ==> sink@[offset + k] == Some(m[k]),
                forall|k: int|
                    0 <= k < offset || end <= k < sink0.len() ==> sink@[k] == sink0[k],
                forall|k: int| 0 <= k < offset || end <= k < src0.len() ==> src@[k] == src0[k],
                merged(a.subrange(idx1 as int, a.len() as int), b.subrange(idx2 as int, b.len() as int))
                    == m.subrange(idx1 + idx2, m.len() as int),
            decreases src1_len - idx1,
        {
            let i = idx1 + idx2;
            proof {
                lemma_merged_step(a, b, idx1 as int, idx2 as int);
                let rest = m.subrange(i as int, m.len() as int);
                assert(rest[0] == m[i as int]);
                assert(rest.drop_first() =~= m.subrange(i + 1, m.len() as int));
                assert(src0.subrange(offset as int, start2 as int)[idx1 as int] == src0[offset + idx1]);
            }
            let x = take_slot(src, offset + idx1);
            sink[offset + i] = Some(x);
            idx1 = idx1 + 1;
        }
    } else if src2_in_sink && start2 + idx2 == offset + idx1 + idx2 {
        // the first region is exhausted and the rest of the second already
        // stands at its destination: nothing to move
        proof {
            let rest = b.subrange(idx2 as int, b.len() as int);
            assert(a.subrange(idx1 as int, a.len() as int).len() == 0);
            assert forall|k: int| idx1 + idx2 <= k < m.len() implies sink@[offset + k] == Some(m[k]) by {
                assert(m.subrange(idx1 + idx2, m.len() as int)[k - idx1 - idx2] == m[k]);
                assert(rest[k - idx1 - idx2] == b[k - idx1]);
                assert(arena2.subrange(start2 as int, end as int)[k - idx1] == arena2[offset + k]);
            }
        }
    } else {
        // the first region is exhausted: move what is left of the second
        while idx2 < src2_len
            invariant
                !src2_in_sink,
                start2 == offset + src1_len,
                end == start2 + src2_len,
                end <= src0.len(),
                end <= sink0.len(),
                src@.len() == src0.len(),
                sink@.len() == sink0.len(),
                arena2 == src0,
                a == values(src0.subrange(offset as int, start2 as int)),
                b == values(arena2.subrange(start2 as int, end as int)),
                m.len() == src1_len + src2_len,
                a.len() == src1_len,
                b.len() == src2_len,
            a.len() == src1_len,
            b.len() == src2_len,
                filled(arena2.subrange(start2 as int, end as int)),
                idx1 == src1_len,
                idx2 <= src2_len,
                forall|k: int| start2 + idx2 <= k < end ==> src@[k] == arena2[k],
                forall|k: int| 0 <= k < idx1 + idx2 ==> sink@[offset + k] == Some(m[k]),
                forall|k: int|
                    0 <= k < offset || end <= k < sink0.len() ==> sink@[k] == sink0[k],
                forall|k: int| 0 <= k < offset || end <= k < src0.len() ==> src@[k] == src0[k],
                merged(a.subrange(idx1 as int, a.len() as int), b.subrange(idx2 as int, b.len() as int))
                    == m.subrange(idx1 + idx2, m.len() as int),
            decreases src2_len - idx2,
        {
            let i = idx1 + idx2;
            proof {
                lemma_merged_step(a, b, idx1 as int, idx2 as int);
                let rest = m.subrange(i as int, m.len() as int);
                assert(rest[0] == m[i as int]);
                assert(rest.drop_first() =~= m.subrange(i + 1, m.len() as int));
                assert(arena2.subrange(start2 as int, end as int)[idx2 as int] == arena2[start2 + idx2]);
            }
            let x = take_slot(src, start2 + idx2);
            sink[offset + i] = Some(x);
            idx2 = idx2 + 1;
        }
    }
    proof {
        let out = sink@.subrange(offset as int, end as int);
        assert forall|k: int| 0 <= k < out.len() implies out[k] == Some(m[k]) by {
            assert(out[k] == sink@[offset + k]);
        }
        assert(values(out) =~= m);
    }
}

/// Which of two sources a merge takes its next element from.
#[derive(Clone, Copy, PartialEq, Eq, Structural, Debug)]
pub enum IteratorSelector {
    A,
    B,
}

/// Picks the source of the next merged element from the heads of two
/// sources: the one that is not exhausted, or `B` only when its head is
/// smaller than that of `A`.
pub fn get_next<T: Ord>(a: Option<&T>, b: Option<&T>) -> (r: IteratorSelector)
    requires
        obeys_cmp::<T>(),
    ensures
        a is None ==> r == IteratorSelector::B,
        a is Some && b is None ==> r == IteratorSelector::A,
        a is Some && b is Some ==> (r == IteratorSelector::B <==> !le(*a->0, *b->0)),
{
    proof {
        lemma_cmp_answers::<T>();
    }
    match (a, b) {
        (None, _) => IteratorSelector::B,
        (_, None) => IteratorSelector::A,
        (Some(a_next), Some(b_next)) => match a_next.cmp(b_next) {
            Ordering::Greater => IteratorSelector::B,
            _ => IteratorSelector::A,
        },
    }
}

/// Hands out the elements of two ascending sources in merged order.
pub struct MergingIterator<T> {
    a: VecDeque<T>,
    b: VecDeque<T>,
}

impl<T: Ord> MergingIterator<T> {
    /// The elements still to come, in the order they will come.
    pub closed spec fn pending(&self) -> Seq<T> {
        merged(self.a@, self.b@)
    }

    pub fn new(a: VecDeque<T>, b: VecDeque<T>) -> (r: Self)
        ensures
            r.pending() == merged(a@, b@),
    {
        MergingIterator { a, b }
    }

    /// The next element of the merge, if any is left.
    pub fn next(&mut self) -> (r: Option<T>)
        requires
            obeys_cmp::<T>(),
        ensures
            old(self).pending().len() == 0 ==> r is None
                && final(self).pending() == old(self).pending(),
            old(self).pending().len() > 0 ==> r == Some(old(self).pending()[0])
                && final(self).pending() == old(self).pending().drop_first(),
    {
        proof {
            lemma_merged_multiset(self.a@, self.b@);
        }
        let head_a = if self.a.len() > 0 {
            Some(&self.a[0])
        } else {
            None
        };
        let head_b = if self.b.len() > 0 {
            Some(&self.b[0])
        } else {
            None
        };
        let ghost a0 = self.a@;
        let ghost b0 = self.b@;
        match get_next(head_a, head_b) {
            IteratorSelector::A => {
                let r = self.a.pop_front();
                proof {
                    if a0.len() > 0 {
                        assert(self.a@ =~= a0.drop_first());
                        if b0.len() == 0 {
                            assert(merged(a0, b0) == a0);
                            assert(merged(self.a@, b0) == self.a@);
                        }
                        assert(merged(a0, b0) =~= seq![a0[0]] + merged(self.a@, b0));
                    }
                }
                r
            },
            IteratorSelector::B => {
                let r = self.b.pop_front();
                proof {
                    if b0.len() > 0 {
                        assert(self.b@ =~= b0.drop_first());
                        if a0.len() == 0 {
                            assert(merged(a0, b0) == b0);
                            assert(merged(a0, self.b@) == self.b@);
                        }
                        assert(merged(a0, b0) =~= seq![b0[0]] + merged(a0, self.b@));
                    }
                }
                r
            },
        }
    }

    /// Bounds on how many elements are left: exact, unless the count does
    /// not fit in a `usize`.
    pub fn size_hint(&self) -> (r: (usize, Option<usize>))
        ensures
            r.0 == (if self.pending().len() <= usize::MAX {
                self.pending().len()
            } else {
                usize::MAX as nat
            }),
            r.1 == (if self.pending().len() <= usize::MAX {
                Some(self.pending().len() as usize)
            } else {
                None
            }),
    {
        proof {
            lemma_merged_multiset(self.a@, self.b@);
        }
        let lower = self.a.len().saturating_add(self.b.len());
        let upper = self.a.len().checked_add(self.b.len());
        (lower, upper)
    }
}

} // verus!
