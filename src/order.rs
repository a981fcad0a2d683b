use vstd::prelude::*;
use vstd::laws_cmp::obeys_cmp;
use std::cmp::Ordering;
use vstd::std_specs::cmp::{OrdSpec, PartialEqSpec, PartialOrdSpec};

verus! {

/// `a` may stand before `b` in an ascending sequence: comparing them does not
/// answer `Greater`.
pub open spec fn le<T: Ord>(a: T, b: T) -> bool {
    a.cmp_spec(&b) != Ordering::Greater
}

/// Every adjacent pair of `s` is in order.
pub open spec fn sorted<T: Ord>(s: Seq<T>) -> bool {
    forall|i: int, j: int| 0 <= i && j == i + 1 && j < s.len() ==> le(#[trigger] s[i], #[trigger] s[j])
}

/// Comparing `a` with `b` answers the reverse of comparing `b` with `a`.
pub proof fn lemma_cmp_reverse<T: Ord>(a: T, b: T)
    requires
        obeys_cmp::<T>(),
    ensures
        a.cmp_spec(&b) == Ordering::Less <==> b.cmp_spec(&a) == Ordering::Greater,
        a.cmp_spec(&b) == Ordering::Equal <==> b.cmp_spec(&a) == Ordering::Equal,
        le(a, b) || le(b, a),
{
    reveal(vstd::laws_cmp::obeys_partial_cmp_spec_properties);
    reveal(vstd::laws_cmp::obeys_cmp_ord);
    reveal(vstd::laws_cmp::obeys_cmp_partial_ord);
    assert(a.partial_cmp_spec(&b) == Some(a.cmp_spec(&b)));
    assert(b.partial_cmp_spec(&a) == Some(b.cmp_spec(&a)));
}

/// Under the laws of a total order, `cmp` answers as `cmp_spec` says.
pub proof fn lemma_cmp_answers<T: Ord>()
    requires
        obeys_cmp::<T>(),
    ensures
        T::obeys_cmp_spec(),
{
    reveal(vstd::laws_cmp::obeys_cmp_ord);
}

/// The order is transitive.
pub proof fn lemma_le_trans<T: Ord>(a: T, b: T, c: T)
    requires
        obeys_cmp::<T>(),
        le(a, b),
        le(b, c),
    ensures
        le(a, c),
{
    reveal(vstd::laws_cmp::obeys_partial_cmp_spec_properties);
    reveal(vstd::laws_cmp::obeys_cmp_ord);
    reveal(vstd::laws_cmp::obeys_cmp_partial_ord);
    reveal(vstd::laws_eq::obeys_eq_spec_properties);
    lemma_cmp_reverse(a, b);
    lemma_cmp_reverse(b, c);
    lemma_cmp_reverse(a, c);
    assert(a.partial_cmp_spec(&b) == Some(a.cmp_spec(&b)));
    assert(b.partial_cmp_spec(&c) == Some(b.cmp_spec(&c)));
    assert(a.partial_cmp_spec(&c) == Some(a.cmp_spec(&c)));
    assert(c.partial_cmp_spec(&a) == Some(c.cmp_spec(&a)));
    assert(b.partial_cmp_spec(&a) == Some(b.cmp_spec(&a)));
    assert(c.partial_cmp_spec(&b) == Some(c.cmp_spec(&b)));
    if a.cmp_spec(&c) == Ordering::Greater {
        // then c < a; combine with a <= b <= c to reach a contradiction
        if a.cmp_spec(&b) == Ordering::Less {
            if b.cmp_spec(&c) == Ordering::Less {
                assert(a.partial_cmp_spec(&c) == Some(Ordering::Less));
            } else {
                assert(b.eq_spec(&c));
                assert(c.eq_spec(&b));
                assert(c.partial_cmp_spec(&b) == Some(Ordering::Less));
            }
        } else {
            assert(a.eq_spec(&b));
            if b.cmp_spec(&c) == Ordering::Less {
                assert(b.partial_cmp_spec(&a) == Some(Ordering::Less));
            } else {
                assert(b.eq_spec(&c));
                assert(a.eq_spec(&c));
            }
        }
    }
}

} // verus!
