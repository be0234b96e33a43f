//! What the sorts have in common: their results are determined by the input.
use vstd::prelude::*;
use crate::order::{le, equiv, total_order, lemma_total_order};
use crate::perm::{permutes, sorted, class, same_classes, lemma_class_push};

verus! {

/// Two values compare equal only when they are the same value, as with the
/// integer types.
pub open spec fn equal_keys_identical<T: Ord>() -> bool {
    forall|x: T, y: T| #[trigger] equiv(x, y) ==> x == y
}

/// Where values compare equal only when identical, there is one sorted
/// rearrangement of any input: every sort of this library (both
/// quicksorts, mergesort, heapsort, timsort, counting sort and radix sort)
/// returns the same result for the same input.
pub proof fn lemma_sorts_agree<T: Ord>(input: Seq<T>, a: Seq<T>, b: Seq<T>)
    requires
        total_order::<T>(),
        equal_keys_identical::<T>(),
        sorted(a),
        permutes(a, input),
        sorted(b),
        permutes(b, input),
    ensures
        a == b,
{
    lemma_total_order::<T>();
    let leq = |x: T, y: T| le(x, y);
    assert(vstd::relations::total_ordering(leq)) by {
        assert forall|x: T, y: T| #[trigger] leq(x, y) && #[trigger] leq(y, x) implies x == y by {
            assert(equiv(x, y));
        }
        assert forall|x: T, y: T| #[trigger] leq(x, y) || #[trigger] leq(y, x) by {
            if !leq(x, y) {
                assert(!le(y, x) ==> false);
            }
        }
    }
    assert(vstd::relations::sorted_by(a, leq));
    assert(vstd::relations::sorted_by(b, leq));
    vstd::seq_lib::lemma_sorted_unique(a, b, leq);
}

/// There is one stable sorted rearrangement of any input: mergesort and
/// timsort return the same vector for the same input, whatever `T` is.
pub proof fn lemma_stable_sorts_agree<T: Ord>(input: Seq<T>, a: Seq<T>, b: Seq<T>)
    requires
        total_order::<T>(),
        sorted(a),
        same_classes(a, input),
        sorted(b),
        same_classes(b, input),
    ensures
        a == b,
{
    assert forall|x: T| #[trigger] class(a, x) == class(b, x) by {
        assert(class(a, x) == class(input, x));
        assert(class(b, x) == class(input, x));
    }
    lemma_stable_unique(a, b);
}

/// A stable sort leaves an input that is already sorted as it is.
pub proof fn lemma_stable_sort_keeps_sorted<T: Ord>(input: Seq<T>, a: Seq<T>)
    requires
        total_order::<T>(),
        sorted(input),
        sorted(a),
        same_classes(a, input),
    ensures
        a == input,
{
    lemma_stable_sorts_agree(input, a, input);
}

/// Where values compare equal only when identical, the class of `x` is
/// `x` repeated as often as it occurs.
pub proof fn lemma_class_is_copies<T: Ord>(s: Seq<T>, x: T)
    requires
        total_order::<T>(),
        equal_keys_identical::<T>(),
    ensures
        class(s, x) == Seq::new(s.to_multiset().count(x), |i: int| x),
    decreases s.len(),
{
    broadcast use vstd::seq_lib::group_to_multiset_ensures;
    lemma_total_order::<T>();
    if s.len() == 0 {
        reveal(Seq::filter);
        assert(s.to_multiset().len() == 0);
        assert(class(s, x) =~= Seq::new(s.to_multiset().count(x), |i: int| x));
    } else {
        let t = s.drop_last();
        let e = s.last();
        assert(s =~= t.push(e));
        lemma_class_is_copies(t, x);
        lemma_class_push(t, e, x);
        assert(equiv(x, x));
        if equiv(e, x) {
            assert(e == x);
        }
        assert(class(s, x) =~= Seq::new(s.to_multiset().count(x), |i: int| x));
    }
}

/// Where values compare equal only when identical, every rearrangement is
/// stable.
pub proof fn lemma_identical_keys_stable<T: Ord>(a: Seq<T>, b: Seq<T>)
    requires
        total_order::<T>(),
        equal_keys_identical::<T>(),
        permutes(a, b),
    ensures
        same_classes(a, b),
{
    assert forall|x: T| #[trigger] class(a, x) == class(b, x) by {
        lemma_class_is_copies(a, x);
        lemma_class_is_copies(b, x);
    }
}

/// An element of a class is an element of the sequence.
proof fn lemma_class_member<T: Ord>(s: Seq<T>, x: T, i: int)
    requires
        0 <= i < class(s, x).len(),
    ensures
        s.contains(class(s, x)[i]),
        equiv(class(s, x)[i], x),
{
    let p = |y: T| equiv(y, x);
    s.lemma_filter_pred(p, i);
    s.lemma_filter_contains_rev(p, class(s, x)[i]);
}

proof fn lemma_stable_unique<T: Ord>(a: Seq<T>, b: Seq<T>)
    requires
        total_order::<T>(),
        sorted(a),
        sorted(b),
        forall|x: T| #[trigger] class(a, x) == class(b, x),
    ensures
        a == b,
    decreases a.len() + b.len(),
{
    lemma_total_order::<T>();
    if a.len() == 0 && b.len() == 0 {
        assert(a =~= b);
    } else if a.len() == 0 || b.len() == 0 {
        // The last element of the longer one has a nonempty class.
        let (s, t) = if a.len() == 0 { (b, a) } else { (a, b) };
        let x = s.last();
        assert(s =~= s.drop_last().push(x));
        lemma_class_push(s.drop_last(), x, x);
        assert(class(s, x).len() > 0);
        assert(t =~= Seq::<T>::empty());
        assert(class(t, x) =~= Seq::<T>::empty()) by {
            reveal(Seq::filter);
        }
    } else {
        let x = a.last();
        let y = b.last();
        let (a1, b1) = (a.drop_last(), b.drop_last());
        assert(a =~= a1.push(x));
        assert(b =~= b1.push(y));
        lemma_class_push(a1, x, x);
        lemma_class_push(b1, y, y);
        // `x` occurs in `b`, so it is at or below `b`'s last element, and
        // symmetrically.
        let cx = class(a, x);
        assert(cx[cx.len() - 1] == x);
        lemma_class_member(b, x, cx.len() - 1);
        let kx = choose|k: int| 0 <= k < b.len() && b[k] == x;
        if kx < b.len() - 1 {
            assert(le(b[kx], b[b.len() - 1]));
        }
        let cy = class(b, y);
        assert(cy[cy.len() - 1] == y);
        lemma_class_member(a, y, cy.len() - 1);
        let ky = choose|k: int| 0 <= k < a.len() && a[k] == y;
        if ky < a.len() - 1 {
            assert(le(a[ky], a[a.len() - 1]));
        }
        assert(equiv(y, x));
        lemma_class_push(b1, y, x);
        assert(class(b, x) == class(b1, x).push(y));
        assert(x == y);
        assert forall|z: T| #[trigger] class(a1, z) == class(b1, z) by {
            lemma_class_push(a1, x, z);
            lemma_class_push(b1, x, z);
            if equiv(x, z) {
                assert(class(a1, z) =~= class(a, z).drop_last());
                assert(class(b1, z) =~= class(b, z).drop_last());
            }
        }
        assert forall|i: int, j: int| 0 <= i < j < a1.len() implies le(#[trigger] a1[i], #[trigger] a1[j]) by {
            assert(a1[i] == a[i] && a1[j] == a[j]);
        }
        assert forall|i: int, j: int| 0 <= i < j < b1.len() implies le(#[trigger] b1[i], #[trigger] b1[j]) by {
            assert(b1[i] == b[i] && b1[j] == b[j]);
        }
        lemma_stable_unique(a1, b1);
    }
}

} // verus!
