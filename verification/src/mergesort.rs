//! Top-down mergesort, stable, into a new vector.
use vstd::prelude::*;
use crate::order::{le, lt, equiv, total_order, is_le, lemma_total_order};
use crate::perm::{
    permutes, sorted, class, same_classes, clone_faithful, lemma_class_add, lemma_class_push,
    lemma_class_empty, lemma_same_classes_add, lemma_sorted_short,
};

verus! {

/// A new vector holding clones of the slice's elements.
pub(crate) fn clone_to_vec<T: Clone>(s: &[T]) -> (r: Vec<T>)
    requires
        clone_faithful::<T>(),
    ensures
        r@ == s@,
{
    let mut r: Vec<T> = Vec::with_capacity(s.len());
    let mut k: usize = 0;
    while k < s.len()
        invariant
            clone_faithful::<T>(),
            k <= s@.len(),
            r@ == s@.take(k as int),
        decreases s@.len() - k,
    {
        r.push(s[k].clone());
        k += 1;
        proof {
            assert(r@ =~= s@.take(k as int));
        }
    }
    proof {
        assert(s@.take(s@.len() as int) =~= s@);
    }
    r
}

/// Mergesort — stable, O(n log n) sorting.
///
/// Returns a new sorted vector. Preserves relative order of equal elements.
///
/// The result is stated over the input's values, which the sort copies
/// with `clone`; `clone_faithful` asks that a clone equal its original. A
/// verified caller can show this only for element types whose `clone` vstd
/// specifies (the integer types, `bool`, `char`), not for tuples or types
/// with a derived `Clone`.
pub fn mergesort<T: Clone + Ord>(arr: &[T]) -> (r: Vec<T>)
    requires
        total_order::<T>(),
        clone_faithful::<T>(),
    ensures
        sorted(r@),
        permutes(r@, arr@),
        same_classes(r@, arr@),
    decreases arr@.len(),
{
    if arr.len() <= 1 {
        proof {
            lemma_sorted_short(arr@);
        }
        return clone_to_vec(arr);
    }
    let mid = arr.len() / 2;
    let left = mergesort(vstd::slice::slice_subrange(arr, 0, mid));
    let right = mergesort(vstd::slice::slice_subrange(arr, mid, arr.len()));
    proof {
        left@.to_multiset_ensures();
        right@.to_multiset_ensures();
        arr@.subrange(0, mid as int).to_multiset_ensures();
        arr@.subrange(mid as int, arr@.len() as int).to_multiset_ensures();
    }
    let r = merge(left.as_slice(), right.as_slice());
    proof {
        let (a, b) = (arr@.subrange(0, mid as int), arr@.subrange(mid as int, arr@.len() as int));
        assert(arr@ =~= a + b);
        vstd::seq_lib::lemma_multiset_commutative(left@, right@);
        vstd::seq_lib::lemma_multiset_commutative(a, b);
        lemma_same_classes_add(left@, right@, a, b);
    }
    r
}

/// Merge two sorted slices into one sorted vector; where elements compare
/// equal, those of `left` come first.
pub(crate) fn merge<T: Clone + Ord>(left: &[T], right: &[T]) -> (r: Vec<T>)
    requires
        total_order::<T>(),
        clone_faithful::<T>(),
        sorted(left@),
        sorted(right@),
        left@.len() + right@.len() <= usize::MAX,
    ensures
        sorted(r@),
        permutes(r@, left@ + right@),
        same_classes(r@, left@ + right@),
{
    let mut result: Vec<T> = Vec::with_capacity(left.len() + right.len());
    let mut i: usize = 0;
    let mut j: usize = 0;
    let ghost l = left@;
    let ghost rt = right@;
    proof {
        lemma_total_order::<T>();
        assert(l.take(0) + rt.take(0) =~= Seq::<T>::empty());
    }
    while i < left.len() && j < right.len()
        invariant
            total_order::<T>(),
            clone_faithful::<T>(),
            l == left@,
            rt == right@,
            sorted(l),
            sorted(rt),
            i <= l.len(),
            j <= rt.len(),
            result@.len() == i + j,
            sorted(result@),
            permutes(result@, l.take(i as int) + rt.take(j as int)),
            forall|x: T| #[trigger] class(result@, x) == class(l.take(i as int), x) + class(
                rt.take(j as int),
                x,
            ),
            forall|k: int, m: int| 0 <= k < j && i <= m < l.len() ==> lt(#[trigger] rt[k], #[trigger] l[m]),
            forall|k: int| 0 <= k < result@.len() && i < l.len() ==> le(#[trigger] result@[k], l[i as int]),
            forall|k: int| 0 <= k < result@.len() && j < rt.len() ==> le(#[trigger] result@[k], rt[j as int]),
        decreases l.len() + rt.len() - i - j,
    {
        proof {
            lemma_total_order::<T>();
        }
        if is_le(&left[i], &right[j]) {
            let ghost prev = result@;
            let e = left[i].clone();
            result.push(e);
            proof {
                merge_step_left(l, rt, prev, i as int, j as int);
            }
            i += 1;
        } else {
            let ghost prev = result@;
            let e = right[j].clone();
            result.push(e);
            proof {
                merge_step_right(l, rt, prev, i as int, j as int);
            }
            j += 1;
        }
    }
    while i < left.len()
        invariant
            total_order::<T>(),
            clone_faithful::<T>(),
            l == left@,
            rt == right@,
            sorted(l),
            sorted(rt),
            i <= l.len(),
            j <= rt.len(),
            i < l.len() ==> j == rt.len(),
            result@.len() == i + j,
            sorted(result@),
            permutes(result@, l.take(i as int) + rt.take(j as int)),
            forall|x: T| #[trigger] class(result@, x) == class(l.take(i as int), x) + class(
                rt.take(j as int),
                x,
            ),
            forall|k: int, m: int| 0 <= k < j && i <= m < l.len() ==> lt(#[trigger] rt[k], #[trigger] l[m]),
            forall|k: int| 0 <= k < result@.len() && i < l.len() ==> le(#[trigger] result@[k], l[i as int]),
            forall|k: int| 0 <= k < result@.len() && j < rt.len() ==> le(#[trigger] result@[k], rt[j as int]),
        decreases l.len() - i,
    {
        let ghost prev = result@;
        let e = left[i].clone();
        result.push(e);
        proof {
            merge_step_left(l, rt, prev, i as int, j as int);
        }
        i += 1;
    }
    while j < right.len()
        invariant
            total_order::<T>(),
            clone_faithful::<T>(),
            l == left@,
            rt == right@,
            sorted(l),
            sorted(rt),
            i == l.len(),
            j <= rt.len(),
            result@.len() == i + j,
            sorted(result@),
            permutes(result@, l.take(i as int) + rt.take(j as int)),
            forall|x: T| #[trigger] class(result@, x) == class(l.take(i as int), x) + class(
                rt.take(j as int),
                x,
            ),
            forall|k: int, m: int| 0 <= k < j && i <= m < l.len() ==> lt(#[trigger] rt[k], #[trigger] l[m]),
            forall|k: int| 0 <= k < result@.len() && j < rt.len() ==> le(#[trigger] result@[k], rt[j as int]),
        decreases rt.len() - j,
    {
        let ghost prev = result@;
        let e = right[j].clone();
        result.push(e);
        proof {
            merge_step_right(l, rt, prev, i as int, j as int);
        }
        j += 1;
    }
    proof {
        assert(l.take(l.len() as int) =~= l);
        assert(rt.take(rt.len() as int) =~= rt);
        assert forall|x: T| #[trigger] class(result@, x) == class(l + rt, x) by {
            lemma_class_add(l, rt, x);
        }
    }
    result
}

/// The merge invariant survives taking `l[i]` next, when it is at or
/// below `rt[j]` (or `rt` is used up).
proof fn merge_step_left<T: Ord>(l: Seq<T>, rt: Seq<T>, prev: Seq<T>, i: int, j: int)
    requires
        total_order::<T>(),
        sorted(l),
        sorted(rt),
        0 <= i < l.len(),
        0 <= j <= rt.len(),
        j < rt.len() ==> le(l[i], rt[j]),
        sorted(prev),
        permutes(prev, l.take(i) + rt.take(j)),
        forall|x: T| #[trigger] class(prev, x) == class(l.take(i), x) + class(rt.take(j), x),
        forall|k: int, m: int| 0 <= k < j && i <= m < l.len() ==> lt(#[trigger] rt[k], #[trigger] l[m]),
        forall|k: int| 0 <= k < prev.len() ==> le(#[trigger] prev[k], l[i]),
        forall|k: int| 0 <= k < prev.len() && j < rt.len() ==> le(#[trigger] prev[k], rt[j]),
    ensures
        sorted(prev.push(l[i])),
        permutes(prev.push(l[i]), l.take(i + 1) + rt.take(j)),
        forall|x: T| #[trigger] class(prev.push(l[i]), x) == class(l.take(i + 1), x) + class(rt.take(j), x),
        forall|k: int| 0 <= k < prev.len() + 1 && i + 1 < l.len() ==> le(#[trigger] prev.push(l[i])[k], l[i + 1]),
        forall|k: int| 0 <= k < prev.len() + 1 && j < rt.len() ==> le(#[trigger] prev.push(l[i])[k], rt[j]),
{
    lemma_total_order::<T>();
    broadcast use vstd::seq_lib::group_to_multiset_ensures;
    let e = l[i];
    let next = prev.push(e);
    assert(l.take(i + 1) =~= l.take(i).push(e));
    vstd::seq_lib::lemma_multiset_commutative(l.take(i), rt.take(j));
    vstd::seq_lib::lemma_multiset_commutative(l.take(i + 1), rt.take(j));
    assert(next.to_multiset() =~= (l.take(i + 1) + rt.take(j)).to_multiset()) by {
        broadcast use vstd::multiset::group_multiset_axioms;
    }
    assert forall|x: T| #[trigger] class(next, x) == class(l.take(i + 1), x) + class(rt.take(j), x) by {
        lemma_class_push(prev, e, x);
        lemma_class_push(l.take(i), e, x);
        if equiv(e, x) {
            assert forall|k: int| 0 <= k < rt.take(j).len() implies !equiv(#[trigger] rt.take(j)[k], x) by {
                assert(rt.take(j)[k] == rt[k]);
                assert(lt(rt[k], l[i]));
                assert(le(e, x));
            }
            lemma_class_empty(rt.take(j), x);
            assert(class(l.take(i), x).push(e) + Seq::<T>::empty() =~= class(l.take(i), x) + Seq::<T>::empty().push(e));
        }
    }
    assert forall|k: int| 0 <= k < next.len() && i + 1 < l.len() implies le(#[trigger] next[k], l[i + 1]) by {
        assert(le(l[i], l[i + 1]));
    }
}

/// The merge invariant survives taking `rt[j]` next, when it is below
/// `l[i]` (or `l` is used up).
proof fn merge_step_right<T: Ord>(l: Seq<T>, rt: Seq<T>, prev: Seq<T>, i: int, j: int)
    requires
        total_order::<T>(),
        sorted(l),
        sorted(rt),
        0 <= i <= l.len(),
        0 <= j < rt.len(),
        i < l.len() ==> lt(rt[j], l[i]),
        sorted(prev),
        permutes(prev, l.take(i) + rt.take(j)),
        forall|x: T| #[trigger] class(prev, x) == class(l.take(i), x) + class(rt.take(j), x),
        forall|k: int, m: int| 0 <= k < j && i <= m < l.len() ==> lt(#[trigger] rt[k], #[trigger] l[m]),
        forall|k: int| 0 <= k < prev.len() && i < l.len() ==> le(#[trigger] prev[k], l[i]),
        forall|k: int| 0 <= k < prev.len() ==> le(#[trigger] prev[k], rt[j]),
    ensures
        sorted(prev.push(rt[j])),
        permutes(prev.push(rt[j]), l.take(i) + rt.take(j + 1)),
        forall|x: T| #[trigger] class(prev.push(rt[j]), x) == class(l.take(i), x) + class(rt.take(j + 1), x),
        forall|k: int, m: int| 0 <= k < j + 1 && i <= m < l.len() ==> lt(#[trigger] rt[k], #[trigger] l[m]),
        forall|k: int| 0 <= k < prev.len() + 1 && i < l.len() ==> le(#[trigger] prev.push(rt[j])[k], l[i]),
        forall|k: int| 0 <= k < prev.len() + 1 && j + 1 < rt.len() ==> le(#[trigger] prev.push(rt[j])[k], rt[j + 1]),
{
    lemma_total_order::<T>();
    broadcast use vstd::seq_lib::group_to_multiset_ensures;
    let e = rt[j];
    let next = prev.push(e);
    assert(rt.take(j + 1) =~= rt.take(j).push(e));
    assert(l.take(i) + rt.take(j + 1) =~= (l.take(i) + rt.take(j)).push(e));
    assert forall|x: T| #[trigger] class(next, x) == class(l.take(i), x) + class(rt.take(j + 1), x) by {
        lemma_class_push(prev, e, x);
        lemma_class_push(rt.take(j), e, x);
        assert(class(l.take(i), x) + class(rt.take(j), x).push(e) =~= (class(l.take(i), x) + class(rt.take(j), x)).push(e));
    }
    assert forall|k: int, m: int| 0 <= k < j + 1 && i <= m < l.len() implies lt(#[trigger] rt[k], #[trigger] l[m]) by {
        if k == j {
            assert(le(l[i], l[m]));
        }
    }
    assert forall|k: int| 0 <= k < next.len() && j + 1 < rt.len() implies le(#[trigger] next[k], rt[j + 1]) by {
        assert(le(rt[j], rt[j + 1]));
    }
}

} // verus!
