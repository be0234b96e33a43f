//! Sortedness and permutations of sequences, and the lemmas the sorts share.
use vstd::prelude::*;
use crate::order::{le, lt, equiv, total_order, lemma_total_order};

verus! {

/// Every element is at or below every later one.
pub open spec fn sorted<T: Ord>(s: Seq<T>) -> bool {
    forall|i: int, j: int| 0 <= i < j < s.len() ==> le(#[trigger] s[i], #[trigger] s[j])
}

/// `s` holds the same elements as `t`, each as many times.
pub open spec fn permutes<T>(s: Seq<T>, t: Seq<T>) -> bool {
    s.to_multiset() == t.to_multiset()
}

/// What `<[T]>::swap` makes of a sequence.
pub open spec fn swapped<T>(s: Seq<T>, i: int, j: int) -> Seq<T> {
    s.update(i, s[j]).update(j, s[i])
}

/// `<[T]>::swap` exchanges the two elements; it panics on an index out of
/// bounds, so both are required to be in bounds.
pub assume_specification<A>[ <[A]>::swap ](s: &mut [A], a: usize, b: usize)
    requires
        a < old(s)@.len(),
        b < old(s)@.len(),
    ensures
        final(s)@ == swapped(old(s)@, a as int, b as int),
;

/// Swapping keeps the multiset of the whole sequence and of any range that
/// holds both positions.
pub proof fn lemma_swap_permutes<T>(s: Seq<T>, i: int, j: int, lo: int, hi: int)
    requires
        0 <= lo <= i < hi <= s.len(),
        lo <= j < hi,
    ensures
        permutes(swapped(s, i, j), s),
        permutes(swapped(s, i, j).subrange(lo, hi), s.subrange(lo, hi)),
{
    broadcast use vstd::seq_lib::group_to_multiset_ensures;
    let t = swapped(s, i, j);
    assert(t.to_multiset() =~= s.to_multiset());
    let sub = s.subrange(lo, hi);
    assert(t.subrange(lo, hi) =~= swapped(sub, i - lo, j - lo));
    assert(swapped(sub, i - lo, j - lo).to_multiset() =~= sub.to_multiset());
}

} // verus!

verus! {

/// `s` and `t` have one length and agree outside positions `lo..hi`.
pub open spec fn same_outside<T>(s: Seq<T>, t: Seq<T>, lo: int, hi: int) -> bool {
    &&& s.len() == t.len()
    &&& forall|k: int| 0 <= k < s.len() && !(lo <= k < hi) ==> #[trigger] s[k] == t[k]
}

/// Every element of the range `lo..mid` is at or below every element of
/// the range `mid..hi`.
pub open spec fn split_at<T: Ord>(s: Seq<T>, lo: int, mid: int, hi: int) -> bool {
    forall|k: int, m: int| lo <= k < mid <= m < hi ==> le(#[trigger] s[k], #[trigger] s[m])
}

/// An element of a permutation is an element of the original.
pub proof fn lemma_permutes_index<T>(s: Seq<T>, t: Seq<T>, i: int) -> (j: int)
    requires
        permutes(s, t),
        0 <= i < s.len(),
    ensures
        0 <= j < t.len(),
        t[j] == s[i],
{
    broadcast use vstd::seq_lib::group_to_multiset_ensures;
    assert(s.contains(s[i]));
    assert(t.to_multiset().count(s[i]) > 0);
    assert(t.contains(s[i]));
    choose|j: int| 0 <= j < t.len() && t[j] == s[i]
}

/// Permuting a range within a larger range permutes the larger range.
pub proof fn lemma_permutes_within<T>(s: Seq<T>, t: Seq<T>, lo: int, a: int, b: int, hi: int)
    requires
        0 <= lo <= a <= b <= hi <= s.len(),
        same_outside(s, t, a, b),
        permutes(t.subrange(a, b), s.subrange(a, b)),
    ensures
        permutes(t.subrange(lo, hi), s.subrange(lo, hi)),
{
    broadcast use vstd::seq_lib::lemma_multiset_commutative;
    assert(t.subrange(lo, hi) =~= t.subrange(lo, a) + t.subrange(a, b) + t.subrange(b, hi));
    assert(s.subrange(lo, hi) =~= s.subrange(lo, a) + s.subrange(a, b) + s.subrange(b, hi));
    assert(t.subrange(lo, a) =~= s.subrange(lo, a));
    assert(t.subrange(b, hi) =~= s.subrange(b, hi));
}

/// Permuting a range of a sequence permutes the whole sequence.
pub proof fn lemma_permutes_whole<T>(s: Seq<T>, t: Seq<T>, a: int, b: int)
    requires
        0 <= a <= b <= s.len(),
        same_outside(s, t, a, b),
        permutes(t.subrange(a, b), s.subrange(a, b)),
    ensures
        permutes(t, s),
{
    lemma_permutes_within(s, t, 0, a, b, s.len() as int);
    assert(t.subrange(0, t.len() as int) =~= t);
    assert(s.subrange(0, s.len() as int) =~= s);
}

/// Permuting the two sides of a split separately keeps the split.
pub proof fn lemma_split_permuted<T: Ord>(s: Seq<T>, t: Seq<T>, lo: int, mid: int, hi: int)
    requires
        0 <= lo <= mid <= hi <= s.len() == t.len(),
        split_at(s, lo, mid, hi),
        permutes(t.subrange(lo, mid), s.subrange(lo, mid)),
        permutes(t.subrange(mid, hi), s.subrange(mid, hi)),
    ensures
        split_at(t, lo, mid, hi),
{
    assert forall|k: int, m: int| lo <= k < mid <= m < hi implies le(
        #[trigger] t[k],
        #[trigger] t[m],
    ) by {
        let k1 = lemma_permutes_index(t.subrange(lo, mid), s.subrange(lo, mid), k - lo);
        let m1 = lemma_permutes_index(t.subrange(mid, hi), s.subrange(mid, hi), m - mid);
        assert(s[lo + k1] == t[k]);
        assert(s[mid + m1] == t[m]);
    }
}

/// Two sorted ranges with a split between them make one sorted range.
pub proof fn lemma_sorted_join<T: Ord>(s: Seq<T>, lo: int, mid: int, hi: int)
    requires
        0 <= lo <= mid <= hi <= s.len(),
        sorted(s.subrange(lo, mid)),
        sorted(s.subrange(mid, hi)),
        split_at(s, lo, mid, hi),
    ensures
        sorted(s.subrange(lo, hi)),
{
    let r = s.subrange(lo, hi);
    assert forall|i: int, j: int| 0 <= i < j < r.len() implies le(#[trigger] r[i], #[trigger] r[j]) by {
        if j < mid - lo {
            assert(s.subrange(lo, mid)[i] == r[i]);
            assert(s.subrange(lo, mid)[j] == r[j]);
        } else if i >= mid - lo {
            assert(s.subrange(mid, hi)[i - (mid - lo)] == r[i]);
            assert(s.subrange(mid, hi)[j - (mid - lo)] == r[j]);
        } else {
            assert(r[i] == s[lo + i]);
            assert(r[j] == s[lo + j]);
        }
    }
}

/// A range of at most one element is sorted.
pub proof fn lemma_sorted_short<T: Ord>(s: Seq<T>)
    requires
        s.len() <= 1,
    ensures
        sorted(s),
{
}

} // verus!

verus! {

/// The elements of `s` that compare equal to `x`, in their order in `s`.
pub open spec fn class<T: Ord>(s: Seq<T>, x: T) -> Seq<T> {
    s.filter(|y: T| equiv(y, x))
}

/// `s` and `t` hold, for every key, the same elements comparing equal to
/// that key, in the same order: `s` rearranges `t` stably.
pub open spec fn same_classes<T: Ord>(s: Seq<T>, t: Seq<T>) -> bool {
    forall|x: T| #[trigger] class(s, x) == class(t, x)
}

/// `clone` hands back a value equal to the original. Provable for the
/// element types whose `clone` vstd specifies (integers, `bool`, `char`);
/// vstd gives no specification of `clone` for tuples or derived impls.
pub open spec fn clone_faithful<T: Clone>() -> bool {
    forall|a: T, b: T| #[trigger] call_ensures(T::clone, (&a,), b) ==> a == b
}

/// The classes of a concatenation are the concatenated classes.
pub proof fn lemma_class_add<T: Ord>(a: Seq<T>, b: Seq<T>, x: T)
    ensures
        class(a + b, x) == class(a, x) + class(b, x),
{
    Seq::filter_distributes_over_add(a, b, |y: T| equiv(y, x));
}

/// Appending an element extends its own class only.
pub proof fn lemma_class_push<T: Ord>(a: Seq<T>, e: T, x: T)
    ensures
        class(a.push(e), x) == if equiv(e, x) {
            class(a, x).push(e)
        } else {
            class(a, x)
        },
{
    a.lemma_filter_push(e, |y: T| equiv(y, x));
}

/// A sequence with no element comparing equal to `x` has an empty class.
pub proof fn lemma_class_empty<T: Ord>(a: Seq<T>, x: T)
    requires
        forall|k: int| 0 <= k < a.len() ==> !equiv(#[trigger] a[k], x),
    ensures
        class(a, x) == Seq::<T>::empty(),
{
    let p = |y: T| equiv(y, x);
    assert(a.all(|y: T| !p(y)));
    a.lemma_all_neg_filter_empty(p);
    assert(class(a, x) =~= Seq::<T>::empty());
}

/// Concatenating stable rearrangements gives a stable rearrangement.
pub proof fn lemma_same_classes_add<T: Ord>(a: Seq<T>, b: Seq<T>, c: Seq<T>, d: Seq<T>)
    requires
        same_classes(a, c),
        same_classes(b, d),
    ensures
        same_classes(a + b, c + d),
{
    assert forall|x: T| #[trigger] class(a + b, x) == class(c + d, x) by {
        lemma_class_add(a, b, x);
        lemma_class_add(c, d, x);
        assert(class(a, x) == class(c, x));
        assert(class(b, x) == class(d, x));
    }
}

} // verus!

verus! {

/// Reverse the slice in place, exchanging elements from both ends inward.
pub fn reverse_slice<T>(s: &mut [T])
    ensures
        final(s)@ == old(s)@.reverse(),
{
    let n = s.len();
    let mut i: usize = 0;
    while i < n / 2
        invariant
            n == s@.len() == old(s)@.len(),
            i <= n / 2,
            forall|k: int| 0 <= k < i ==> #[trigger] s@[k] == old(s)@[n - 1 - k],
            forall|k: int| n - i <= k < n ==> #[trigger] s@[k] == old(s)@[n - 1 - k],
            forall|k: int| i <= k < n - i ==> #[trigger] s@[k] == old(s)@[k],
        decreases n / 2 - i,
    {
        s.swap(i, n - 1 - i);
        i += 1;
    }
    proof {
        assert(s@ =~= old(s)@.reverse());
    }
}

/// A sequence of one element has a class of it alone or nothing.
pub proof fn lemma_class_single<T: Ord>(e: T, x: T)
    ensures
        class(seq![e], x) == if equiv(e, x) {
            seq![e]
        } else {
            Seq::<T>::empty()
        },
{
    lemma_class_push(Seq::<T>::empty(), e, x);
    assert(Seq::<T>::empty().push(e) =~= seq![e]);
    lemma_class_empty(Seq::<T>::empty(), x);
}

/// Exchanging two neighbours where the later is strictly below the earlier
/// keeps every class, and the multiset.
pub proof fn lemma_swap_neighbours<T: Ord>(s: Seq<T>, k: int)
    requires
        total_order::<T>(),
        0 <= k < k + 1 < s.len(),
        lt(s[k + 1], s[k]),
    ensures
        same_classes(swapped(s, k, k + 1), s),
        permutes(swapped(s, k, k + 1), s),
{
    lemma_total_order::<T>();
    lemma_swap_permutes(s, k, k + 1, 0, s.len() as int);
    let t = swapped(s, k, k + 1);
    let (a, b) = (s[k], s[k + 1]);
    let pre = s.take(k);
    let post = s.skip(k + 2);
    assert(s =~= pre + seq![a] + seq![b] + post);
    assert(t =~= pre + seq![b] + seq![a] + post);
    assert forall|x: T| #[trigger] class(t, x) == class(s, x) by {
        lemma_class_add(pre + seq![a] + seq![b], post, x);
        lemma_class_add(pre + seq![a], seq![b], x);
        lemma_class_add(pre, seq![a], x);
        lemma_class_add(pre + seq![b] + seq![a], post, x);
        lemma_class_add(pre + seq![b], seq![a], x);
        lemma_class_add(pre, seq![b], x);
        lemma_class_single(a, x);
        lemma_class_single(b, x);
        if equiv(a, x) {
            assert(le(a, x));
            assert(!equiv(b, x));
            assert(class(pre, x) + class(seq![a], x) + class(seq![b], x) =~= class(pre, x)
                + class(seq![b], x) + class(seq![a], x));
        } else {
            assert(class(pre, x) + class(seq![a], x) + class(seq![b], x) =~= class(pre, x)
                + class(seq![b], x) + class(seq![a], x));
        }
    }
}

/// Reversing a strictly descending sequence sorts it and keeps every class.
pub proof fn lemma_reverse_descending<T: Ord>(s: Seq<T>)
    requires
        total_order::<T>(),
        forall|i: int, j: int| 0 <= i < j < s.len() ==> lt(#[trigger] s[j], #[trigger] s[i]),
    ensures
        sorted(s.reverse()),
        same_classes(s.reverse(), s),
        permutes(s.reverse(), s),
    decreases s.len(),
{
    lemma_total_order::<T>();
    s.lemma_reverse_to_multiset();
    let r = s.reverse();
    assert forall|i: int, j: int| 0 <= i < j < r.len() implies le(#[trigger] r[i], #[trigger] r[j]) by {
        assert(lt(s[s.len() - 1 - i], s[s.len() - 1 - j]));
    }
    if s.len() > 0 {
        let h = s[0];
        let t = s.drop_first();
        lemma_reverse_descending(t);
        assert(r =~= t.reverse().push(h));
        assert(s =~= seq![h] + t);
        assert forall|x: T| #[trigger] class(r, x) == class(s, x) by {
            lemma_class_push(t.reverse(), h, x);
            lemma_class_add(seq![h], t, x);
            lemma_class_single(h, x);
            assert(class(t.reverse(), x) == class(t, x));
            if equiv(h, x) {
                assert forall|k: int| 0 <= k < t.len() implies !equiv(#[trigger] t[k], x) by {
                    assert(t[k] == s[k + 1]);
                    assert(lt(s[k + 1], s[0]));
                    assert(le(h, x));
                }
                lemma_class_empty(t, x);
                assert(seq![h] + Seq::<T>::empty() =~= Seq::<T>::empty().push(h));
            } else {
                assert(Seq::<T>::empty() + class(t, x) =~= class(t, x));
            }
        }
    } else {
        assert(r =~= s);
    }
}

} // verus!
