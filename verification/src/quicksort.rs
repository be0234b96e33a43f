//! Quicksort with the Lomuto and the Hoare partition schemes.
use vstd::prelude::*;
use crate::order::{le, lt, total_order, is_le, is_lt, lemma_total_order};
use crate::perm::{
    permutes, sorted, same_outside, split_at, lemma_swap_permutes, lemma_permutes_within,
    lemma_permutes_whole, lemma_split_permuted, lemma_sorted_join, lemma_sorted_short,
};

verus! {

/// Quicksort using the Lomuto partition scheme.
///
/// Sorts the slice in ascending order in place. Not stable.
pub fn quicksort_lomuto<T: Ord>(arr: &mut [T])
    requires
        total_order::<T>(),
    ensures
        sorted(final(arr)@),
        permutes(final(arr)@, old(arr)@),
{
    if arr.len() <= 1 {
        proof {
            lemma_sorted_short(arr@);
        }
        return;
    }
    let hi = arr.len() - 1;
    quicksort_lomuto_inner(arr, 0, hi);
    proof {
        assert(arr@.subrange(0, arr@.len() as int) =~= arr@);
        lemma_permutes_whole(old(arr)@, arr@, 0, arr@.len() as int);
    }
}

fn quicksort_lomuto_inner<T: Ord>(arr: &mut [T], lo: usize, hi: usize)
    requires
        total_order::<T>(),
        lo <= hi + 1,
        hi < old(arr)@.len(),
    ensures
        sorted(final(arr)@.subrange(lo as int, hi + 1)),
        same_outside(old(arr)@, final(arr)@, lo as int, hi + 1),
        permutes(final(arr)@.subrange(lo as int, hi + 1), old(arr)@.subrange(lo as int, hi + 1)),
    decreases hi + 1 - lo,
{
    if lo >= hi {
        proof {
            lemma_sorted_short(arr@.subrange(lo as int, hi + 1));
        }
        return;
    }
    let p = partition_lomuto(arr, lo, hi);
    let ghost s1 = arr@;
    if p > 0 {
        quicksort_lomuto_inner(arr, lo, p - 1);
    } else {
        proof {
            lemma_sorted_short(arr@.subrange(lo as int, p as int));
        }
    }
    let ghost s2 = arr@;
    assert(p + 1 <= arr.len());
    quicksort_lomuto_inner(arr, p + 1, hi);
    let ghost s3 = arr@;
    proof {
        let (l, p, h) = (lo as int, p as int, hi + 1);
        lemma_total_order::<T>();
        if l < p {
            lemma_permutes_within(s1, s2, l, l, p, p);
        } else {
            assert(s2.subrange(l, p) =~= s1.subrange(l, p));
        }
        assert(s3.subrange(l, p) =~= s2.subrange(l, p));
        assert(s2.subrange(p + 1, h) =~= s1.subrange(p + 1, h));
        assert(s3.subrange(p, p + 1) =~= s1.subrange(p, p + 1));
        // left of the pivot, then the pivot against what lies right of it
        assert(split_at(s1, l, p, h));
        assert(split_at(s1, p, p + 1, h));
        lemma_permutes_within(s2, s3, p, p + 1, h, h);
        assert(s2.subrange(p, h) =~= s1.subrange(p, h));
        lemma_split_permuted(s1, s3, l, p, h);
        lemma_split_permuted(s1, s3, p, p + 1, h);
        lemma_sorted_short(s3.subrange(p, p + 1));
        lemma_sorted_join(s3, p, p + 1, h);
        lemma_sorted_join(s3, l, p, h);
        lemma_permutes_within(s2, s3, l, p + 1, h, h);
        if l < p {
            lemma_permutes_within(s1, s2, l, l, p, h);
        } else {
            assert(s2 =~= s1);
        }
        lemma_permutes_within(old(arr)@, s1, l, l, h, h);
        assert(s3.subrange(l, h).to_multiset() == s1.subrange(l, h).to_multiset());
    }
}

/// Lomuto partition of `arr[lo..=hi]` around its last element: returns the
/// pivot's final position, with nothing above it to its left and only
/// greater elements to its right.
fn partition_lomuto<T: Ord>(arr: &mut [T], lo: usize, hi: usize) -> (p: usize)
    requires
        total_order::<T>(),
        lo < hi < old(arr)@.len(),
    ensures
        lo <= p <= hi,
        forall|k: int| lo <= k < p ==> le(#[trigger] final(arr)@[k], final(arr)@[p as int]),
        forall|k: int| p < k <= hi ==> lt(final(arr)@[p as int], #[trigger] final(arr)@[k]),
        same_outside(old(arr)@, final(arr)@, lo as int, hi + 1),
        permutes(final(arr)@.subrange(lo as int, hi + 1), old(arr)@.subrange(lo as int, hi + 1)),
{
    let pivot = hi;
    let mut i = lo;
    let mut j = lo;
    while j < hi
        invariant
            total_order::<T>(),
            lo <= i <= j <= hi < arr@.len(),
            pivot == hi,
            arr@[hi as int] == old(arr)@[hi as int],
            forall|k: int| lo <= k < i ==> le(#[trigger] arr@[k], arr@[hi as int]),
            forall|k: int| i <= k < j ==> lt(arr@[hi as int], #[trigger] arr@[k]),
            same_outside(old(arr)@, arr@, lo as int, hi + 1),
            permutes(arr@.subrange(lo as int, hi + 1), old(arr)@.subrange(lo as int, hi + 1)),
        decreases hi - j,
    {
        if is_le(&arr[j], &arr[pivot]) {
            proof {
                lemma_swap_permutes(arr@, i as int, j as int, lo as int, hi + 1);
            }
            arr.swap(i, j);
            i += 1;
        }
        j += 1;
    }
    proof {
        lemma_swap_permutes(arr@, i as int, hi as int, lo as int, hi + 1);
    }
    arr.swap(i, hi);
    i
}

/// Quicksort using the Hoare partition scheme.
///
/// Sorts the slice in ascending order in place. Not stable. Generally
/// performs fewer swaps than Lomuto.
pub fn quicksort_hoare<T: Ord>(arr: &mut [T])
    requires
        total_order::<T>(),
    ensures
        sorted(final(arr)@),
        permutes(final(arr)@, old(arr)@),
{
    if arr.len() <= 1 {
        proof {
            lemma_sorted_short(arr@);
        }
        return;
    }
    let hi = arr.len() - 1;
    quicksort_hoare_inner(arr, 0, hi);
    proof {
        assert(arr@.subrange(0, arr@.len() as int) =~= arr@);
        lemma_permutes_whole(old(arr)@, arr@, 0, arr@.len() as int);
    }
}

fn quicksort_hoare_inner<T: Ord>(arr: &mut [T], lo: usize, hi: usize)
    requires
        total_order::<T>(),
        lo <= hi < old(arr)@.len(),
    ensures
        sorted(final(arr)@.subrange(lo as int, hi + 1)),
        same_outside(old(arr)@, final(arr)@, lo as int, hi + 1),
        permutes(final(arr)@.subrange(lo as int, hi + 1), old(arr)@.subrange(lo as int, hi + 1)),
    decreases hi - lo,
{
    if lo >= hi {
        proof {
            lemma_sorted_short(arr@.subrange(lo as int, hi + 1));
        }
        return;
    }
    let p = partition_hoare(arr, lo, hi);
    let ghost s1 = arr@;
    if p > 0 {
        quicksort_hoare_inner(arr, lo, p);
    } else {
        proof {
            lemma_sorted_short(arr@.subrange(lo as int, p + 1));
        }
    }
    let ghost s2 = arr@;
    quicksort_hoare_inner(arr, p + 1, hi);
    let ghost s3 = arr@;
    proof {
        let (l, m, h) = (lo as int, p + 1, hi + 1);
        assert(s3.subrange(l, m) =~= s2.subrange(l, m));
        assert(s2.subrange(m, h) =~= s1.subrange(m, h));
        if p == 0 {
            assert(s2 =~= s1);
        }
        lemma_split_permuted(s1, s3, l, m, h);
        lemma_sorted_join(s3, l, m, h);
        lemma_permutes_within(s1, s2, l, l, m, h);
        lemma_permutes_within(s2, s3, l, m, h, h);
        lemma_permutes_within(old(arr)@, s1, l, l, h, h);
        assert(s3.subrange(l, h).to_multiset() == s1.subrange(l, h).to_multiset());
    }
}

/// Hoare partition of `arr[lo..=hi]` around its middle element: returns a
/// split position `p` with `lo <= p < hi` such that nothing in
/// `arr[lo..=p]` is above anything in `arr[p + 1..=hi]`.
///
/// The pivot element is followed by its position as swaps move it, so
/// every comparison is made against the same pivot value.
#[verifier::loop_isolation(false)]
fn partition_hoare<T: Ord>(arr: &mut [T], lo: usize, hi: usize) -> (p: usize)
    requires
        total_order::<T>(),
        lo < hi < old(arr)@.len(),
    ensures
        lo <= p < hi,
        split_at(final(arr)@, lo as int, p + 1, hi + 1),
        same_outside(old(arr)@, final(arr)@, lo as int, hi + 1),
        permutes(final(arr)@.subrange(lo as int, hi + 1), old(arr)@.subrange(lo as int, hi + 1)),
{
    proof {
        lemma_total_order::<T>();
    }
    let mut pivot_idx = lo + (hi - lo) / 2;
    let ghost pv = arr@[pivot_idx as int];
    let mut i = lo;
    let mut j = hi;
    // positions known to stop the upward and the downward scan
    let ghost mut si: int = pivot_idx as int;
    let ghost mut sj: int = pivot_idx as int;
    loop
        invariant
            total_order::<T>(),
            lo < hi < arr@.len(),
            lo <= i <= j + 1,
            lo <= j <= hi,
            lo <= pivot_idx <= hi,
            arr@[pivot_idx as int] == pv,
            i <= si <= hi,
            le(pv, arr@[si]),
            lo <= sj <= j,
            le(arr@[sj], pv),
            j == hi ==> si == sj && sj < hi,
            forall|k: int| lo <= k < i ==> le(#[trigger] arr@[k], pv),
            forall|k: int| j < k <= hi ==> le(pv, #[trigger] arr@[k]),
            same_outside(old(arr)@, arr@, lo as int, hi + 1),
            permutes(arr@.subrange(lo as int, hi + 1), old(arr)@.subrange(lo as int, hi + 1)),
        decreases j + 1 - i,
    {
        let ghost i0 = i;
        let ghost j0 = j;
        while is_lt(&arr[i], &arr[pivot_idx])
            invariant
                total_order::<T>(),
                lo < hi < arr@.len(),
                lo <= i <= si <= hi,
                i0 <= i,
                lo <= pivot_idx <= hi,
                arr@[pivot_idx as int] == pv,
                le(pv, arr@[si]),
                forall|k: int| lo <= k < i ==> le(#[trigger] arr@[k], pv),
            decreases si - i,
        {
            proof {
                lemma_total_order::<T>();
            }
            i += 1;
        }
        while is_lt(&arr[pivot_idx], &arr[j])
            invariant
                total_order::<T>(),
                lo < hi < arr@.len(),
                lo <= sj <= j <= hi,
                j <= j0,
                lo <= pivot_idx <= hi,
                arr@[pivot_idx as int] == pv,
                le(arr@[sj], pv),
                forall|k: int| j < k <= hi ==> le(pv, #[trigger] arr@[k]),
            decreases j - sj,
        {
            proof {
                lemma_total_order::<T>();
            }
            j -= 1;
        }
        if i >= j {
            return j;
        }
        proof {
            lemma_swap_permutes(arr@, i as int, j as int, lo as int, hi + 1);
        }
        arr.swap(i, j);
        if pivot_idx == i {
            pivot_idx = j;
        } else if pivot_idx == j {
            pivot_idx = i;
        }
        proof {
            si = j as int;
            sj = i as int;
        }
        i += 1;
        j = j.saturating_sub(1);
    }
}

} // verus!
