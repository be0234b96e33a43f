//! Heapsort over a binary max-heap laid out in the slice.
use vstd::prelude::*;
use crate::order::{le, lt, total_order, is_lt, lemma_total_order};
use crate::perm::{
    permutes, sorted, same_outside, split_at, lemma_swap_permutes, lemma_permutes_within,
    lemma_permutes_whole, lemma_split_permuted, lemma_sorted_join, lemma_sorted_short,
};

verus! {

/// Position of the parent of node `c` in the heap layout.
pub open spec fn parent(c: int) -> int {
    (c - 1) / 2
}

/// Among the first `n` positions, every node whose parent is at position
/// `lo` or later is at or below that parent.
pub open spec fn heap_from<T: Ord>(s: Seq<T>, n: int, lo: int) -> bool {
    forall|c: int| 0 < c < n && lo <= parent(c) ==> le(#[trigger] s[c], s[parent(c)])
}

/// The root of a heap is at or above every node of it.
proof fn lemma_heap_root_max<T: Ord>(s: Seq<T>, n: int, m: int)
    requires
        total_order::<T>(),
        heap_from(s, n, 0),
        0 <= m < n <= s.len(),
    ensures
        le(s[m], s[0]),
    decreases m,
{
    lemma_total_order::<T>();
    if m > 0 {
        lemma_heap_root_max(s, n, parent(m));
        assert(le(s[m], s[parent(m)]));
    }
}

/// Heapsort using a max-heap.
///
/// Sorts the slice in ascending order in place. Not stable.
/// O(n log n) guaranteed.
pub fn heapsort<T: Ord>(arr: &mut [T])
    requires
        total_order::<T>(),
        old(arr)@.len() <= isize::MAX,
    ensures
        sorted(final(arr)@),
        permutes(final(arr)@, old(arr)@),
{
    let n = arr.len();
    if n <= 1 {
        proof {
            lemma_sorted_short(arr@);
            assert(arr@.to_multiset() == old(arr)@.to_multiset());
        }
        return;
    }
    // Build the max-heap, from the last inner node up to the root.
    let mut i = n / 2;
    while i > 0
        invariant
            total_order::<T>(),
            n == arr@.len() <= isize::MAX,
            i <= n / 2,
            heap_from(arr@, n as int, i as int),
            permutes(arr@, old(arr)@),
        decreases i,
    {
        i -= 1;
        let ghost s0 = arr@;
        heapify(arr, n, i, Ghost(i as int));
        proof {
            lemma_permutes_whole(s0, arr@, i as int, n as int);
        }
    }
    // Move the maximum behind the heap, one position at a time.
    let mut i = n - 1;
    proof {
        assert(arr@.subrange(n as int, n as int).len() == 0);
    }
    while i > 0
        invariant
            total_order::<T>(),
            n == arr@.len() <= isize::MAX,
            i < n,
            heap_from(arr@, i + 1, 0),
            sorted(arr@.subrange(i + 1, n as int)),
            split_at(arr@, 0, i + 1, n as int),
            permutes(arr@, old(arr)@),
        decreases i,
    {
        let ghost s0 = arr@;
        proof {
            lemma_total_order::<T>();
            lemma_swap_permutes(s0, 0, i as int, 0, n as int);
        }
        arr.swap(0, i);
        let ghost s1 = arr@;
        proof {
            assert forall|k: int, m: int| 0 <= k < i <= m < n implies le(
                #[trigger] s1[k],
                #[trigger] s1[m],
            ) by {
                if k == 0 {
                    lemma_heap_root_max(s0, i + 1, i as int);
                } else {
                    lemma_heap_root_max(s0, i + 1, k);
                }
            }
            let r = s1.subrange(i as int, n as int);
            assert forall|a: int, b: int| 0 <= a < b < r.len() implies le(
                #[trigger] r[a],
                #[trigger] r[b],
            ) by {
                assert(r[a] == s1[i + a]);
                assert(r[b] == s1[i + b]);
                if a > 0 {
                    assert(s0.subrange(i + 1, n as int)[a - 1] == s0[i + a]);
                    assert(s0.subrange(i + 1, n as int)[b - 1] == s0[i + b]);
                }
            }
        }
        heapify(arr, i, 0, Ghost(0));
        proof {
            let s2 = arr@;
            assert(s2.subrange(i as int, n as int) =~= s1.subrange(i as int, n as int));
            lemma_split_permuted(s1, s2, 0, i as int, n as int);
            assert(s2.subrange(i as int, n as int) =~= s1.subrange(i as int, n as int));
            lemma_permutes_whole(s1, s2, 0, i as int);
        }
        i -= 1;
    }
    proof {
        lemma_sorted_short(arr@.subrange(0, 1));
        lemma_sorted_join(arr@, 0, 1, n as int);
        assert(arr@.subrange(0, n as int) =~= arr@);
    }
}

/// Sift the element at `i` down the heap of the first `n` positions.
///
/// Every edge whose parent lies at `lo` or later is in heap order, except
/// those from `i` to its children; when `i` is below `lo`'s level those
/// children are also at or below `i`'s parent. Afterwards all edges from
/// `lo` on are in heap order, and only positions `i..n` have moved.
fn heapify<T: Ord>(arr: &mut [T], n: usize, i: usize, Ghost(lo): Ghost<int>)
    requires
        total_order::<T>(),
        n <= old(arr)@.len() <= isize::MAX,
        0 <= lo <= i < n,
        forall|c: int|
            0 < c < n && lo <= parent(c) && parent(c) != i ==> le(
                #[trigger] old(arr)@[c],
                old(arr)@[parent(c)],
            ),
        lo < i ==> lo <= parent(i as int),
        lo < i ==> forall|c: int|
            0 < c < n && parent(c) == i ==> le(
                #[trigger] old(arr)@[c],
                old(arr)@[parent(i as int)],
            ),
    ensures
        heap_from(final(arr)@, n as int, lo),
        same_outside(old(arr)@, final(arr)@, i as int, n as int),
        permutes(final(arr)@.subrange(i as int, n as int), old(arr)@.subrange(i as int, n as int)),
    decreases n - i,
{
    proof {
        lemma_total_order::<T>();
    }
    let mut largest = i;
    let left = 2 * i + 1;
    let right = 2 * i + 2;
    if left < n && is_lt(&arr[largest], &arr[left]) {
        largest = left;
    }
    if right < n && is_lt(&arr[largest], &arr[right]) {
        largest = right;
    }
    if largest != i {
        let ghost s0 = arr@;
        proof {
            lemma_swap_permutes(s0, i as int, largest as int, i as int, n as int);
        }
        arr.swap(i, largest);
        let ghost s1 = arr@;
        proof {
            assert(parent(largest as int) == i);
            assert forall|c: int|
                0 < c < n && lo <= parent(c) && parent(c) != largest implies le(
                #[trigger] s1[c],
                s1[parent(c)],
            ) by {
                if c == largest {
                } else if parent(c) == i {
                    assert(c == left || c == right);
                } else if c == i {
                } else {
                    assert(s1[c] == s0[c]);
                }
            }
        }
        heapify(arr, n, largest, Ghost(lo));
        proof {
            lemma_permutes_within(s1, arr@, i as int, largest as int, n as int, n as int);
            assert forall|k: int| 0 <= k < s0.len() && !(i <= k < n) implies #[trigger] s0[k]
                == arr@[k] by {
                assert(s1[k] == s0[k]);
            }
            assert(arr@.subrange(i as int, n as int).to_multiset()
                == s0.subrange(i as int, n as int).to_multiset());
        }
    } else {
        proof {
            assert(arr@.subrange(i as int, n as int) =~= old(arr)@.subrange(i as int, n as int));
            assert forall|c: int| 0 < c < n && lo <= parent(c) implies le(
                #[trigger] arr@[c],
                arr@[parent(c)],
            ) by {
                if parent(c) == i {
                    assert(c == left || c == right);
                }
            }
        }
    }
}

} // verus!
