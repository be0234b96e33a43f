//! Counting sort of `usize` values.
use vstd::prelude::*;
use vstd::multiset::Multiset;
use crate::perm::{permutes, sorted, same_classes};
use crate::laws::lemma_identical_keys_stable;

verus! {

/// How many elements of `s` equal `v`.
pub open spec fn occurrences(s: Seq<usize>, v: int) -> nat {
    s.to_multiset().count(v as usize)
}

/// The sum of the tallies `c[0]`, ..., `c[v - 1]`: where the values equal
/// to `v` start in the sorted output.
pub open spec fn below(c: Seq<usize>, v: int) -> int
    decreases v,
{
    if v <= 0 {
        0
    } else {
        below(c, v - 1) + c[v - 1]
    }
}

proof fn lemma_below_monotone(c: Seq<usize>, a: int, b: int)
    requires
        0 <= a <= b,
    ensures
        below(c, a) <= below(c, b),
    decreases b - a,
{
    if a < b {
        lemma_below_monotone(c, a, b - 1);
    }
}

/// Raising one tally by one raises every sum that includes it by one.
proof fn lemma_below_bump(c: Seq<usize>, v: int, m: int)
    requires
        0 <= v < c.len(),
        0 <= m <= c.len(),
        c[v] < usize::MAX,
    ensures
        below(c.update(v, (c[v] + 1) as usize), m) == below(c, m) + if v < m {
            1int
        } else {
            0int
        },
    decreases m,
{
    if m > 0 {
        lemma_below_bump(c, v, m - 1);
    }
}

/// Each position below the total falls in the block of exactly one value.
proof fn lemma_find_block(c: Seq<usize>, m: int, p: int) -> (w: int)
    requires
        0 <= m,
        0 <= p < below(c, m),
    ensures
        0 <= w < m,
        below(c, w) <= p < below(c, w + 1),
    decreases m,
{
    if p < below(c, m - 1) {
        lemma_find_block(c, m - 1, p)
    } else {
        m - 1
    }
}

/// A sequence holding `v` only has it as many times as its length.
proof fn lemma_constant_count(s: Seq<usize>, v: usize)
    requires
        forall|k: int| 0 <= k < s.len() ==> s[k] == v,
    ensures
        forall|w: usize| #[trigger] s.to_multiset().count(w) == if w == v {
            s.len()
        } else {
            0
        },
    decreases s.len(),
{
    broadcast use vstd::seq_lib::group_to_multiset_ensures;
    broadcast use vstd::multiset::group_multiset_axioms;
    if s.len() > 0 {
        lemma_constant_count(s.drop_last(), v);
        assert(s =~= s.drop_last().push(v));
    } else {
        assert(s.to_multiset() =~= Multiset::empty());
    }
}

/// A prefix holds no more copies of a value than a longer prefix.
proof fn lemma_take_count(s: Seq<usize>, a: int, b: int, v: usize)
    requires
        0 <= a <= b <= s.len(),
    ensures
        s.take(a).to_multiset().count(v) <= s.take(b).to_multiset().count(v),
    decreases b - a,
{
    broadcast use vstd::seq_lib::group_to_multiset_ensures;
    if a < b {
        lemma_take_count(s, a, b - 1, v);
        assert(s.take(b) =~= s.take(b - 1).push(s[b - 1]));
    }
}

/// Counting sort for non-negative integers.
///
/// Stable sort. O(n + k) where k is the maximum value. Returns a sorted
/// vector. The tally vector has one slot per value up to the maximum, so
/// the maximum must leave room for one more.
pub fn counting_sort(arr: &[usize]) -> (r: Vec<usize>)
    requires
        forall|k: int| 0 <= k < arr@.len() ==> #[trigger] arr@[k] < usize::MAX,
    ensures
        sorted(r@),
        permutes(r@, arr@),
        same_classes(r@, arr@),
{
    broadcast use vstd::seq_lib::group_to_multiset_ensures;
    let n = arr.len();
    if n == 0 {
        let r: Vec<usize> = Vec::new();
        proof {
            assert(r@ =~= arr@);
            lemma_identical_keys_stable(r@, arr@);
        }
        return r;
    }
    let mut max_val = arr[0];
    let mut k: usize = 1;
    while k < n
        invariant
            n == arr@.len(),
            1 <= k <= n,
            max_val < usize::MAX,
            forall|j: int| 0 <= j < n ==> #[trigger] arr@[j] < usize::MAX,
            forall|j: int| 0 <= j < k ==> #[trigger] arr@[j] <= max_val,
        decreases n - k,
    {
        if arr[k] > max_val {
            max_val = arr[k];
        }
        k += 1;
    }
    let m = max_val + 1;
    let mut count: Vec<usize> = vec![0usize; m];
    proof {
        assert(arr@.take(0) =~= Seq::<usize>::empty());
        assert forall|w: int| 0 <= w <= max_val implies #[trigger] count@[w] == occurrences(arr@.take(0), w) by {
            assert(count@[w] == 0);
        }
        assert forall|v: int| 0 <= v <= m implies below(count@, v) == 0 by {
            lemma_zero_below(count@, v);
        }
    }
    let mut k: usize = 0;
    while k < n
        invariant
            n == arr@.len(),
            k <= n,
            m == max_val + 1,
            count@.len() == m,
            forall|j: int| 0 <= j < n ==> #[trigger] arr@[j] <= max_val,
            forall|w: int| 0 <= w < m ==> #[trigger] count@[w] == occurrences(arr@.take(k as int), w),
            below(count@, m as int) == k,
        decreases n - k,
    {
        let v = arr[k];
        let ghost c = count@;
        proof {
            lemma_below_at_most(c, v as int, m as int);
        }
        count.set(v, count[v] + 1);
        proof {
            lemma_below_bump(c, v as int, m as int);
            assert(arr@.take(k + 1) =~= arr@.take(k as int).push(v));
            assert forall|w: int| 0 <= w < m implies #[trigger] count@[w] == occurrences(
                arr@.take(k + 1),
                w,
            ) by {
                arr@.take(k as int).to_multiset_ensures();
            }
        }
        k += 1;
    }
    let ghost tally = count@;
    proof {
        assert(arr@.take(n as int) =~= arr@);
    }
    // Prefix sums: each value's first position in the output.
    let mut total: usize = 0;
    let mut idx: usize = 0;
    while idx < m
        invariant
            m == count@.len() == tally.len(),
            idx <= m,
            below(tally, m as int) == n,
            total == below(tally, idx as int),
            forall|w: int| 0 <= w < idx ==> #[trigger] count@[w] == below(tally, w),
            forall|w: int| idx <= w < m ==> #[trigger] count@[w] == tally[w],
        decreases m - idx,
    {
        proof {
            lemma_below_monotone(tally, idx + 1, m as int);
        }
        let old = count[idx];
        count.set(idx, total);
        total = total + old;
        idx += 1;
    }
    let mut output: Vec<usize> = vec![0usize; n];
    let mut k: usize = 0;
    while k < n
        invariant
            n == arr@.len() == output@.len(),
            k <= n,
            m == max_val + 1 == count@.len() == tally.len(),
            below(tally, m as int) == n,
            forall|j: int| 0 <= j < n ==> #[trigger] arr@[j] <= max_val,
            forall|w: int| 0 <= w < m ==> #[trigger] tally[w] == occurrences(arr@, w),
            forall|w: int| 0 <= w < m ==> #[trigger] count@[w] == below(tally, w) + occurrences(arr@.take(k as int), w),
            forall|w: int, p: int|
                #![trigger output@[p], below(tally, w)]
                0 <= w < m && below(tally, w) <= p < below(tally, w) + occurrences(arr@.take(k as int), w)
                    ==> output@[p] == w,
        decreases n - k,
    {
        let v = arr[k];
        proof {
            assert(arr@.take(k + 1) =~= arr@.take(k as int).push(v));
            arr@.take(k as int).to_multiset_ensures();
            assert(arr@.take(k as int).push(v).to_multiset() =~= arr@.take(k as int).to_multiset().insert(v));
            lemma_take_count(arr@, k + 1, n as int, v);
            assert(arr@.take(n as int) =~= arr@);
            lemma_below_monotone(tally, v + 1, m as int);
        }
        let pos = count[v];
        let ghost out0 = output@;
        output.set(pos, v);
        count.set(v, pos + 1);
        proof {
            assert forall|w: int| 0 <= w < m implies #[trigger] count@[w] == below(tally, w) + occurrences(arr@.take(k + 1), w) by {
            }
            assert forall|w: int, p: int|
                #![trigger output@[p], below(tally, w)]
                0 <= w < m && below(tally, w) <= p < below(tally, w) + occurrences(arr@.take(k + 1), w)
                    implies output@[p] == w by {
                lemma_take_count(arr@, k + 1, n as int, w as usize);
                lemma_below_monotone(tally, w + 1, m as int);
                lemma_below_monotone(tally, 0, w);
                assert(w != v ==> occurrences(arr@.take(k + 1), w) == occurrences(arr@.take(k as int), w));
                if w < v {
                    lemma_below_monotone(tally, w + 1, v as int);
                } else if w > v {
                    lemma_below_monotone(tally, v + 1, w);
                }
                if p != pos {
                    assert(out0[p] == w);
                }
            }
        }
        k += 1;
    }
    proof {
        assert(arr@.take(n as int) =~= arr@);
        counting_sort_result(arr@, output@, tally, max_val as int);
        lemma_identical_keys_stable(output@, arr@);
    }
    output
}

proof fn lemma_zero_below(c: Seq<usize>, v: int)
    requires
        0 <= v <= c.len(),
        forall|w: int| 0 <= w < c.len() ==> c[w] == 0,
    ensures
        below(c, v) == 0,
    decreases v,
{
    if v > 0 {
        lemma_zero_below(c, v - 1);
    }
}

proof fn lemma_below_at_most(c: Seq<usize>, v: int, m: int)
    requires
        0 <= v < m <= c.len(),
    ensures
        c[v] <= below(c, m),
{
    lemma_below_monotone(c, v + 1, m);
    lemma_below_monotone(c, 0, v);
}

/// An output laid out in value blocks, each block as long as the value's
/// count in the input, is the input sorted.
proof fn counting_sort_result(arr: Seq<usize>, out: Seq<usize>, tally: Seq<usize>, max_val: int)
    requires
        0 <= max_val,
        tally.len() == max_val + 1,
        out.len() == arr.len() == below(tally, max_val + 1),
        forall|j: int| 0 <= j < arr.len() ==> #[trigger] arr[j] <= max_val,
        forall|w: int| 0 <= w <= max_val ==> #[trigger] tally[w] == occurrences(arr, w),
        forall|w: int, p: int|
            #![trigger out[p], below(tally, w)]
            0 <= w <= max_val && below(tally, w) <= p < below(tally, w) + occurrences(arr, w)
                ==> out[p] == w,
    ensures
        sorted(out),
        permutes(out, arr),
{
    broadcast use vstd::seq_lib::group_to_multiset_ensures;
    let m = max_val + 1;
    assert forall|i: int, j: int| 0 <= i < j < out.len() implies crate::order::le(
        #[trigger] out[i],
        #[trigger] out[j],
    ) by {
        let wi = lemma_find_block(tally, m, i);
        let wj = lemma_find_block(tally, m, j);
        assert(out[i] == wi);
        assert(out[j] == wj);
        if wj < wi {
            lemma_below_monotone(tally, wj + 1, wi);
        }
    }
    lemma_blocks_count(arr, out, tally, max_val, m);
    assert(out.take(below(tally, m)) =~= out);
    assert forall|w: usize| #[trigger] out.to_multiset().count(w) == arr.to_multiset().count(w) by {
        assert(out.take(below(tally, m)).to_multiset().count(w) == if w < m {
            tally[w as int] as nat
        } else {
            0nat
        });
        if w >= m {
            assert(!arr.contains(w));
        }
    }
    assert(out.to_multiset() =~= arr.to_multiset());
}

proof fn lemma_blocks_count(arr: Seq<usize>, out: Seq<usize>, tally: Seq<usize>, max_val: int, v: int)
    requires
        0 <= max_val,
        tally.len() == max_val + 1,
        out.len() == arr.len() == below(tally, max_val + 1),
        forall|w: int| 0 <= w <= max_val ==> #[trigger] tally[w] == occurrences(arr, w),
        forall|w: int, p: int|
                #![trigger out[p], below(tally, w)]
            0 <= w <= max_val && below(tally, w) <= p < below(tally, w) + occurrences(arr, w)
                ==> out[p] == w,
        0 <= v <= max_val + 1,
    ensures
        forall|w: usize|
            #[trigger] out.take(below(tally, v)).to_multiset().count(w) == if w < v {
                tally[w as int] as nat
            } else {
                0nat
            },
    decreases v,
{
    broadcast use vstd::seq_lib::group_to_multiset_ensures;
    broadcast use vstd::multiset::group_multiset_axioms;
    lemma_below_monotone(tally, v, max_val + 1);
    if v == 0 {
        assert(out.take(0).to_multiset() =~= Multiset::empty());
    } else {
        lemma_blocks_count(arr, out, tally, max_val, v - 1);
        let lo = below(tally, v - 1);
        let hi = below(tally, v);
        lemma_below_monotone(tally, 0, v - 1);
        let block = out.subrange(lo, hi);
        assert forall|k: int| 0 <= k < block.len() implies block[k] == (v - 1) as usize by {
            assert(out[lo + k] == v - 1);
        }
        lemma_constant_count(block, (v - 1) as usize);
        assert(out.take(hi) =~= out.take(lo) + block);
        vstd::seq_lib::lemma_multiset_commutative(out.take(lo), block);
    }
}

} // verus!
