//! A timsort-style adaptive merge sort: natural runs, descending runs
//! reversed, short runs topped up and insertion-sorted, then merged.
use vstd::prelude::*;
use crate::order::{le, lt, total_order, is_le, is_lt, lemma_total_order};
use crate::perm::{
    permutes, sorted, same_classes, clone_faithful, swapped, lemma_swap_neighbours,
    lemma_reverse_descending, lemma_same_classes_add, reverse_slice, lemma_sorted_short,
};
use crate::mergesort::{clone_to_vec, merge};

verus! {

/// The runs laid end to end.
pub open spec fn concat_runs<T>(runs: Seq<Vec<T>>) -> Seq<T>
    decreases runs.len(),
{
    if runs.len() == 0 {
        Seq::empty()
    } else {
        concat_runs(runs.drop_last()) + runs.last()@
    }
}

proof fn lemma_concat_runs_push<T>(runs: Seq<Vec<T>>, r: Vec<T>)
    ensures
        concat_runs(runs.push(r)) == concat_runs(runs) + r@,
{
    assert(runs.push(r).drop_last() =~= runs);
}

proof fn lemma_concat_runs_take<T>(runs: Seq<Vec<T>>, k: int)
    requires
        0 <= k <= runs.len(),
    ensures
        concat_runs(runs.take(k)).len() <= concat_runs(runs).len(),
    decreases runs.len(),
{
    if k < runs.len() {
        assert(runs.drop_last().take(k) =~= runs.take(k));
        lemma_concat_runs_take(runs.drop_last(), k);
    } else {
        assert(runs.take(k) =~= runs);
    }
}

/// Where an ascending natural run that has reached `e` ends: it goes on
/// while each element is at or above the one before it.
pub open spec fn ascending_end<T: Ord>(arr: Seq<T>, e: int) -> int
    decreases arr.len() - e,
{
    if 0 < e < arr.len() && le(arr[e - 1], arr[e]) {
        ascending_end(arr, e + 1)
    } else {
        e
    }
}

/// Where a strictly descending natural run that has reached `e` ends.
pub open spec fn descending_end<T: Ord>(arr: Seq<T>, e: int) -> int
    decreases arr.len() - e,
{
    if 0 < e < arr.len() && lt(arr[e], arr[e - 1]) {
        descending_end(arr, e + 1)
    } else {
        e
    }
}

/// The end of the natural run starting at `start`: ascending when its
/// second element is at or above the first, strictly descending otherwise.
pub open spec fn natural_end<T: Ord>(arr: Seq<T>, start: int) -> int {
    if start + 1 >= arr.len() {
        start + 1
    } else if le(arr[start], arr[start + 1]) {
        ascending_end(arr, start + 1)
    } else {
        descending_end(arr, start + 1)
    }
}

/// The end of the run starting at `start`: the natural run, topped up to
/// 32 elements (or to the end of the input) when it is shorter.
pub open spec fn run_end<T: Ord>(arr: Seq<T>, start: int) -> int {
    let e = natural_end(arr, start);
    if e - start < 32 && e < arr.len() {
        if start + 32 < arr.len() {
            start + 32
        } else {
            arr.len() as int
        }
    } else {
        e
    }
}

/// The positions where the runs from `start` on begin, followed by the end
/// of the input.
pub open spec fn run_cuts<T: Ord>(arr: Seq<T>, start: int) -> Seq<int>
    decreases arr.len() - start,
{
    if start < 0 || start >= arr.len() {
        seq![start]
    } else {
        proof {
            lemma_run_end(arr, start);
        }
        seq![start] + run_cuts(arr, run_end(arr, start))
    }
}

pub proof fn lemma_ascending_end<T: Ord>(arr: Seq<T>, e: int)
    requires
        0 < e <= arr.len(),
    ensures
        e <= ascending_end(arr, e) <= arr.len(),
    decreases arr.len() - e,
{
    if 0 < e < arr.len() && le(arr[e - 1], arr[e]) {
        lemma_ascending_end(arr, e + 1);
    }
}

pub proof fn lemma_descending_end<T: Ord>(arr: Seq<T>, e: int)
    requires
        0 < e <= arr.len(),
    ensures
        e <= descending_end(arr, e) <= arr.len(),
    decreases arr.len() - e,
{
    if 0 < e < arr.len() && lt(arr[e], arr[e - 1]) {
        lemma_descending_end(arr, e + 1);
    }
}

/// A run is never empty, never passes the end of the input, and holds at
/// least 32 elements unless it reaches the end.
pub proof fn lemma_run_end<T: Ord>(arr: Seq<T>, start: int)
    requires
        0 <= start < arr.len(),
    ensures
        start < run_end(arr, start) <= arr.len(),
        run_end(arr, start) < arr.len() ==> run_end(arr, start) - start >= 32,
{
    if start + 1 < arr.len() {
        lemma_ascending_end(arr, start + 1);
        lemma_descending_end(arr, start + 1);
    }
}

/// Timsort-inspired adaptive merge sort.
///
/// Detects natural runs, reverses descending runs, and merges them in
/// order. Stable sort.
///
/// The result is stated over the input's values, which the sort copies
/// with `clone`; `clone_faithful` asks that a clone equal its original. A
/// verified caller can show this only for element types whose `clone` vstd
/// specifies (the integer types, `bool`, `char`), not for tuples or types
/// with a derived `Clone`.
pub fn timsort<T: Clone + Ord>(arr: &[T]) -> (r: Vec<T>)
    requires
        total_order::<T>(),
        clone_faithful::<T>(),
    ensures
        sorted(r@),
        permutes(r@, arr@),
        same_classes(r@, arr@),
{
    if arr.len() <= 1 {
        proof {
            lemma_sorted_short(arr@);
        }
        return clone_to_vec(arr);
    }
    let runs = find_runs(arr);
    proof {
        concat_runs(runs@).to_multiset_ensures();
        arr@.to_multiset_ensures();
    }
    merge_runs(runs.as_slice())
}

/// Whether position `end` extends the run that ends just before it: an
/// ascending run continues with a value at or above its last, a descending
/// one with a value strictly below.
fn continues_run<T: Ord>(arr: &[T], end: usize, ascending: bool) -> (r: bool)
    requires
        total_order::<T>(),
        0 < end < arr@.len(),
    ensures
        r == if ascending {
            le(arr@[end - 1], arr@[end as int])
        } else {
            lt(arr@[end as int], arr@[end - 1])
        },
{
    if ascending {
        is_le(&arr[end - 1], &arr[end])
    } else {
        is_lt(&arr[end], &arr[end - 1])
    }
}

/// Split the input into runs: natural runs, descending ones reversed, each
/// run shorter than 32 topped up from what follows and insertion-sorted.
///
/// Run `k` covers the input from `run_cuts(arr@, 0)[k]` to
/// `run_cuts(arr@, 0)[k + 1]` and is that segment sorted stably; every run
/// but the last holds at least 32 elements.
fn find_runs<T: Clone + Ord>(arr: &[T]) -> (runs: Vec<Vec<T>>)
    requires
        total_order::<T>(),
        clone_faithful::<T>(),
    ensures
        run_cuts(arr@, 0).len() == runs@.len() + 1,
        run_cuts(arr@, 0)[runs@.len() as int] == arr@.len(),
        forall|k: int|
            0 <= k < runs@.len() ==> {
                let seg = arr@.subrange(run_cuts(arr@, 0)[k], run_cuts(arr@, 0)[k + 1]);
                &&& run_cuts(arr@, 0)[k] < run_cuts(arr@, 0)[k + 1]
                &&& sorted(#[trigger] runs@[k]@)
                &&& same_classes(runs@[k]@, seg)
                &&& permutes(runs@[k]@, seg)
                &&& runs@[k]@.len() == seg.len()
            },
        forall|k: int| 0 <= k < runs@.len() - 1 ==> #[trigger] runs@[k]@.len() >= 32,
        permutes(concat_runs(runs@), arr@),
        same_classes(concat_runs(runs@), arr@),
{
    let mut runs: Vec<Vec<T>> = Vec::new();
    if arr.is_empty() {
        proof {
            assert(concat_runs(runs@) =~= arr@);
        }
        return runs;
    }
    let mut start: usize = 0;
    // where the runs found so far begin
    let ghost mut starts: Seq<int> = Seq::empty();
    proof {
        assert(concat_runs(runs@) =~= arr@.take(0));
        assert(run_cuts(arr@, 0) =~= starts + run_cuts(arr@, 0));
    }
    while start < arr.len()
        invariant
            total_order::<T>(),
            clone_faithful::<T>(),
            start <= arr@.len(),
            starts.len() == runs@.len(),
            run_cuts(arr@, 0) == starts + run_cuts(arr@, start as int),
            forall|k: int| 0 <= k < starts.len() ==> 0 <= #[trigger] starts[k] < arr@.len(),
            forall|k: int| 0 <= k < starts.len() - 1 ==> #[trigger] starts[k + 1] == run_end(arr@, starts[k]),
            starts.len() > 0 ==> start == run_end(arr@, starts.last()),
            starts.len() == 0 ==> start == 0,
            forall|k: int|
                0 <= k < runs@.len() ==> {
                    let seg = arr@.subrange(starts[k], run_end(arr@, starts[k]));
                    &&& sorted(#[trigger] runs@[k]@)
                    &&& same_classes(runs@[k]@, seg)
                    &&& permutes(runs@[k]@, seg)
                    &&& runs@[k]@.len() == seg.len()
                },
            permutes(concat_runs(runs@), arr@.take(start as int)),
            same_classes(concat_runs(runs@), arr@.take(start as int)),
        decreases arr@.len() - start,
    {
        proof {
            lemma_total_order::<T>();
        }
        let mut end = start + 1;
        let mut ascending = true;
        if end < arr.len() {
            ascending = is_le(&arr[start], &arr[end]);
            while end < arr.len() && continues_run(arr, end, ascending)
                invariant
                    total_order::<T>(),
                    start < end <= arr@.len(),
                    natural_end(arr@, start as int) == if ascending {
                        ascending_end(arr@, end as int)
                    } else {
                        descending_end(arr@, end as int)
                    },
                    end == start + 1 ==> ascending == le(arr@[start as int], arr@[end as int]),
                    ascending ==> forall|a: int, b: int|
                        start <= a < b < end ==> le(#[trigger] arr@[a], #[trigger] arr@[b]),
                    !ascending ==> forall|a: int, b: int|
                        start <= a < b < end ==> lt(#[trigger] arr@[b], #[trigger] arr@[a]),
                decreases arr@.len() - end,
            {
                proof {
                    lemma_total_order::<T>();
                    if !ascending && end == start + 1 {
                        assert(lt(arr@[end as int], arr@[start as int]));
                    }
                }
                end += 1;
            }
        }
        proof {
            if end < arr@.len() {
                assert(natural_end(arr@, start as int) == end);
            }
        }
        let ghost seg = arr@.subrange(start as int, end as int);
        let mut run: Vec<T> = clone_to_vec(vstd::slice::slice_subrange(arr, start, end));
        proof {
            assert forall|a: int, b: int| 0 <= a < b < seg.len() implies (ascending ==> le(
                #[trigger] seg[a],
                #[trigger] seg[b],
            )) && (!ascending ==> lt(seg[b], seg[a])) by {
                assert(seg[a] == arr@[start + a]);
                assert(seg[b] == arr@[start + b]);
            }
        }
        if !ascending && run.len() > 1 {
            reverse_slice(run.as_mut_slice());
            proof {
                lemma_reverse_descending(seg);
            }
        } else {
            proof {
                if !ascending {
                    lemma_sorted_short(seg);
                }
            }
        }
        // `run` now holds `seg` sorted and stably rearranged.
        let ghost run0 = run@;
        let ghost mut whole = seg;
        proof {
            assert(sorted(run0));
            assert(same_classes(run0, seg));
            assert(permutes(run0, seg));
        }
        // Ensure minimum run length of 32
        if run.len() < 32 && end < arr.len() {
            let extend = (32 - run.len()).min(arr.len() - end);
            let ghost tail = arr@.subrange(end as int, end + extend);
            run.extend_from_slice(vstd::slice::slice_subrange(arr, end, end + extend));
            proof {
                assert(run@ =~= run0 + tail);
                assert(same_classes(tail, tail));
                lemma_same_classes_add(run0, tail, seg, tail);
                vstd::seq_lib::lemma_multiset_commutative(run0, tail);
                vstd::seq_lib::lemma_multiset_commutative(seg, tail);
                whole = seg + tail;
                assert(whole =~= arr@.subrange(start as int, end + extend));
            }
            insertion_sort(run.as_mut_slice());
            end += extend;
        }
        proof {
            lemma_run_end(arr@, start as int);
            assert(end == run_end(arr@, start as int));
            assert(whole =~= arr@.subrange(start as int, end as int));
            run@.to_multiset_ensures();
            whole.to_multiset_ensures();
            assert(sorted(run@));
            assert(same_classes(run@, whole));
            assert(permutes(run@, whole));
        }
        let ghost before = runs@;
        runs.push(run);
        proof {
            lemma_concat_runs_push(before, run);
            assert(arr@.take(end as int) =~= arr@.take(start as int) + whole);
            lemma_same_classes_add(concat_runs(before), run@, arr@.take(start as int), whole);
            vstd::seq_lib::lemma_multiset_commutative(concat_runs(before), run@);
            vstd::seq_lib::lemma_multiset_commutative(arr@.take(start as int), whole);
            assert(run_cuts(arr@, start as int) == seq![start as int] + run_cuts(arr@, end as int));
            starts = starts.push(start as int);
            assert(run_cuts(arr@, 0) =~= starts + run_cuts(arr@, end as int));
        }
        start = end;
    }
    proof {
        assert(arr@.take(arr@.len() as int) =~= arr@);
        let cuts = run_cuts(arr@, 0);
        assert(run_cuts(arr@, start as int) == seq![start as int]);
        assert(cuts =~= starts.push(arr@.len() as int));
        assert forall|k: int| 0 <= k < runs@.len() implies #[trigger] cuts[k + 1] == run_end(arr@, starts[k]) by {
            if k < runs@.len() - 1 {
                assert(starts[k + 1] == run_end(arr@, starts[k]));
            }
        }
        assert forall|k: int| 0 <= k < runs@.len() implies #[trigger] cuts[k] < cuts[k + 1] by {
            lemma_run_end(arr@, starts[k]);
        }
        assert forall|k: int| 0 <= k < runs@.len() - 1 implies #[trigger] runs@[k]@.len() >= 32 by {
            lemma_run_end(arr@, starts[k]);
            assert(starts[k + 1] == run_end(arr@, starts[k]));
            assert(starts[k + 1] < arr@.len());
        }
    }
    runs
}

/// Insertion sort for small arrays: each element moves left past the
/// strictly greater ones before it. Stable.
fn insertion_sort<T: Ord>(arr: &mut [T])
    requires
        total_order::<T>(),
    ensures
        sorted(final(arr)@),
        permutes(final(arr)@, old(arr)@),
        same_classes(final(arr)@, old(arr)@),
{
    let mut i: usize = 1;
    while i < arr.len()
        invariant
            total_order::<T>(),
            1 <= i,
            arr@.len() == old(arr)@.len(),
            arr@.len() > 0 ==> i <= arr@.len(),
            arr@.len() > 0 ==> sorted(arr@.take(i as int)),
            permutes(arr@, old(arr)@),
            same_classes(arr@, old(arr)@),
        decreases arr@.len() - i,
    {
        let mut j = i;
        proof {
            let t = arr@.take(i as int);
            assert forall|a: int, b: int| 0 <= a < b < j implies le(
                #[trigger] arr@[a],
                #[trigger] arr@[b],
            ) by {
                assert(t[a] == arr@[a]);
                assert(t[b] == arr@[b]);
            }
        }
        while j > 0 && is_lt(&arr[j], &arr[j - 1])
            invariant
                total_order::<T>(),
                j <= i < arr@.len(),
                arr@.len() == old(arr)@.len(),
                forall|a: int, b: int| 0 <= a < b < j ==> le(#[trigger] arr@[a], #[trigger] arr@[b]),
                forall|a: int, b: int| j < a < b <= i ==> le(#[trigger] arr@[a], #[trigger] arr@[b]),
                forall|a: int, b: int| 0 <= a < j < b <= i ==> le(#[trigger] arr@[a], #[trigger] arr@[b]),
                forall|b: int| j < b <= i ==> lt(arr@[j as int], #[trigger] arr@[b]),
                permutes(arr@, old(arr)@),
                same_classes(arr@, old(arr)@),
            decreases j,
        {
            let ghost s = arr@;
            proof {
                lemma_total_order::<T>();
                lemma_swap_neighbours(s, j - 1);
            }
            arr.swap(j - 1, j);
            proof {
                let t = arr@;
                assert(t == swapped(s, j - 1, j as int));
                assert forall|a: int, b: int| j - 1 < a < b <= i implies le(
                    #[trigger] t[a],
                    #[trigger] t[b],
                ) by {
                    if a == j {
                        assert(le(s[j - 1], s[b]));
                    }
                }
                assert forall|a: int, b: int| 0 <= a < j - 1 < b <= i implies le(
                    #[trigger] t[a],
                    #[trigger] t[b],
                ) by {
                    if b == j {
                        assert(le(s[a], s[j - 1]));
                    } else {
                        assert(le(s[a], s[b]));
                    }
                }
            }
            j -= 1;
        }
        proof {
            lemma_total_order::<T>();
            let s = arr@;
            let t = s.take(i + 1);
            assert forall|a: int, b: int| 0 <= a < b < t.len() implies le(
                #[trigger] t[a],
                #[trigger] t[b],
            ) by {
                assert(t[a] == s[a]);
                assert(t[b] == s[b]);
                if b == j && a < j {
                    if a < j - 1 {
                        assert(le(s[a], s[j - 1]));
                    }
                    assert(le(s[j - 1], s[j as int]));
                } else if a == j {
                    assert(lt(s[j as int], s[b]));
                }
            }
        }
        i += 1;
    }
    proof {
        if arr@.len() == 0 {
            lemma_sorted_short(arr@);
        } else {
            assert(arr@.take(arr@.len() as int) =~= arr@);
        }
    }
}

/// Merge the runs, in order, into a single sorted vector.
fn merge_runs<T: Clone + Ord>(runs: &[Vec<T>]) -> (r: Vec<T>)
    requires
        total_order::<T>(),
        clone_faithful::<T>(),
        forall|k: int| 0 <= k < runs@.len() ==> sorted(#[trigger] runs@[k]@),
        concat_runs(runs@).len() <= usize::MAX,
    ensures
        sorted(r@),
        permutes(r@, concat_runs(runs@)),
        same_classes(r@, concat_runs(runs@)),
{
    if runs.is_empty() {
        let r: Vec<T> = Vec::new();
        proof {
            assert(r@ =~= concat_runs(runs@));
        }
        return r;
    }
    let mut result = runs[0].clone();
    proof {
        assert(result@ =~= runs@[0]@);
        lemma_concat_runs_push(runs@.take(0), runs@[0]);
        assert(runs@.take(0).push(runs@[0]) =~= runs@.take(1));
        assert(concat_runs(runs@.take(1)) =~= result@);
    }
    let mut k: usize = 1;
    while k < runs.len()
        invariant
            total_order::<T>(),
            clone_faithful::<T>(),
            1 <= k <= runs@.len(),
            forall|m: int| 0 <= m < runs@.len() ==> sorted(#[trigger] runs@[m]@),
            concat_runs(runs@).len() <= usize::MAX,
            sorted(result@),
            permutes(result@, concat_runs(runs@.take(k as int))),
            same_classes(result@, concat_runs(runs@.take(k as int))),
        decreases runs@.len() - k,
    {
        let ghost prev = result@;
        proof {
            lemma_concat_runs_push(runs@.take(k as int), runs@[k as int]);
            assert(runs@.take(k as int).push(runs@[k as int]) =~= runs@.take(k + 1));
            lemma_concat_runs_take(runs@, k + 1);
            prev.to_multiset_ensures();
            concat_runs(runs@.take(k as int)).to_multiset_ensures();
            assert(sorted(runs@[k as int]@));
        }
        result = merge(result.as_slice(), runs[k].as_slice());
        proof {
            let part = concat_runs(runs@.take(k as int));
            assert(same_classes(runs@[k as int]@, runs@[k as int]@));
            lemma_same_classes_add(prev, runs@[k as int]@, part, runs@[k as int]@);
            vstd::seq_lib::lemma_multiset_commutative(prev, runs@[k as int]@);
            vstd::seq_lib::lemma_multiset_commutative(part, runs@[k as int]@);
        }
        k += 1;
    }
    proof {
        assert(runs@.take(runs@.len() as int) =~= runs@);
    }
    result
}

} // verus!
