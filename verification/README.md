# sort_algo

Sorting algorithms written in Verus, each with a proved contract:

- `quicksort_lomuto`, `quicksort_hoare`, `heapsort` sort a slice in place;
- `mergesort` and `timsort` return a new, stably sorted vector;
- `counting_sort` sorts `usize` values, `radix_sort` sorts `u64` values in place.

Layout of `src/`:

- `order.rs`: the total order that `Ord` promises, over vstd's specification of comparisons;
- `perm.rs`: sortedness, permutations, stability (equal-key classes) and shared lemmas;
- one module per algorithm (`quicksort`, `heapsort`, `mergesort`, `timsort`, `counting`, `radix`);
- `laws.rs`: the results are determined by the input, so the sorts agree.
