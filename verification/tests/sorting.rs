use sort_algo::{
    counting_sort, heapsort, mergesort, quicksort_hoare, quicksort_lomuto, radix_sort, timsort,
};

// === Quicksort Lomuto Tests ===

#[test]
fn test_quicksort_lomuto_basic() {
    let mut arr = vec![3, 1, 4, 1, 5, 9, 2, 6];
    quicksort_lomuto(&mut arr);
    assert_eq!(arr, vec![1, 1, 2, 3, 4, 5, 6, 9]);
}

#[test]
fn test_quicksort_lomuto_empty() {
    let mut arr: Vec<i32> = vec![];
    quicksort_lomuto(&mut arr);
    assert!(arr.is_empty());
}

#[test]
fn test_quicksort_lomuto_single() {
    let mut arr = vec![42];
    quicksort_lomuto(&mut arr);
    assert_eq!(arr, vec![42]);
}

#[test]
fn test_quicksort_lomuto_sorted() {
    let mut arr = vec![1, 2, 3, 4, 5];
    quicksort_lomuto(&mut arr);
    assert_eq!(arr, vec![1, 2, 3, 4, 5]);
}

#[test]
fn test_quicksort_lomuto_reverse() {
    let mut arr = vec![5, 4, 3, 2, 1];
    quicksort_lomuto(&mut arr);
    assert_eq!(arr, vec![1, 2, 3, 4, 5]);
}

#[test]
fn test_quicksort_lomuto_duplicates() {
    let mut arr = vec![3, 3, 3, 1, 1, 2, 2];
    quicksort_lomuto(&mut arr);
    assert_eq!(arr, vec![1, 1, 2, 2, 3, 3, 3]);
}

// === Quicksort Hoare Tests ===

#[test]
fn test_quicksort_hoare_basic() {
    let mut arr = vec![3, 1, 4, 1, 5, 9, 2, 6];
    quicksort_hoare(&mut arr);
    assert_eq!(arr, vec![1, 1, 2, 3, 4, 5, 6, 9]);
}

#[test]
fn test_quicksort_hoare_empty() {
    let mut arr: Vec<i32> = vec![];
    quicksort_hoare(&mut arr);
    assert!(arr.is_empty());
}

#[test]
fn test_quicksort_hoare_single() {
    let mut arr = vec![42];
    quicksort_hoare(&mut arr);
    assert_eq!(arr, vec![42]);
}

#[test]
fn test_quicksort_hoare_reverse() {
    let mut arr = vec![10, 9, 8, 7, 6, 5, 4, 3, 2, 1];
    quicksort_hoare(&mut arr);
    assert_eq!(arr, vec![1, 2, 3, 4, 5, 6, 7, 8, 9, 10]);
}

#[test]
fn test_quicksort_hoare_two_elements() {
    let mut arr = vec![2, 1];
    quicksort_hoare(&mut arr);
    assert_eq!(arr, vec![1, 2]);
}

// === Mergesort Tests ===

#[test]
fn test_mergesort_basic() {
    let arr = vec![3, 1, 4, 1, 5, 9, 2, 6];
    let sorted = mergesort(&arr);
    assert_eq!(sorted, vec![1, 1, 2, 3, 4, 5, 6, 9]);
}

#[test]
fn test_mergesort_empty() {
    let arr: Vec<i32> = vec![];
    let sorted = mergesort(&arr);
    assert!(sorted.is_empty());
}

#[test]
fn test_mergesort_single() {
    let arr = vec![7];
    assert_eq!(mergesort(&arr), vec![7]);
}

#[test]
fn test_mergesort_stability() {
    // Use pairs to check stability: (key, original_index)
    let arr = vec![(3, 0), (1, 1), (3, 2), (1, 3)];
    let sorted = mergesort(&arr);
    // Elements with same key should maintain original order
    assert_eq!(sorted[0], (1, 1));
    assert_eq!(sorted[1], (1, 3));
    assert_eq!(sorted[2], (3, 0));
    assert_eq!(sorted[3], (3, 2));
}

#[test]
fn test_mergesort_sorted() {
    let arr = vec![1, 2, 3, 4, 5];
    assert_eq!(mergesort(&arr), vec![1, 2, 3, 4, 5]);
}

#[test]
fn test_mergesort_reverse() {
    let arr = vec![5, 4, 3, 2, 1];
    assert_eq!(mergesort(&arr), vec![1, 2, 3, 4, 5]);
}

// === Heapsort Tests ===

#[test]
fn test_heapsort_basic() {
    let mut arr = vec![3, 1, 4, 1, 5, 9, 2, 6];
    heapsort(&mut arr);
    assert_eq!(arr, vec![1, 1, 2, 3, 4, 5, 6, 9]);
}

#[test]
fn test_heapsort_empty() {
    let mut arr: Vec<i32> = vec![];
    heapsort(&mut arr);
    assert!(arr.is_empty());
}

#[test]
fn test_heapsort_single() {
    let mut arr = vec![1];
    heapsort(&mut arr);
    assert_eq!(arr, vec![1]);
}

#[test]
fn test_heapsort_reverse() {
    let mut arr = vec![5, 4, 3, 2, 1];
    heapsort(&mut arr);
    assert_eq!(arr, vec![1, 2, 3, 4, 5]);
}

#[test]
fn test_heapsort_duplicates() {
    let mut arr = vec![5, 5, 5, 5, 5];
    heapsort(&mut arr);
    assert_eq!(arr, vec![5, 5, 5, 5, 5]);
}

// === Timsort Tests ===

#[test]
fn test_timsort_basic() {
    let arr = vec![3, 1, 4, 1, 5, 9, 2, 6];
    let sorted = timsort(&arr);
    assert_eq!(sorted, vec![1, 1, 2, 3, 4, 5, 6, 9]);
}

#[test]
fn test_timsort_empty() {
    let arr: Vec<i32> = vec![];
    assert!(timsort(&arr).is_empty());
}

#[test]
fn test_timsort_single() {
    let arr = vec![42];
    assert_eq!(timsort(&arr), vec![42]);
}

#[test]
fn test_timsort_already_sorted() {
    let arr = vec![1, 2, 3, 4, 5];
    assert_eq!(timsort(&arr), vec![1, 2, 3, 4, 5]);
}

#[test]
fn test_timsort_descending_run() {
    let arr = vec![5, 4, 3, 2, 1];
    assert_eq!(timsort(&arr), vec![1, 2, 3, 4, 5]);
}

#[test]
fn test_timsort_mixed_runs() {
    // Ascending then descending then ascending
    let arr = vec![1, 2, 3, 7, 6, 5, 4, 8, 9, 10];
    assert_eq!(timsort(&arr), vec![1, 2, 3, 4, 5, 6, 7, 8, 9, 10]);
}

// === Counting Sort Tests ===

#[test]
fn test_counting_sort_basic() {
    let arr = vec![3, 1, 4, 1, 5, 9, 2, 6];
    assert_eq!(counting_sort(&arr), vec![1, 1, 2, 3, 4, 5, 6, 9]);
}

#[test]
fn test_counting_sort_empty() {
    let arr: Vec<usize> = vec![];
    assert!(counting_sort(&arr).is_empty());
}

#[test]
fn test_counting_sort_single() {
    assert_eq!(counting_sort(&vec![5]), vec![5]);
}

#[test]
fn test_counting_sort_stability() {
    // Counting sort is stable, so equal elements maintain order
    let arr = vec![3, 1, 4, 1, 5];
    let sorted = counting_sort(&arr);
    assert_eq!(sorted, vec![1, 1, 3, 4, 5]);
}

#[test]
fn test_counting_sort_all_zeros() {
    let arr = vec![0, 0, 0, 0];
    assert_eq!(counting_sort(&arr), vec![0, 0, 0, 0]);
}

// === Radix Sort Tests ===

#[test]
fn test_radix_sort_basic() {
    let mut arr = vec![3, 1, 4, 1, 5, 9, 2, 6];
    radix_sort(&mut arr);
    assert_eq!(arr, vec![1, 1, 2, 3, 4, 5, 6, 9]);
}

#[test]
fn test_radix_sort_empty() {
    let mut arr: Vec<u64> = vec![];
    radix_sort(&mut arr);
    assert!(arr.is_empty());
}

#[test]
fn test_radix_sort_single() {
    let mut arr = vec![42u64];
    radix_sort(&mut arr);
    assert_eq!(arr, vec![42]);
}

#[test]
fn test_radix_sort_large_numbers() {
    let mut arr = vec![u64::MAX, 0, 1, u64::MAX - 1];
    radix_sort(&mut arr);
    assert_eq!(arr, vec![0, 1, u64::MAX - 1, u64::MAX]);
}

#[test]
fn test_radix_sort_reverse() {
    let mut arr = vec![5u64, 4, 3, 2, 1];
    radix_sort(&mut arr);
    assert_eq!(arr, vec![1, 2, 3, 4, 5]);
}

// === Cross-algorithm comparison tests ===

#[test]
fn test_all_algorithms_agree() {
    let input = vec![64, 25, 12, 22, 11, 90, 1, 36, 7, 42];
    let expected = {
        let mut v = input.clone();
        v.sort();
        v
    };

    let mut arr1 = input.clone();
    quicksort_lomuto(&mut arr1);
    assert_eq!(arr1, expected);

    let mut arr2 = input.clone();
    quicksort_hoare(&mut arr2);
    assert_eq!(arr2, expected);

    assert_eq!(mergesort(&input), expected);

    let mut arr4 = input.clone();
    heapsort(&mut arr4);
    assert_eq!(arr4, expected);

    assert_eq!(timsort(&input), expected);

    let usize_input: Vec<usize> = input.iter().map(|&x| x as usize).collect();
    assert_eq!(counting_sort(&usize_input), expected.iter().map(|&x| x as usize).collect::<Vec<_>>());

    let mut arr6: Vec<u64> = input.iter().map(|&x| x as u64).collect();
    radix_sort(&mut arr6);
    assert_eq!(arr6, expected.iter().map(|&x| x as u64).collect::<Vec<_>>());
}

#[test]
fn test_vs_std_sort_random() {
    let mut rng_data: Vec<i32> = (0..100).rev().collect();
    let mut std_sorted = rng_data.clone();
    std_sorted.sort();

    quicksort_lomuto(&mut rng_data);
    assert_eq!(rng_data, std_sorted);
}

#[test]
fn test_mergesort_large_random() {
    let arr: Vec<i32> = (0..500).rev().collect();
    let mut expected = arr.clone();
    expected.sort();
    assert_eq!(mergesort(&arr), expected);
}
