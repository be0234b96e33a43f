use sort_algo::{
    counting_sort, heapsort, mergesort, quicksort_hoare, quicksort_lomuto, radix_sort, timsort,
};
use std::cmp::Ordering;

/// Ordered by `key` alone, so that equal keys with different tags show
/// whether a sort keeps their input order.
#[derive(Clone, Copy, Debug)]
struct Item {
    key: u32,
    tag: u32,
}

impl PartialEq for Item {
    fn eq(&self, other: &Self) -> bool {
        self.key == other.key
    }
}

impl Eq for Item {}

impl PartialOrd for Item {
    fn partial_cmp(&self, other: &Self) -> Option<Ordering> {
        Some(self.cmp(other))
    }
}

impl Ord for Item {
    fn cmp(&self, other: &Self) -> Ordering {
        self.key.cmp(&other.key)
    }
}

fn pseudo_random(seed: u64, n: usize, modulus: u64) -> Vec<u64> {
    let mut state = seed;
    let mut out = Vec::new();
    for _ in 0..n {
        state = state.wrapping_mul(6364136223846793005).wrapping_add(1442695040888963407);
        out.push((state >> 33) % modulus);
    }
    out
}

fn tags_of(items: &[Item]) -> Vec<(u32, u32)> {
    items.iter().map(|it| (it.key, it.tag)).collect()
}

fn stable_reference(items: &[Item]) -> Vec<(u32, u32)> {
    let mut v = tags_of(items);
    v.sort_by_key(|p| p.0);
    v
}

#[test]
fn test_hoare_pivot_moved_by_swap() {
    let mut arr = vec![2, 3, 1, 0];
    quicksort_hoare(&mut arr);
    assert_eq!(arr, vec![0, 1, 2, 3]);
    let mut arr = vec![1, 3, 4, 2, 0];
    quicksort_hoare(&mut arr);
    assert_eq!(arr, vec![0, 1, 2, 3, 4]);
}

#[test]
fn test_every_sort_on_all_small_inputs() {
    for n in 0..7u32 {
        let total = (n as usize).pow(n);
        for code in 0..total {
            let mut c = code;
            let mut input: Vec<i32> = Vec::new();
            for _ in 0..n {
                input.push((c % n as usize) as i32);
                c /= n as usize;
            }
            let mut expected = input.clone();
            expected.sort();
            let mut a = input.clone();
            quicksort_lomuto(&mut a);
            assert_eq!(a, expected);
            let mut b = input.clone();
            quicksort_hoare(&mut b);
            assert_eq!(b, expected);
            let mut h = input.clone();
            heapsort(&mut h);
            assert_eq!(h, expected);
            assert_eq!(mergesort(&input), expected);
            assert_eq!(timsort(&input), expected);
            let us: Vec<usize> = input.iter().map(|&x| x as usize).collect();
            let us_sorted: Vec<usize> = expected.iter().map(|&x| x as usize).collect();
            assert_eq!(counting_sort(&us), us_sorted);
            let mut r: Vec<u64> = input.iter().map(|&x| x as u64).collect();
            radix_sort(&mut r);
            assert_eq!(r, expected.iter().map(|&x| x as u64).collect::<Vec<_>>());
        }
    }
}

#[test]
fn test_sorts_agree_on_longer_inputs() {
    for seed in 1..20u64 {
        let raw = pseudo_random(seed, 300, if seed % 2 == 0 { 7 } else { 1_000_000 });
        let input: Vec<i64> = raw.iter().map(|&x| x as i64 - 3).collect();
        let mut expected = input.clone();
        expected.sort();
        let mut a = input.clone();
        quicksort_lomuto(&mut a);
        let mut b = input.clone();
        quicksort_hoare(&mut b);
        let mut h = input.clone();
        heapsort(&mut h);
        assert_eq!(a, expected);
        assert_eq!(b, expected);
        assert_eq!(h, expected);
        assert_eq!(mergesort(&input), expected);
        assert_eq!(timsort(&input), expected);
    }
}

#[test]
fn test_mergesort_keeps_equal_keys_in_order() {
    let raw = pseudo_random(7, 200, 5);
    let items: Vec<Item> = raw.iter().enumerate().map(|(i, &k)| Item { key: k as u32, tag: i as u32 }).collect();
    assert_eq!(tags_of(&mergesort(&items)), stable_reference(&items));
}

#[test]
fn test_timsort_keeps_equal_keys_in_order() {
    for seed in 1..10u64 {
        let raw = pseudo_random(seed, 150, 6);
        let items: Vec<Item> = raw.iter().enumerate().map(|(i, &k)| Item { key: k as u32, tag: i as u32 }).collect();
        assert_eq!(tags_of(&timsort(&items)), stable_reference(&items));
    }
}

#[test]
fn test_timsort_descending_run_with_equal_keys() {
    // a strictly descending run stops at the first repeated key
    let keys = [9u32, 7, 7, 5, 3, 3, 1, 8, 8, 2];
    let items: Vec<Item> = keys.iter().enumerate().map(|(i, &k)| Item { key: k, tag: i as u32 }).collect();
    assert_eq!(tags_of(&timsort(&items)), stable_reference(&items));
    let long: Vec<Item> = (0..100u32).map(|i| Item { key: 100 - i / 2, tag: i }).collect();
    assert_eq!(tags_of(&timsort(&long)), stable_reference(&long));
}

#[test]
fn test_stable_sorts_agree() {
    let raw = pseudo_random(11, 120, 4);
    let items: Vec<Item> = raw.iter().enumerate().map(|(i, &k)| Item { key: k as u32, tag: i as u32 }).collect();
    assert_eq!(tags_of(&mergesort(&items)), tags_of(&timsort(&items)));
}

#[test]
fn test_stable_sort_keeps_sorted_input() {
    let items: Vec<Item> = (0..50u32).map(|i| Item { key: i / 3, tag: 50 - i }).collect();
    assert_eq!(tags_of(&mergesort(&items)), tags_of(&items));
    assert_eq!(tags_of(&timsort(&items)), tags_of(&items));
}

#[test]
fn test_unstable_sorts_keep_every_element() {
    let raw = pseudo_random(5, 80, 3);
    let items: Vec<Item> = raw.iter().enumerate().map(|(i, &k)| Item { key: k as u32, tag: i as u32 }).collect();
    let mut expected = tags_of(&items);
    expected.sort();
    for which in 0..3 {
        let mut v = items.clone();
        match which {
            0 => quicksort_lomuto(&mut v),
            1 => quicksort_hoare(&mut v),
            _ => heapsort(&mut v),
        }
        for w in v.windows(2) {
            assert!(w[0].key <= w[1].key);
        }
        let mut got = tags_of(&v);
        got.sort();
        assert_eq!(got, expected);
    }
}

#[test]
fn test_counting_sort_large_values() {
    let arr = vec![1000usize, 0, 999, 1000, 17, 0];
    assert_eq!(counting_sort(&arr), vec![0, 0, 17, 999, 1000, 1000]);
}

#[test]
fn test_radix_sort_every_byte() {
    let mut arr: Vec<u64> = vec![
        0x0100_0000_0000_0000,
        0x00FF_FFFF_FFFF_FFFF,
        0x0000_0000_0001_0000,
        0x0000_0000_0000_FFFF,
        0x8000_0000_0000_0001,
        0x8000_0000_0000_0000,
        7,
        7,
    ];
    radix_sort(&mut arr);
    assert_eq!(
        arr,
        vec![
            7,
            7,
            0x0000_0000_0000_FFFF,
            0x0000_0000_0001_0000,
            0x00FF_FFFF_FFFF_FFFF,
            0x0100_0000_0000_0000,
            0x8000_0000_0000_0000,
            0x8000_0000_0000_0001,
        ]
    );
}

#[test]
fn test_radix_sort_random() {
    let mut arr = pseudo_random(3, 500, u64::MAX);
    let mut expected = arr.clone();
    expected.sort();
    radix_sort(&mut arr);
    assert_eq!(arr, expected);
}

#[test]
fn test_heapsort_two_and_three() {
    let mut a = vec![2, 1];
    heapsort(&mut a);
    assert_eq!(a, vec![1, 2]);
    let mut b = vec![1, 3, 2];
    heapsort(&mut b);
    assert_eq!(b, vec![1, 2, 3]);
}

#[test]
fn test_reverse_slice() {
    let mut odd = vec![1, 2, 3, 4, 5];
    sort_algo::perm::reverse_slice(&mut odd);
    assert_eq!(odd, vec![5, 4, 3, 2, 1]);
    let mut even = vec![1, 2, 3, 4];
    sort_algo::perm::reverse_slice(&mut even);
    assert_eq!(even, vec![4, 3, 2, 1]);
    let mut empty: Vec<i32> = vec![];
    sort_algo::perm::reverse_slice(&mut empty);
    assert!(empty.is_empty());
}
