//! Sorting algorithms with machine-checked contracts: quicksort (Lomuto and
//! Hoare partitioning), mergesort, heapsort, a timsort-style run merger,
//! counting sort and LSD radix sort.
//!
//! Every sort returns its input in ascending order, as a rearrangement of
//! it; mergesort and timsort keep equal elements in their input order.

pub mod order;
pub mod perm;
pub mod quicksort;
pub mod heapsort;
pub mod mergesort;
pub mod timsort;
pub mod counting;
pub mod radix;
pub mod laws;

pub use crate::counting::counting_sort;
pub use crate::heapsort::heapsort;
pub use crate::mergesort::mergesort;
pub use crate::quicksort::{quicksort_hoare, quicksort_lomuto};
pub use crate::radix::radix_sort;
pub use crate::timsort::timsort;
