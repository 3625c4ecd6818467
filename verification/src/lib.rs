//! In-place comparison sorting: insertion sort, heap sort, and an
//! introspective sort that combines quicksort, heap sort and insertion sort.
//!
//! Every sort runs under a caller-supplied strict less-than relation (a
//! [`StrictOrder`] comparator) and is verified to leave the sequence
//! nondecreasing under that relation while keeping exactly the elements it
//! started with.

mod heap;
mod insertion;
mod intro;
mod order;
mod perm;

pub use intro::introsort;
pub use intro::introsort_by;

pub use heap::heapsort;
pub use heap::heapsort_by;
pub use insertion::insert_position;
pub use insertion::insertion_sort_spec;
pub use insertion::insertsort;
pub use insertion::insertsort_by;
pub use insertion::lemma_insertion_sort_of_sorted;
pub use insertion::lemma_insertion_sort_stable;
pub use insertion::tied_with;

pub use order::Ascending;
pub use order::Descending;
pub use order::NaturalOrder;
pub use order::StrictOrder;
pub use order::lemma_sorted_permutation_unique;
pub use order::sorted;
pub use order::sorted_range;
pub use perm::lemma_short_permutation_identical;
