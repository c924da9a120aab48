//! A family of quicksort variants over any comparable, cloneable element
//! type: an in-place sort built on a swap-based partition step, several
//! functional sorts that build new vectors, a variant whose filtering passes
//! run on a thread pool, and the standard library's unstable sort as a
//! baseline.
//!
//! Every sort is specified the same way: its output is a permutation of its
//! input, ordered non-decreasingly, provided the element type's comparison is
//! a total preorder and (for the sorts that copy elements) its `clone`
//! returns an equal value. The partition step and the sorts that always take
//! the first element as pivot are deterministic, and their contracts also
//! give the exact result.

pub mod baseline;
pub mod functional;
pub mod in_place;
pub mod lemmas;
pub mod order;
pub mod parallel;
pub mod partition;

pub use baseline::quicksort_stdlib;
pub use functional::{
    quicksort, quicksort_partition, quicksort_partition_v1, quicksort_partition_v2,
    quicksort_partition_v3,
};
pub use in_place::quicksort_mut;
pub use parallel::quicksort_par;
