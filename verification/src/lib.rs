//! An in-place, byte-wise, recursive bucket-partitioning sort (an "American
//! flag" sort) for elements whose sort key can be viewed as a sequence of
//! bytes: text, byte buffers, and fixed-width unsigned integers.
//!
//! The engine partitions a working range by the key byte at the current
//! depth, places every element into its target bucket with in-place swaps,
//! and recurses into each bucket at the next depth; small ranges are handed
//! to a comparison sort over full keys. The sort is unstable: elements whose
//! keys are equal may be reordered.
//!
//! Every public sorting routine is verified to return a permutation of its
//! input (no element lost, duplicated, or changed) that is byte-
//! lexicographically non-decreasing by key, a key that is a strict prefix of
//! another sorting first.

pub mod count;
pub mod digit;
pub mod engine;
pub mod laws;
pub mod order;

pub use digit::DigitAt;
pub use engine::sort_unstable_by;
pub use engine::sort_unstable_by_digit;
pub use engine::AFSortable;
pub use engine::FALLBACK_THRESHOLD;
