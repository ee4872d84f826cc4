//! Verified array algorithms: merge sort over a caller-supplied scratch
//! buffer, in-place rotation, and greatest common divisors.

pub mod merge_sort;
pub mod sorted;
pub mod rotation;
pub mod array_rotate;
pub mod divisors;
pub mod cycle_rotate;
pub mod math;
pub mod fork_join;
