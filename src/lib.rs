//! Least-significant-bit radix sort of `u32` values, built from a stable
//! one-bit split, in a sequential and a data-parallel variant.
use vstd::prelude::*;

pub mod engine;
pub mod model;
pub mod radix_sort;
pub mod radix_sort_parallel;

verus! {

/// Why a sort or a split was refused.
#[derive(Debug, Clone, Copy, PartialEq, Eq, Structural)]
pub enum SortError {
    /// The bound on the values is 0, which gives no bit to sort on.
    InvalidBound,
    /// The flags and the elements of a split differ in number.
    LengthMismatch,
}

} // verus!
