//! Bitonic sort: an in-place sorting network for slices whose length is a
//! power of two, in three stages of generality.
//!
//! * [`first`] sorts `u32` values.
//! * [`second`] sorts any `Ord` type by its natural order.
//! * [`third`] sorts by a caller-supplied comparator and rejects lengths
//!   that are not a power of two.
//!
//! [`order`] and [`comparator`] hold the vocabulary of the contracts (orders,
//! sortedness, powers of two, what a comparator decides), [`bitonic`] the
//! theory of the merge step, and [`message`] the text of the length error.
//! [`utils`] makes reproducible test data. [`std_specs`] lists what is
//! assumed of the standard library.
use vstd::prelude::*;

pub mod bitonic;
pub mod comparator;
pub mod first;
pub mod message;
pub mod order;
pub mod second;
pub mod std_specs;
pub mod third;
pub mod utils;

verus! {

/// The direction in which a sequence is to be sorted.
pub enum SortOrder {
    /// Smallest element first.
    Ascending,
    /// Largest element first.
    Descending,
}

} // verus!
