//! Contracts assumed of standard-library functions that vstd leaves
//! unspecified. Nothing here is proved.
use vstd::prelude::*;
use crate::order::power_of_two;

verus! {

/// `<[E]>::swap` exchanges the elements at `a` and `b` and leaves every other
/// element in place. It panics when an index is out of bounds, so both must
/// be within the slice.
pub assume_specification<E>[ <[E]>::swap ](slice: &mut [E], a: usize, b: usize)
    requires
        a < old(slice)@.len(),
        b < old(slice)@.len(),
    ensures
        final(slice)@ == old(slice)@.update(a as int, old(slice)@[b as int]).update(
            b as int,
            old(slice)@[a as int],
        ),
;

/// `usize::is_power_of_two` tells whether `n` is `2^k` for some `k >= 0`; it
/// is `false` for zero.
pub assume_specification[ usize::is_power_of_two ](n: usize) -> (r: bool)
    ensures
        r == power_of_two(n as nat),
;

} // verus!
