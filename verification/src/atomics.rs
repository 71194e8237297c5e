//! The one atomic operation that the free lists need.

use vstd::prelude::*;

verus! {

/// Stores `new` in `slot` if it holds `current`, and returns what it held.
///
/// The caller holds the slot exclusively, so between reading the slot and
/// this call no one else can have changed it.
pub fn compare_and_swap(slot: &mut usize, current: usize, new: usize) -> (seen: usize)
    ensures
        seen == *old(slot),
        *final(slot) == (if *old(slot) == current {
            new
        } else {
            *old(slot)
        }),
{
    let seen = *slot;
    if seen == current {
        *slot = new;
    }
    seen
}

} // verus!
