pub mod addr;
pub mod p2c;
pub mod registry;

use vstd::prelude::*;

verus! {

/// Sum of two lengths; callers must keep the sum within `usize`.
pub fn add(left: usize, right: usize) -> (r: usize)
    requires
        left + right <= usize::MAX,
    ensures
        r == left + right,
{
    left + right
}

} // verus!
