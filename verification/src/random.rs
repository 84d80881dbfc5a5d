//! Random numbers, of which only their range is known.

use vstd::prelude::*;

verus! {

/// `rand::random_range` on the integers from `low` up to, not including,
/// `high`: some integer of that range. The range must not be empty.
#[verifier::external_body]
pub(crate) fn random_range(low: i32, high: i32) -> (value: i32)
    requires
        low < high,
    ensures
        low <= value < high,
{
    rand::random_range(low..high)
}

} // verus!
