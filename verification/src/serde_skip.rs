//! What is left out of an answer because its absence already says it.
use vstd::prelude::*;

verus! {

/// Whether a flag is left out: its absence already means false.
pub fn is_false(value: &bool) -> (b: bool)
    ensures
        b == !*value,
{
    !*value
}

/// Whether a count is left out: its absence already means none.
pub fn is_zero(value: &usize) -> (b: bool)
    ensures
        b == (*value == 0),
{
    *value == 0
}

} // verus!
