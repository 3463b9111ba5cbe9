//! The reflected binary code of a word.

use vstd::prelude::*;

verus! {

/// The Gray code of `n`: the word exclusive-ored with itself shifted right
/// by one, so consecutive inputs differ in a single output bit.
pub fn gray_code(n: u32) -> (r: u32)
    ensures
        r == n ^ (n >> 1),
{
    n ^ (n >> 1)
}

} // verus!
