use vstd::prelude::*;

use crate::order::permutation;

verus! {

/// Puts the elements of `numbers` in a random order by calling `fastrand::shuffle`, which
/// walks the slice exchanging each position with one at or before it that the thread's
/// generator picks. Stated: the result holds the same elements as before. Not stated:
/// which order comes out, which rests on the generator's state.
#[verifier::external_body]
pub(crate) fn shuffle(numbers: &mut Vec<u16>)
    ensures
        permutation(final(numbers)@, old(numbers)@),
{
    fastrand::shuffle(numbers.as_mut_slice());
}

} // verus!
