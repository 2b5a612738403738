//! What the queue needs of byte vectors and slices beyond what `vstd` says of
//! them.

use vstd::prelude::*;

verus! {

/// `[u8]::copy_from_slice`: the destination, which must be as long as the
/// source, holds the bytes of the source afterwards.
#[verifier::external_body]
pub(crate) fn copy_bytes(dst: &mut [u8], src: &[u8])
    requires
        old(dst)@.len() == src@.len(),
    ensures
        final(dst)@ == src@,
{
    dst.copy_from_slice(src)
}

/// `Vec::capacity`: the number of bytes that the vector can hold without
/// being moved, which is never less than its length.
#[verifier::external_body]
pub(crate) fn capacity_of(v: &Vec<u8>) -> (cap: usize)
    ensures
        cap >= v@.len(),
{
    v.capacity()
}

/// Puts `src` into `v` from position `at` on, over what was there.
pub(crate) fn overwrite(v: &mut Vec<u8>, at: usize, src: &[u8])
    requires
        at + src@.len() <= old(v)@.len(),
    ensures
        final(v)@ == old(v)@.take(at as int) + src@ + old(v)@.skip(at + src@.len()),
{
    let (_, rest) = v.as_mut_slice().split_at_mut(at);
    let (dst, _) = rest.split_at_mut(src.len());
    copy_bytes(dst, src);
}

} // verus!
