//! The calls into `postcard`, which encodes and decodes the values.

use vstd::prelude::*;
use crate::layout::Fragment;
use crate::queue::SerdeQueue;
use crate::writer::Writer;

verus! {

/// `postcard::Error`.
#[verifier::external_type_specification]
#[verifier::external_body]
pub struct ExPostcardError(postcard::Error);

/// A value could not be encoded. Nothing of it counts as pushed.
#[derive(Debug)]
pub struct EncodeError {
    pub cause: postcard::Error,
}

/// A record could not be decoded. The queue has counted it as popped all the
/// same, and is of no use any more.
#[derive(Debug)]
pub struct DecodeError {
    pub cause: postcard::Error,
}

/// `postcard::to_io`, with a writer that stands at position `p` of `q`.
///
/// `to_io` hands the encoded value to the writer piece by piece, by calls of
/// `Writer::write`, and touches the writer in no other way but for a last call
/// of `flush`, which changes nothing. So whether it succeeds or not, it
/// leaves the queue as a run of writes leaves it, each of them made with a
/// capacity that was not less than the length of the storage; and when it
/// succeeds, the position that it returns is where the last of them ended.
#[verifier::external_body]
pub(crate) fn encode_at<T: serde::Serialize>(q: &mut SerdeQueue, p: usize, value: &T) -> (r: Result<
    usize,
    postcard::Error,
>)
    requires
        old(q).cursor(p).inv(),
    ensures
        r matches Ok(stop) ==> exists|frags: Seq<Fragment>|
            old(q).cursor(p).admits(frags) && final(q).cursor(stop) == #[trigger] old(q).cursor(
                p,
            ).written(frags),
        r is Err ==> exists|frags: Seq<Fragment>|
            old(q).cursor(p).admits(frags) && final(q)@ == #[trigger] old(q).cursor(p).written(
                frags,
            ).layout,
{
    match postcard::to_io(value, Writer { q, p }) {
        Ok(w) => Ok(w.p),
        Err(e) => Err(e),
    }
}

/// `postcard::take_from_bytes`: the decoded value comes with the bytes that
/// were not used for it, which are the end of `s`.
pub assume_specification<'a, T>[ postcard::take_from_bytes::<'a, T> ](s: &'a [u8]) -> (r: Result<
    (T, &'a [u8]),
    postcard::Error,
>) where T: serde::Deserialize<'a>
    ensures
        r matches Ok((_, rest)) ==> rest@.len() <= s@.len() && rest@ == s@.skip(s@.len() - rest@.len()),
;

} // verus!
