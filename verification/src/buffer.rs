//! The growable byte buffer of the `bytes` crate, as far as the codec
//! uses it.
//!
//! A `BytesMut` is opaque to the verifier. Its content has a name here,
//! and the methods that the codec calls are given contracts over that
//! name, taken on trust from the documentation and source of `bytes`.

use bytes::BytesMut;
use vstd::prelude::*;

verus! {

/// `bytes::BytesMut`, a unique handle on a growable run of bytes. Nothing
/// of its inside is known here.
#[verifier::external_type_specification]
#[verifier::external_body]
pub struct ExBytesMut(BytesMut);

/// The bytes that a buffer holds, in order.
pub uninterp spec fn buffered(buffer: BytesMut) -> Seq<u8>;

/// `BytesMut::len`: the number of bytes in the buffer.
pub assume_specification[ BytesMut::len ](buffer: &BytesMut) -> (len: usize)
    ensures
        len == buffered(*buffer).len(),
;

/// `BytesMut::is_empty`: whether the buffer holds no byte.
pub assume_specification[ BytesMut::is_empty ](buffer: &BytesMut) -> (empty: bool)
    ensures
        empty == (buffered(*buffer).len() == 0),
;

/// `BytesMut::extend_from_slice`: the bytes of `extend` are put behind
/// those that the buffer holds. The buffer grows as needed; its new
/// length has to fit in `usize`.
pub assume_specification[ BytesMut::extend_from_slice ](buffer: &mut BytesMut, extend: &[u8])
    requires
        buffered(*old(buffer)).len() + extend@.len() <= usize::MAX,
    ensures
        buffered(*final(buffer)) == buffered(*old(buffer)) + extend@,
;

/// `BytesMut::split_to`: the first `at` bytes leave the buffer and are
/// handed back as a buffer of their own; the rest stays.
pub assume_specification[ BytesMut::split_to ](buffer: &mut BytesMut, at: usize) -> (head: BytesMut)
    requires
        at <= buffered(*old(buffer)).len(),
    ensures
        buffered(head) == buffered(*old(buffer)).take(at as int),
        buffered(*final(buffer)) == buffered(*old(buffer)).skip(at as int),
;

/// `BytesMut` as a byte slice (`AsRef<[u8]>`): the bytes that the buffer
/// holds.
#[verifier::external_body]
pub(crate) fn buffer_bytes(buffer: &BytesMut) -> (bytes: &[u8])
    ensures
        bytes@ == buffered(*buffer),
{
    buffer.as_ref()
}

} // verus!
