//! Small stack-first scratch buffers.
//!
//! The bit helper and the block transform work on a handful of bytes or
//! words at a time. They keep them in `smallvec` vectors, which stay on the
//! stack up to their inline capacity. The items below are the only way the
//! verified code touches those vectors; their contracts are taken on trust
//! from `smallvec`'s source.

use smallvec::SmallVec;
use vstd::prelude::*;

verus! {

/// A scratch buffer of bytes, inline up to eight of them.
#[verifier::external_body]
pub struct ByteScratch {
    inner: SmallVec<[u8; 8]>,
}

/// A scratch buffer of 32-bit words, inline up to four of them.
#[verifier::external_body]
pub struct WordScratch {
    inner: SmallVec<[u32; 4]>,
}

/// The bytes that a byte scratch buffer holds, in order.
pub uninterp spec fn scratch_bytes(buffer: ByteScratch) -> Seq<u8>;

/// The words that a word scratch buffer holds, in order.
pub uninterp spec fn scratch_words(buffer: WordScratch) -> Seq<u32>;

/// `SmallVec::from_elem(0u8, len)`: a vector of `len` zero bytes.
#[verifier::external_body]
pub(crate) fn zeroed_bytes(len: usize) -> (buffer: ByteScratch)
    ensures
        scratch_bytes(buffer) == Seq::new(len as nat, |i: int| 0u8),
{
    ByteScratch { inner: SmallVec::from_elem(0u8, len) }
}

/// `SmallVec::as_mut_slice`: the vector's elements as one mutable slice.
/// What the vector holds once the slice is given back is what was last
/// written to the slice.
#[verifier::external_body]
pub(crate) fn bytes_mut(buffer: &mut ByteScratch) -> (slice: &mut [u8])
    ensures
        slice@ == scratch_bytes(*old(buffer)),
        scratch_bytes(*final(buffer)) == final(slice)@,
{
    buffer.inner.as_mut_slice()
}

/// `SmallVec::from_elem(0u32, len)`: a vector of `len` zero words.
#[verifier::external_body]
pub(crate) fn zeroed_words(len: usize) -> (buffer: WordScratch)
    ensures
        scratch_words(buffer) == Seq::new(len as nat, |i: int| 0u32),
{
    WordScratch { inner: SmallVec::from_elem(0u32, len) }
}

/// `SmallVec::as_mut_slice`: the vector's elements as one mutable slice.
/// What the vector holds once the slice is given back is what was last
/// written to the slice.
#[verifier::external_body]
pub(crate) fn words_mut(buffer: &mut WordScratch) -> (slice: &mut [u32])
    ensures
        slice@ == scratch_words(*old(buffer)),
        scratch_words(*final(buffer)) == final(slice)@,
{
    buffer.inner.as_mut_slice()
}

} // verus!
