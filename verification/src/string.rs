//! Strings of a fixed width: as many bytes as the width says, the text
//! first, zeros behind it.

use vstd::prelude::*;

verus! {

/// A trait for transforming a string upon serialization.
pub trait StringTransform {
    /// Rewrites the bytes in place; a slice keeps its length.
    fn process(bytes: &mut [u8])
        ensures
            final(bytes)@.len() == old(bytes)@.len(),
    ;
}

/// An implementation of a default string transformation.
pub struct NoTransform(());

impl StringTransform for NoTransform {
    /// Leaves the string's bytes untouched.
    fn process(bytes: &mut [u8])
        ensures
            final(bytes)@ == old(bytes)@,
    {
    }
}

/// A text filled up with zeros to a width.
pub open spec fn filled(text: Seq<u8>, size: nat) -> Seq<u8> {
    Seq::new(size, |i: int| if i < text.len() { text[i] } else { 0u8 })
}

/// The place of the first zero byte in a string, its length where it has
/// none.
pub open spec fn nul_at(bytes: Seq<u8>) -> int
    decreases bytes.len(),
{
    if bytes.len() == 0 || bytes[0] == 0 {
        0
    } else {
        1 + nul_at(bytes.skip(1))
    }
}

/// The bytes of a field of `size` bytes that holds `text`: the text, then
/// zeros. A text that is longer than the field has none.
pub fn fixed_bytes(text: &[u8], size: usize) -> (result: Option<Vec<u8>>)
    ensures
        text@.len() > size ==> result is None,
        text@.len() <= size ==> (result matches Some(bytes) && bytes@ == filled(
            text@,
            size as nat,
        )),
{
    if text.len() > size {
        return None;
    }
    let mut bytes: Vec<u8> = Vec::new();
    let mut index: usize = 0;
    while index < size
        invariant
            index <= size,
            text@.len() <= size,
            bytes@.len() == index,
            forall|i: int| 0 <= i < index ==> bytes@[i] == filled(text@, size as nat)[i],
        decreases size - index,
    {
        let byte: u8 = if index < text.len() {
            text[index]
        } else {
            0
        };
        bytes.push(byte);
        index = index + 1;
    }
    assert(bytes@ =~= filled(text@, size as nat));
    Some(bytes)
}

/// Cuts a string at its first zero byte.
pub fn cut_at_nul(bytes: Vec<u8>) -> (text: Vec<u8>)
    ensures
        text@ == bytes@.take(nul_at(bytes@)),
        0 <= nul_at(bytes@) <= bytes@.len(),
        forall|i: int| 0 <= i < text@.len() ==> text@[i] != 0,
{
    let mut bytes = bytes;
    let ghost whole = bytes@;
    let mut index: usize = 0;
    assert(whole.skip(0) =~= whole);
    while index < bytes.len() && bytes[index] != 0
        invariant
            index <= bytes@.len(),
            bytes@ == whole,
            nul_at(whole) == index + nul_at(whole.skip(index as int)),
            forall|i: int| 0 <= i < index ==> whole[i] != 0,
        decreases bytes@.len() - index,
    {
        assert(whole.skip(index as int).skip(1) =~= whole.skip(index as int + 1));
        index = index + 1;
    }
    bytes.truncate(index);
    bytes
}

/// The text of a field that was read byte by byte: the bytes as the
/// transform `Trans` leaves them, cut at the first zero byte.
///
/// The transform is handed the bytes of the field, all of them and as they
/// came. What it leaves is whatever its own contract allows for them, so
/// with `NoTransform` the text is the field itself up to its first zero
/// byte. Whatever the transform does, the text is no longer than the
/// field and holds no zero byte.
pub fn fixed_text<Trans: StringTransform>(bytes: Vec<u8>) -> (text: Vec<u8>)
    ensures
        exists|handed: &mut [u8]|
            #![trigger call_ensures(Trans::process, (handed,), ())]
            call_ensures(Trans::process, (handed,), ()) && handed@ == bytes@ && text@
                == final(handed)@.take(nul_at(final(handed)@)),
        text@.len() <= bytes@.len(),
        forall|i: int| 0 <= i < text@.len() ==> text@[i] != 0,
{
    let mut chars = bytes;
    Trans::process(chars.as_mut_slice());
    cut_at_nul(chars)
}

} // verus!
