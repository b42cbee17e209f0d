//! The header of a message type as its `packet` attribute spells it: a
//! kind by name, a code in hexadecimal, and subcodes in hexadecimal with
//! bars between them.

use vstd::prelude::*;

verus! {

/// What the attribute of a message type says.
pub struct PacketHeader {
    pub kind: String,
    pub code: u8,
    pub subcode: Vec<u8>,
}

/// Why an attribute gives no header.
#[derive(Copy, Clone, Debug, PartialEq, Eq, Structural)]
pub enum HeaderError {
    /// There is no `kind`.
    MissingKind,
    /// There is no `code`.
    MissingCode,
    /// The code is no byte in hexadecimal.
    BadCode,
    /// One of the subcodes is no byte in hexadecimal.
    BadSubcode,
}

/// The byte that a text spells in hexadecimal, as `u8::from_str_radix`
/// reads it; none where the text is no such number.
pub uninterp spec fn hex_byte(text: Seq<char>) -> Option<u8>;

/// The place of the first bar in a text, its length where it has none.
pub open spec fn first_bar(text: Seq<char>) -> int
    decreases text.len(),
{
    if text.len() == 0 || text[0] == '|' {
        0
    } else {
        1 + first_bar(text.skip(1))
    }
}

/// The pieces of a text between its bars, in order. A text without bars
/// is one piece; two bars in a row have an empty piece between them.
pub open spec fn bar_pieces(text: Seq<char>) -> Seq<Seq<char>>
    decreases text.len(),
{
    let at = first_bar(text);
    if 0 <= at < text.len() {
        seq![text.take(at)] + bar_pieces(text.skip(at + 1))
    } else {
        seq![text]
    }
}

/// `u8::from_str_radix` with radix 16: the byte that the text spells,
/// none where the standard library refuses the text.
#[verifier::external_body]
fn parse_hex(text: &str) -> (value: Option<u8>)
    ensures
        value == hex_byte(text@),
{
    u8::from_str_radix(text, 16).ok()
}

/// `str::split` on a bar: the pieces of the text between its bars, each
/// as a string of its own.
#[verifier::external_body]
fn split_bars(text: &str) -> (pieces: Vec<String>)
    ensures
        pieces@.len() == bar_pieces(text@).len(),
        forall|i: int| 0 <= i < pieces@.len() ==> (#[trigger] pieces@[i])@ == bar_pieces(text@)[i],
{
    text.split("|").map(String::from).collect()
}

/// The subcodes among what was read from the pieces of a text: all of
/// them where each piece gave a byte, none where one did not.
pub open spec fn gathered(values: Seq<Option<u8>>) -> Option<Seq<u8>> {
    if forall|i: int| 0 <= i < values.len() ==> (#[trigger] values[i]) is Some {
        Some(Seq::new(values.len(), |i: int| values[i]->0))
    } else {
        None
    }
}

/// The header that is made of what an attribute gave, stated: the first
/// thing that is missing or wrong decides the error, kind before code
/// before subcodes; an attribute without subcodes has none.
pub open spec fn assembled(
    kind: Option<Seq<char>>,
    code: Option<Option<u8>>,
    subcode: Option<Seq<Option<u8>>>,
) -> Result<(Seq<char>, u8, Seq<u8>), HeaderError> {
    match (kind, code) {
        (None, _) => Err(HeaderError::MissingKind),
        (Some(_), None) => Err(HeaderError::MissingCode),
        (Some(_), Some(None)) => Err(HeaderError::BadCode),
        (Some(name), Some(Some(byte))) => match subcode {
            None => Ok((name, byte, Seq::empty())),
            Some(values) => match gathered(values) {
                Some(bytes) => Ok((name, byte, bytes)),
                None => Err(HeaderError::BadSubcode),
            },
        },
    }
}

/// What `assemble_header` is handed, as plain values.
pub open spec fn text_of(text: Option<String>) -> Option<Seq<char>> {
    match text {
        Some(text) => Some(text@),
        None => None,
    }
}

/// What `assemble_header` is handed, as plain values.
pub open spec fn values_of(values: Option<Vec<Option<u8>>>) -> Option<Seq<Option<u8>>> {
    match values {
        Some(values) => Some(values@),
        None => None,
    }
}

/// Makes a header of what an attribute gave: the name of the kind, the
/// code as it was read, and each subcode as it was read.
pub fn assemble_header(
    kind: Option<String>,
    code: Option<Option<u8>>,
    subcode: Option<Vec<Option<u8>>>,
) -> (result: Result<PacketHeader, HeaderError>)
    ensures
        match assembled(text_of(kind), code, values_of(subcode)) {
            Ok((name, byte, bytes)) => result matches Ok(header) && header.kind@ == name
                && header.code == byte && header.subcode@ == bytes,
            Err(error) => result matches Err(found) && found == error,
        },
{
    let kind = match kind {
        Some(kind) => kind,
        None => {
            return Err(HeaderError::MissingKind);
        },
    };
    let code = match code {
        Some(code) => code,
        None => {
            return Err(HeaderError::MissingCode);
        },
    };
    let code = match code {
        Some(code) => code,
        None => {
            return Err(HeaderError::BadCode);
        },
    };
    let subcode = match subcode {
        Some(values) => match gather(&values) {
            Some(bytes) => bytes,
            None => {
                return Err(HeaderError::BadSubcode);
            },
        },
        None => Vec::new(),
    };
    Ok(PacketHeader { kind, code, subcode })
}

/// Takes the subcodes out of what was read from the pieces of a text:
/// all of them where each piece gave a byte, none where one did not.
pub fn gather(values: &Vec<Option<u8>>) -> (result: Option<Vec<u8>>)
    ensures
        match gathered(values@) {
            Some(bytes) => result matches Some(found) && found@ == bytes,
            None => result is None,
        },
{
    let mut bytes: Vec<u8> = Vec::new();
    let mut index: usize = 0;
    while index < values.len()
        invariant
            index <= values@.len(),
            bytes@.len() == index,
            forall|i: int| 0 <= i < index ==> #[trigger] values@[i] == Some(bytes@[i]),
        decreases values@.len() - index,
    {
        match values[index] {
            Some(byte) => {
                bytes.push(byte);
            },
            None => {
                assert(!(values@[index as int] is Some));
                return None;
            },
        }
        index = index + 1;
    }
    assert(bytes@ =~= Seq::new(values@.len(), |i: int| values@[i]->0));
    Some(bytes)
}

/// What reading the pieces of a text in hexadecimal gives.
pub open spec fn hex_pieces(text: Seq<char>) -> Seq<Option<u8>> {
    bar_pieces(text).map_values(|piece: Seq<char>| hex_byte(piece))
}

/// What reading an optional text in hexadecimal gives.
pub open spec fn hex_of(text: Option<String>) -> Option<Option<u8>> {
    match text {
        Some(text) => Some(hex_byte(text@)),
        None => None,
    }
}

/// What reading the pieces of an optional text in hexadecimal gives.
pub open spec fn hex_pieces_of(text: Option<String>) -> Option<Seq<Option<u8>>> {
    match text {
        Some(text) => Some(hex_pieces(text@)),
        None => None,
    }
}

/// Reads the header of a message type from the texts of its attribute:
/// the code as one byte in hexadecimal, the subcodes as bytes in
/// hexadecimal with bars between them.
pub fn packet_header(kind: Option<String>, code: Option<String>, subcode: Option<String>) -> (result:
    Result<PacketHeader, HeaderError>)
    ensures
        match assembled(text_of(kind), hex_of(code), hex_pieces_of(subcode)) {
            Ok((name, byte, bytes)) => result matches Ok(header) && header.kind@ == name
                && header.code == byte && header.subcode@ == bytes,
            Err(error) => result matches Err(found) && found == error,
        },
{
    let code = match code {
        Some(text) => Some(parse_hex(text.as_str())),
        None => None,
    };
    let subcode = match subcode {
        Some(text) => {
            let pieces = split_bars(text.as_str());
            let mut values: Vec<Option<u8>> = Vec::new();
            let mut index: usize = 0;
            while index < pieces.len()
                invariant
                    index <= pieces@.len() == bar_pieces(text@).len(),
                    values@.len() == index,
                    forall|i: int|
                        0 <= i < pieces@.len() ==> (#[trigger] pieces@[i])@ == bar_pieces(text@)[i],
                    forall|i: int| 0 <= i < index ==> #[trigger] values@[i] == hex_pieces(text@)[i],
                decreases pieces@.len() - index,
            {
                let value = parse_hex(pieces[index].as_str());
                values.push(value);
                index = index + 1;
            }
            assert(values@ =~= hex_pieces(text@));
            Some(values)
        },
        None => None,
    };
    assemble_header(kind, code, subcode)
}

} // verus!
