//! Text as the engine holds it: CESU-8 bytes. The text of a value is handed
//! over with its length; a name holds no zero byte.

use crate::error::Error;
use vstd::prelude::*;

verus! {

/// The error of `cesu8::from_cesu8`, an empty marker.
#[verifier::external_type_specification]
#[verifier::external_body]
pub struct ExCesu8DecodingError(cesu8::Cesu8DecodingError);

/// The bytes that `cesu8::to_cesu8` gives for a text: its CESU-8 encoding.
pub uninterp spec fn cesu8_encoding(text: Seq<char>) -> Seq<u8>;

/// The text that `cesu8::from_cesu8` reads from bytes, where it reads one.
pub uninterp spec fn cesu8_decoding(bytes: Seq<u8>) -> Option<Seq<char>>;

/// `cesu8::to_cesu8`: the CESU-8 bytes of a text. It accepts every text, and
/// `cesu8::from_cesu8` reads its result back as the same text: what is plain
/// UTF-8 passes through both unchanged, and a character beyond U+FFFF is
/// written as a pair of surrogates which the decoder joins again.
#[verifier::external_body]
fn to_cesu8(text: &str) -> (r: Vec<u8>)
    ensures
        r@ == cesu8_encoding(text@),
        cesu8_decoding(r@) == Some(text@),
{
    cesu8::to_cesu8(text).into_owned()
}

/// `cesu8::from_cesu8`: the text held by CESU-8 bytes, or its error where
/// the bytes are malformed.
#[verifier::external_body]
fn from_cesu8(bytes: &Vec<u8>) -> (r: Result<String, cesu8::Cesu8DecodingError>)
    ensures
        r is Ok <==> cesu8_decoding(bytes@) is Some,
        r matches Ok(text) ==> cesu8_decoding(bytes@) == Some(text@),
{
    match cesu8::from_cesu8(bytes) {
        Ok(text) => Ok(text.into_owned()),
        Err(e) => Err(e),
    }
}

/// A text that can serve as a name (of a global, a function or a method):
/// its encoding holds no zero byte. The text of a value is under no such
/// limit: see `to_value_bytes`.
pub open spec fn encodable(text: Seq<char>) -> bool {
    !cesu8_encoding(text).contains(0u8)
}

/// A text that comes back from its own encoding.
pub open spec fn transcodes_back(text: Seq<char>) -> bool {
    cesu8_decoding(cesu8_encoding(text)) == Some(text)
}

/// Whether some byte is zero.
pub fn has_zero(bytes: &Vec<u8>) -> (r: bool)
    ensures
        r == bytes@.contains(0u8),
{
    let mut i: usize = 0;
    while i < bytes.len()
        invariant
            i <= bytes.len(),
            forall|j: int| 0 <= j < i ==> bytes@[j] != 0,
        decreases bytes.len() - i,
    {
        if bytes[i] == 0 {
            return true;
        }
        i = i + 1;
    }
    false
}

/// Accepts encoded bytes for the engine unless a zero byte is among them.
pub fn frame_engine_bytes(bytes: Vec<u8>) -> (r: Result<Vec<u8>, Error>)
    ensures
        r is Ok <==> !bytes@.contains(0u8),
        r matches Ok(framed) ==> framed == bytes,
{
    if has_zero(&bytes) {
        Err(Error::new("text holds a zero byte"))
    } else {
        Ok(bytes)
    }
}

/// The bytes under which the engine holds the text of a value: every text has
/// them, a zero character and all, since they are handed over with their
/// length. The transcoder reads them back as the same text.
pub fn to_value_bytes(text: &str) -> (r: Vec<u8>)
    ensures
        r@ == cesu8_encoding(text@),
        transcodes_back(text@),
{
    to_cesu8(text)
}

/// The bytes under which the engine holds a name, or an error where the text
/// is not `encodable`.
pub fn to_engine_bytes(text: &str) -> (r: Result<Vec<u8>, Error>)
    ensures
        r is Ok <==> encodable(text@),
        r matches Ok(bytes) ==> bytes@ == cesu8_encoding(text@) && transcodes_back(text@),
{
    frame_engine_bytes(to_cesu8(text))
}

/// Maps what the decoder returned to the library's own error.
pub fn decoded_text(outcome: Result<String, cesu8::Cesu8DecodingError>) -> (r: Result<
    String,
    Error,
>)
    ensures
        r is Ok <==> outcome is Ok,
        r matches Ok(text) ==> outcome == Ok::<String, cesu8::Cesu8DecodingError>(text),
{
    match outcome {
        Ok(text) => Ok(text),
        Err(_) => Err(Error::new("could not convert CESU-8 data to UTF-8")),
    }
}

/// The text that the engine's bytes hold, or an error where they are
/// malformed.
pub fn from_engine_bytes(bytes: &Vec<u8>) -> (r: Result<String, Error>)
    ensures
        r is Ok <==> cesu8_decoding(bytes@) is Some,
        r matches Ok(text) ==> cesu8_decoding(bytes@) == Some(text@),
{
    decoded_text(from_cesu8(bytes))
}

} // verus!
