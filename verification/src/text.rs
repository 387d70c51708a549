//! UTF-8 text decoding and encoding.
//!
//! A text file is nothing but the UTF-8 byte representation of its
//! characters, so reading text is decoding a byte buffer and writing text is
//! handing the bytes over unchanged. Both directions are pinned to vstd's
//! UTF-8 model: [`decode_text`] succeeds exactly on `valid_utf8` input and
//! returns `decode_utf8` of it, and [`encode_text`] returns `encode_utf8` of
//! its input.

use vstd::prelude::*;
use vstd::string::StrSliceExecFns;
use vstd::string::StringSliceAdditionalSpecFns;
use vstd::utf8::decode_utf8;
use vstd::utf8::encode_utf8;
use vstd::utf8::encode_utf8_decode_utf8;
use vstd::utf8::encode_utf8_valid_utf8;
use vstd::utf8::valid_utf8;

verus! {

/// The error returned when bytes that should hold text are not valid UTF-8.
/// It carries no detail on purpose: only the fact of invalidity is surfaced.
#[derive(Clone, Copy, Debug, PartialEq, Eq, Structural)]
pub struct InvalidData;

/// Relies on std's `str::from_utf8`: it returns `Ok` exactly when the input
/// is valid UTF-8, and the returned string slice is backed by those same
/// bytes.
#[verifier::external_body]
fn try_as_str(bytes: &[u8]) -> (r: Option<&str>)
    ensures
        r is Some <==> valid_utf8(bytes@),
        r matches Some(s) ==> s.spec_bytes() == bytes@,
{
    std::str::from_utf8(bytes).ok()
}

/// Decode a byte buffer as UTF-8 text. Succeeds on exactly the buffers that
/// are valid UTF-8 and then returns their decoded characters; on any other
/// buffer it reports invalid data instead of the raw bytes.
pub fn decode_text(bytes: &[u8]) -> (r: Result<String, InvalidData>)
    ensures
        r is Ok <==> valid_utf8(bytes@),
        r matches Ok(text) ==> text@ == decode_utf8(bytes@),
{
    match try_as_str(bytes) {
        Some(s) => {
            proof {
                encode_utf8_decode_utf8(s@);
            }
            Ok(s.to_owned())
        },
        None => Err(InvalidData),
    }
}

/// Encode text as its UTF-8 byte representation, unchanged: no transcoding,
/// no normalization. The result is always valid UTF-8.
pub fn encode_text(text: &str) -> (r: Vec<u8>)
    ensures
        r@ == encode_utf8(text@),
        valid_utf8(r@),
{
    proof {
        encode_utf8_valid_utf8(text@);
    }
    text.as_bytes_vec()
}

/// Law: encoding any text and then decoding the resulting bytes gives back
/// that text exactly, and the encoded bytes are always valid UTF-8. This is
/// the computational half of the text write/read round trip.
pub proof fn lemma_text_round_trip(text: Seq<char>)
    ensures
        valid_utf8(encode_utf8(text)),
        decode_utf8(encode_utf8(text)) == text,
{
    encode_utf8_valid_utf8(text);
    encode_utf8_decode_utf8(text);
}

} // verus!
