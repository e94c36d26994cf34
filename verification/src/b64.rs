//! Base64 without padding, for everything that travels as text: keys,
//! verifiers, tokens, invite codes.

use crate::text;
use base64::engine::general_purpose::{STANDARD_NO_PAD, URL_SAFE_NO_PAD};
use base64::Engine;
use vstd::prelude::*;

verus! {

/// Bytes in URL-safe base64 without padding.
pub uninterp spec fn encoded(bytes: Seq<u8>) -> Seq<char>;

/// The bytes that a text in URL-safe base64 without padding stands for, where
/// it is one.
pub uninterp spec fn decoded(text: Seq<char>) -> Option<Seq<u8>>;

/// How many characters that many bytes take: four for every three, and no
/// padding.
pub open spec fn encoded_len(bytes: nat) -> nat {
    (bytes * 4 + 2) / 3
}

/// `Engine::encode` of `URL_SAFE_NO_PAD`. Its result is named [`encoded`]: a
/// text of letters, digits, `-` and `_`, four for every three bytes, which
/// decodes to the bytes it was made from.
#[verifier::external_body]
fn engine_encode(bytes: &[u8]) -> (text: String)
    requires
        encoded_len(bytes@.len()) <= isize::MAX,
    ensures
        text@ == encoded(bytes@),
        decoded(text@) == Some(bytes@),
        text@.len() == encoded_len(bytes@.len()),
        forall|i: int| 0 <= i < text@.len() ==> text::is_base64url(#[trigger] text@[i]),
{
    URL_SAFE_NO_PAD.encode(bytes)
}

/// `Engine::decode` of `URL_SAFE_NO_PAD`. Its result is named [`decoded`].
#[verifier::external_body]
fn engine_decode(text: &str) -> (bytes: Result<Vec<u8>, base64::DecodeError>)
    ensures
        bytes is Ok <==> decoded(text@) is Some,
        bytes matches Ok(bytes) ==> decoded(text@) == Some(bytes@),
{
    URL_SAFE_NO_PAD.decode(text)
}

/// Bytes as text.
pub fn encode(bytes: &[u8]) -> (text: String)
    requires
        encoded_len(bytes@.len()) <= isize::MAX,
    ensures
        text@ == encoded(bytes@),
        text@.len() == encoded_len(bytes@.len()),
        decoded(text::trimmed(text@)) == Some(bytes@),
{
    let text: String = engine_encode(bytes);
    proof {
        text::lemma_trimmed_is_unchanged(text@);
    }
    text
}

/// The bytes a text stands for; white space around it is none of it.
pub fn decode(text: &str) -> (bytes: Option<Vec<u8>>)
    ensures
        bytes is Some <==> decoded(text::trimmed(text@)) is Some,
        bytes matches Some(bytes) ==> decoded(text::trimmed(text@)) == Some(bytes@),
{
    engine_decode(text::trim(text).as_str()).ok()
}

/// Bytes in standard base64 without padding.
pub uninterp spec fn standard_encoded(bytes: Seq<u8>) -> Seq<char>;

/// `Engine::encode` of `STANDARD_NO_PAD`. Its result is named
/// [`standard_encoded`]: four characters for every three bytes.
#[verifier::external_body]
pub(crate) fn encode_standard(bytes: &[u8]) -> (text: String)
    requires
        encoded_len(bytes@.len()) <= isize::MAX,
    ensures
        text@ == standard_encoded(bytes@),
        text@.len() == encoded_len(bytes@.len()),
{
    STANDARD_NO_PAD.encode(bytes)
}

/// What is wrong with a text that is no base64.
#[verifier::external_type_specification]
#[verifier::external_body]
pub struct ExDecodeError(base64::DecodeError);

} // verus!
