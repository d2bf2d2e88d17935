//! Text encodings of chart files.
use crate::error::OpenLr2Error;
use crate::text::{push_str, string_from_chars};
use vstd::prelude::*;
use vstd::utf8::{decode_utf8, encode_utf8, valid_utf8};

verus! {

/// The `Display` text of the error that `std::str::from_utf8` reports for
/// `bytes` (which position the decoding stopped at, and why).
pub uninterp spec fn utf8_error_text(bytes: Seq<u8>) -> Seq<char>;

/// Calls `std::str::from_utf8`. As the standard library documents, it
/// succeeds exactly on valid UTF-8 and then holds the decoded characters;
/// on failure this returns the error's `Display` text, which is named by
/// `utf8_error_text` and not stated further.
#[verifier::external_body]
fn str_from_utf8(bytes: &[u8]) -> (r: Result<&str, String>)
    ensures
        match r {
            Ok(s) => valid_utf8(bytes@) && s@ == decode_utf8(bytes@),
            Err(m) => !valid_utf8(bytes@) && m@ == utf8_error_text(bytes@),
        },
{
    match std::str::from_utf8(bytes) {
        Ok(s) => Ok(s),
        Err(e) => Err(e.to_string()),
    }
}

/// The message of the error for bytes that are no valid UTF-8.
pub open spec fn invalid_utf8_message(bytes: Seq<u8>) -> Seq<char> {
    "invalid utf-8: "@ + utf8_error_text(bytes)
}

/// Decodes a chart file's bytes into text. Only UTF-8 is decoded so far;
/// any other byte sequence is an encoding error.
pub fn cp932_to_utf8(input: &[u8]) -> (r: Result<String, OpenLr2Error>)
    ensures
        valid_utf8(input@) ==> (r matches Ok(s) && s@ == decode_utf8(input@)),
        !valid_utf8(input@) ==> (r matches Err(OpenLr2Error::Encoding(m)) && m@
            == invalid_utf8_message(input@)),
{
    match str_from_utf8(input) {
        Ok(s) => Ok(s.to_owned()),
        Err(e) => {
            let mut msg: Vec<char> = Vec::new();
            push_str(&mut msg, "invalid utf-8: ");
            push_str(&mut msg, e.as_str());
            Err(OpenLr2Error::Encoding(string_from_chars(msg.as_slice())))
        },
    }
}

/// Encodes text for a chart file. Only UTF-8 is produced so far.
pub fn utf8_to_cp932(input: &str) -> (r: Result<Vec<u8>, OpenLr2Error>)
    ensures
        r matches Ok(b) && b@ == encode_utf8(input@),
{
    Ok(vstd::slice::slice_to_vec(input.as_bytes()))
}

/// Decoding what encoding produced gives back the same text: the
/// encoded bytes are valid UTF-8 and decode to the same characters.
pub proof fn law_encoding_roundtrip(text: Seq<char>)
    ensures
        valid_utf8(encode_utf8(text)),
        decode_utf8(encode_utf8(text)) == text,
{
    vstd::utf8::encode_utf8_valid_utf8(text);
    vstd::utf8::encode_utf8_decode_utf8(text);
}

} // verus!
