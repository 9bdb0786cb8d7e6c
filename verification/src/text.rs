//! Trusted bridge to the text-encoding library that decodes table names
//! stored in legacy encodings.

use vstd::prelude::*;

verus! {

/// What decoding bytes as SHIFT_JIS yields: the decoded text, or nothing
/// when the bytes hold malformed sequences.
pub uninterp spec fn shift_jis_decoding(bytes: Seq<u8>) -> Option<Seq<char>>;

/// What decoding bytes as UTF-16LE yields: the decoded text, or nothing
/// when the bytes hold malformed sequences.
pub uninterp spec fn utf16le_decoding(bytes: Seq<u8>) -> Option<Seq<char>>;

/// Relies on `encoding_rs::SHIFT_JIS.decode`: the decoded text and the
/// malformed-sequences flag depend on the input bytes alone.
#[verifier::external_body]
pub(crate) fn decode_shift_jis(bytes: &[u8]) -> (r: Option<String>)
    ensures
        r is Some <==> shift_jis_decoding(bytes@) is Some,
        r matches Some(s) ==> shift_jis_decoding(bytes@) == Some(s@),
{
    let (text, _, had_errors) = encoding_rs::SHIFT_JIS.decode(bytes);
    if had_errors {
        None
    } else {
        Some(text.into_owned())
    }
}

/// Relies on `encoding_rs::UTF_16LE.decode`: the decoded text and the
/// malformed-sequences flag depend on the input bytes alone.
#[verifier::external_body]
pub(crate) fn decode_utf16le(bytes: &[u8]) -> (r: Option<String>)
    ensures
        r is Some <==> utf16le_decoding(bytes@) is Some,
        r matches Some(s) ==> utf16le_decoding(bytes@) == Some(s@),
{
    let (text, _, had_errors) = encoding_rs::UTF_16LE.decode(bytes);
    if had_errors {
        None
    } else {
        Some(text.into_owned())
    }
}

} // verus!
