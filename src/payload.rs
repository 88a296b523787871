use vstd::prelude::*;

use base64::Engine;

verus! {

/// Names what standard-alphabet, padded base64 decoding gives for a text:
/// the bytes, or `None` where the text is not such base64.
pub uninterp spec fn base64_decoded(text: Seq<u8>) -> Option<Seq<u8>>;

/// Names what LZ4 block decompression gives for an input that starts with
/// the uncompressed size as four little-endian bytes: the bytes, or `None`
/// where the input is malformed.
pub uninterp spec fn lz4_decompressed(input: Seq<u8>) -> Option<Seq<u8>>;

/// Relies on `base64::engine::general_purpose::STANDARD.decode`: decoding
/// depends on the text alone.
#[verifier::external_body]
fn base64_decode(text: &[u8]) -> (r: Option<Vec<u8>>)
    ensures
        match r {
            Some(b) => base64_decoded(text@) == Some(b@),
            None => base64_decoded(text@) is None,
        },
{
    base64::engine::general_purpose::STANDARD.decode(text).ok()
}

/// Relies on `lz4_flex::decompress_size_prepended`: decompression depends on
/// the input alone, and an input shorter than the four size bytes is refused.
#[verifier::external_body]
fn lz4_decompress(input: &[u8]) -> (r: Option<Vec<u8>>)
    ensures
        match r {
            Some(b) => lz4_decompressed(input@) == Some(b@),
            None => lz4_decompressed(input@) is None,
        },
        input@.len() < 4 ==> r is None,
{
    lz4_flex::decompress_size_prepended(input).ok()
}

/// Why an encoded flag catalog could not be unpacked.
#[derive(Clone, Copy, Debug, PartialEq, Eq, Structural)]
pub enum PayloadError {
    /// The text is not base64.
    Base64,
    /// The bundle is not a size-prefixed LZ4 block.
    Decompress,
}

/// The serialized catalog carried as base64 text, as a flag-introspection
/// command prints it.
pub fn decode_command_output(stdout: &[u8]) -> (r: Result<Vec<u8>, PayloadError>)
    ensures
        match r {
            Ok(b) => base64_decoded(stdout@) == Some(b@),
            Err(e) => e == PayloadError::Base64 && base64_decoded(stdout@) is None,
        },
{
    match base64_decode(stdout) {
        Some(b) => Ok(b),
        None => Err(PayloadError::Base64),
    }
}

/// The serialized catalog held in a packaged LZ4 bundle.
pub fn decompress_bundle(bundle: &[u8]) -> (r: Result<Vec<u8>, PayloadError>)
    ensures
        match r {
            Ok(b) => lz4_decompressed(bundle@) == Some(b@),
            Err(e) => e == PayloadError::Decompress && lz4_decompressed(bundle@) is None,
        },
        bundle@.len() < 4 ==> r is Err,
{
    match lz4_decompress(bundle) {
        Some(b) => Ok(b),
        None => Err(PayloadError::Decompress),
    }
}

} // verus!
