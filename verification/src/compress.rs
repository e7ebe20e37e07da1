//! Content-encoding negotiation: whether an outgoing body may be
//! brotli-compressed, and the compression itself through the `brotli`
//! crate. The decision is owned and verified here; the compressor is not.

use crate::bytes::{lower_bytes, starts_with_bytes, to_ascii_lower, trim_bytes, trimmed};
use vstd::prelude::*;
use vstd::string::StrSliceExecFns;
use vstd::string::StringSliceAdditionalSpecFns;

verus! {

/// The bytes of the `text/` media-type prefix.
pub open spec fn mime_text() -> Seq<u8> {
    ("text/").spec_bytes()
}

/// The bytes of the `application/json` media-type prefix.
pub open spec fn mime_app_json() -> Seq<u8> {
    ("application/json").spec_bytes()
}

/// The bytes of the `application/xhtml` media-type prefix.
pub open spec fn mime_app_xhtml() -> Seq<u8> {
    ("application/xhtml").spec_bytes()
}

/// The bytes of the `application/xml` media-type prefix.
pub open spec fn mime_app_xml() -> Seq<u8> {
    ("application/xml").spec_bytes()
}

/// The bytes of the `application/wasm` media-type prefix.
pub open spec fn mime_app_wasm() -> Seq<u8> {
    ("application/wasm").spec_bytes()
}

/// The bytes of the `image/svg` media-type prefix.
pub open spec fn mime_image_svg() -> Seq<u8> {
    ("image/svg").spec_bytes()
}

/// A media type whose bodies are worth compressing: after trimming and
/// lower-casing it starts with one of the compressible prefixes.
pub open spec fn compressible_media_type(ct: Seq<u8>) -> bool {
    let t = lower_bytes(trimmed(ct));
    ||| mime_text().is_prefix_of(t)
    ||| mime_app_json().is_prefix_of(t)
    ||| mime_app_xhtml().is_prefix_of(t)
    ||| mime_app_xml().is_prefix_of(t)
    ||| mime_app_wasm().is_prefix_of(t)
    ||| mime_image_svg().is_prefix_of(t)
}

/// Decide `compressible_media_type` for a concrete header value.
pub fn media_type_compressible(ct: &Vec<u8>) -> (r: bool)
    ensures
        r == compressible_media_type(ct@),
{
    let t = to_ascii_lower(&trim_bytes(ct));
    let p_text = ("text/").as_bytes_vec();
    let p_json = ("application/json").as_bytes_vec();
    let p_xhtml = ("application/xhtml").as_bytes_vec();
    let p_xml = ("application/xml").as_bytes_vec();
    let p_wasm = ("application/wasm").as_bytes_vec();
    let p_svg = ("image/svg").as_bytes_vec();
    starts_with_bytes(&t, &p_text) || starts_with_bytes(&t, &p_json) || starts_with_bytes(
        &t,
        &p_xhtml,
    ) || starts_with_bytes(&t, &p_xml) || starts_with_bytes(&t, &p_wasm) || starts_with_bytes(
        &t,
        &p_svg,
    )
}

/// What the brotli encoder, at the fixed quality this layer uses, writes
/// for the given input.
pub uninterp spec fn brotli_of(b: Seq<u8>) -> Seq<u8>;

/// Relies on `brotli::BrotliCompress` at a fixed quality: deterministic in
/// its input. On an encoder error nothing is claimed; the caller falls
/// back to the uncompressed body.
#[verifier::external_body]
pub(crate) fn brotli_compress(b: &Vec<u8>) -> (r: Option<Vec<u8>>)
    ensures
        r matches Some(c) ==> c@ == brotli_of(b@),
{
    let mut params = brotli::enc::BrotliEncoderParams::default();
    params.quality = 4;
    let mut reader = std::io::Cursor::new(b.as_slice());
    let mut out: Vec<u8> = Vec::new();
    match brotli::BrotliCompress(&mut reader, &mut out, &params) {
        Ok(_) => Some(out),
        Err(_) => None,
    }
}

} // verus!
