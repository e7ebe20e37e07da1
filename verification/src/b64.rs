//! Base64 coding of request and response bodies, through the `base64`
//! crate (standard alphabet, padded). The crate's results are named by
//! uninterpreted functions; everything downstream is stated over those
//! names.

use vstd::prelude::*;

verus! {

/// What `base64::encode` returns for the given bytes.
pub uninterp spec fn base64_of(b: Seq<u8>) -> Seq<u8>;

/// What `base64::decode` returns for the given bytes: the decoded payload,
/// or `None` when they are not valid base64.
pub uninterp spec fn base64_decoded_of(s: Seq<u8>) -> Option<Seq<u8>>;

/// The error type of `base64::decode`.
#[verifier::external_type_specification]
#[verifier::external_body]
pub struct ExDecodeError(base64::DecodeError);

/// Relies on `base64::encode`: deterministic in its input, four output
/// bytes for every three-byte group of the input.
#[verifier::external_body]
pub(crate) fn base64_encode(b: &Vec<u8>) -> (r: Vec<u8>)
    ensures
        r@ == base64_of(b@),
        r@.len() == 4 * ((b@.len() + 2) / 3),
{
    base64::encode(b).into_bytes()
}

/// Relies on `base64::decode`: deterministic in its input, `Ok` exactly on
/// valid base64.
#[verifier::external_body]
pub(crate) fn base64_decode(s: &Vec<u8>) -> (r: Result<Vec<u8>, base64::DecodeError>)
    ensures
        match r {
            Ok(d) => base64_decoded_of(s@) == Some(d@),
            Err(_) => base64_decoded_of(s@) is None,
        },
{
    base64::decode(s)
}

} // verus!
