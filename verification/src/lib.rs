//! Translation layer between a cloud gateway's HTTP events and a canonical
//! request/response representation: event classification, request
//! normalization, content-encoding negotiation and response envelope assembly.

use vstd::prelude::*;

pub mod b64;
pub mod bytes;
pub mod codec;
pub mod compress;
pub mod event;
pub mod json;
pub mod request;
pub mod response;
pub mod schema;

verus! {

/// Why an inbound event could not be turned into a request. Every variant
/// is answered with a plain 400 by the surrounding runtime glue; nothing
/// here aborts an invocation.
#[derive(Debug, Clone, Copy, PartialEq, Eq, Structural)]
pub enum EventError {
    /// The document matches none of the known gateway schemas.
    MalformedEvent,
    /// The HTTP method is present but is not a token.
    InvalidMethod,
    /// The body claims to be base64 but does not decode.
    InvalidBodyEncoding,
}

} // verus!
