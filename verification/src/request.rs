//! The request normalizer: one canonical request built from any event
//! variant. Normalizing fails only on a method that is not an HTTP token
//! or on a body that claims to be base64 and does not decode; absent
//! optional data never fails.

use crate::b64::base64_decoded_of;
use crate::bytes::opt_bytes_view;
use crate::event::LambdaHttpEvent;
use crate::EventError;
use vstd::prelude::*;

verus! {

/// An HTTP token byte: letters, digits, and the token specials of the
/// HTTP grammar.
pub open spec fn is_token_byte(b: u8) -> bool {
    ||| (0x30 <= b && b <= 0x39)
    ||| (0x41 <= b && b <= 0x5a)
    ||| (0x61 <= b && b <= 0x7a)
    ||| b == 0x21
    ||| b == 0x23
    ||| b == 0x24
    ||| b == 0x25
    ||| b == 0x26
    ||| b == 0x27
    ||| b == 0x2a
    ||| b == 0x2b
    ||| b == 0x2d
    ||| b == 0x2e
    ||| b == 0x5e
    ||| b == 0x5f
    ||| b == 0x60
    ||| b == 0x7c
    ||| b == 0x7e
}

/// A syntactically valid HTTP method: a non-empty token.
pub open spec fn is_valid_method(m: Seq<u8>) -> bool {
    m.len() > 0 && forall|i: int| 0 <= i < m.len() ==> is_token_byte(#[trigger] m[i])
}

/// Decide `is_valid_method` for a concrete method.
pub fn method_is_valid(m: &Vec<u8>) -> (r: bool)
    ensures
        r == is_valid_method(m@),
{
    if m.len() == 0 {
        return false;
    }
    let mut i: usize = 0;
    while i < m.len()
        invariant
            i <= m.len(),
            forall|j: int| 0 <= j < i ==> is_token_byte(#[trigger] m@[j]),
        decreases m.len() - i,
    {
        let b = m[i];
        let ok = (0x30 <= b && b <= 0x39) || (0x41 <= b && b <= 0x5a) || (0x61 <= b && b <= 0x7a)
            || b == 0x21 || b == 0x23 || b == 0x24 || b == 0x25 || b == 0x26 || b == 0x27 || b
            == 0x2a || b == 0x2b || b == 0x2d || b == 0x2e || b == 0x5e || b == 0x5f || b == 0x60
            || b == 0x7c || b == 0x7e;
        if !ok {
            return false;
        }
        i = i + 1;
    }
    true
}

/// What the body normalizes to: empty when absent, the decoded bytes when
/// base64-coded (`None` when that fails), the raw bytes otherwise.
pub open spec fn body_spec(ev: LambdaHttpEvent) -> Option<Seq<u8>> {
    match ev.body_raw_spec() {
        None => Some(Seq::empty()),
        Some(raw) => if !ev.is_base64_spec() {
            Some(raw)
        } else {
            base64_decoded_of(raw)
        },
    }
}

/// The canonical request handed to a framework binding: method, encoded
/// path and query, ordered header list, merged cookie value, body bytes,
/// raw source address, host, and the two response-shaping flags.
#[derive(Debug)]
pub struct NormalizedRequest {
    pub method: Vec<u8>,
    pub path_and_query: Vec<u8>,
    pub headers: Vec<(Vec<u8>, Vec<u8>)>,
    pub cookie: Option<Vec<u8>>,
    pub body: Vec<u8>,
    pub source_ip: Option<Vec<u8>>,
    pub host: Option<Vec<u8>>,
    pub multi_value_response: bool,
    pub client_accepts_brotli: bool,
}

/// Build the canonical request from a classified event. Succeeds exactly
/// when the method is a token and the body decodes; every field of the
/// result is the event's corresponding reading.
pub fn normalize(event: &LambdaHttpEvent) -> (r: Result<NormalizedRequest, EventError>)
    ensures
        match r {
            Ok(n) => {
                &&& is_valid_method(event.method_spec())
                &&& body_spec(*event) is Some
                &&& n.method@ == event.method_spec()
                &&& n.path_and_query@ == event.path_query_spec()
                &&& n.headers.deep_view() == event.headers_spec()
                &&& opt_bytes_view(n.cookie) == event.merged_cookie_spec()
                &&& body_spec(*event) == Some(n.body@)
                &&& opt_bytes_view(n.source_ip) == event.source_ip_spec()
                &&& opt_bytes_view(n.host) == event.hostname_spec()
                &&& n.multi_value_response == event.multi_value_spec()
                &&& n.client_accepts_brotli == event.client_supports_brotli_spec()
            },
            Err(e) => {
                if !is_valid_method(event.method_spec()) {
                    e == EventError::InvalidMethod
                } else {
                    body_spec(*event) is None && e == EventError::InvalidBodyEncoding
                }
            },
        },
{
    if !method_is_valid(event.method()) {
        return Err(EventError::InvalidMethod);
    }
    let body = match event.body() {
        Ok(b) => b,
        Err(e) => {
            return Err(e);
        },
    };
    let method = crate::bytes::copy_bytes(event.method());
    Ok(
        NormalizedRequest {
            method,
            path_and_query: event.path_query(),
            headers: event.headers(),
            cookie: event.merged_cookie(),
            body,
            source_ip: event.source_ip(),
            host: event.hostname(),
            multi_value_response: event.multi_value(),
            client_accepts_brotli: event.client_supports_brotli(),
        },
    )
}

} // verus!
