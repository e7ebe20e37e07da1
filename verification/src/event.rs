//! The gateway event model: the three inbound payload shapes held as plain
//! values, the classification of a JSON tree into one of them, and the
//! per-field readings a request is normalized from.
//!
//! All strings are UTF-8 byte vectors; maps are ordered pair lists whose
//! lookup takes the first match.

use crate::b64::{base64_decode, base64_decoded_of};
use crate::bytes::{
    append_all, append_bytes, copy_byte_vecs, copy_bytes, copy_range, find_byte, find_byte_from,
    join_bytes, join_with, lemma_find_byte, lower_bytes, to_ascii_lower, trim_bytes,
    trimmed,
};
use crate::codec::{percent_encode, percent_encoded};
use crate::json::bytes_eq;
use crate::EventError;
use vstd::prelude::*;
use vstd::string::StrSliceExecFns;
use vstd::string::StringSliceAdditionalSpecFns;

verus! {

/// The payload of an HTTP API v2 event: `rawPath` arrives percent-decoded,
/// `rawQueryString` arrives still encoded, headers are single-valued and
/// lower-cased by the gateway, cookies arrive as their own array.
#[derive(Debug)]
pub struct HttpV2Event {
    pub method: Vec<u8>,
    pub source_ip: Vec<u8>,
    pub domain_name: Vec<u8>,
    pub raw_path: Vec<u8>,
    pub raw_query_string: Option<Vec<u8>>,
    pub cookies: Option<Vec<Vec<u8>>>,
    pub headers: Vec<(Vec<u8>, Vec<u8>)>,
    pub body: Option<Vec<u8>>,
    pub is_base64_encoded: bool,
}

/// The request context a REST API event carries and a load-balancer event
/// lacks: `path` here is the stage-prefixed path the request should use.
#[derive(Debug)]
pub struct RestContext {
    pub domain_name: Vec<u8>,
    pub path: Vec<u8>,
    pub source_ip: Vec<u8>,
}

/// The payload shared by REST API and load-balancer events: headers and
/// query parameters are multi-valued, query values arrive percent-decoded,
/// cookies are folded into a `cookie` header.
#[derive(Debug)]
pub struct RestAlbEvent {
    pub http_method: Vec<u8>,
    pub path: Vec<u8>,
    pub multi_value_headers: Vec<(Vec<u8>, Vec<Vec<u8>>)>,
    pub multi_value_query_string_parameters: Option<Vec<(Vec<u8>, Vec<Vec<u8>>)>>,
    pub body: Option<Vec<u8>>,
    pub is_base64_encoded: bool,
    /// `Some` for a REST API event, `None` for a load balancer.
    pub rest_context: Option<RestContext>,
}

/// One inbound gateway event, classified.
#[derive(Debug)]
pub enum LambdaHttpEvent {
    HttpV2(HttpV2Event),
    RestOrAlb(RestAlbEvent),
}

/// The bytes of the `host` header name.
pub open spec fn name_host() -> Seq<u8> {
    ("host").spec_bytes()
}

/// The bytes of the `cookie` header name.
pub open spec fn name_cookie() -> Seq<u8> {
    ("cookie").spec_bytes()
}

/// The bytes of the `accept-encoding` header name.
pub open spec fn name_accept_encoding() -> Seq<u8> {
    ("accept-encoding").spec_bytes()
}

/// The bytes of the `br` content coding name.
pub open spec fn name_br() -> Seq<u8> {
    ("br").spec_bytes()
}

/// First value under `key` in a single-valued header list.
pub open spec fn sv_lookup(hs: Seq<(Seq<u8>, Seq<u8>)>, key: Seq<u8>) -> Option<Seq<u8>>
    decreases hs.len(),
{
    if hs.len() == 0 {
        None
    } else if hs[0].0 == key {
        Some(hs[0].1)
    } else {
        sv_lookup(hs.subrange(1, hs.len() as int), key)
    }
}

/// First value list under `key` in a multi-valued header list.
pub open spec fn mv_lookup(hs: Seq<(Seq<u8>, Seq<Seq<u8>>)>, key: Seq<u8>) -> Option<Seq<Seq<u8>>>
    decreases hs.len(),
{
    if hs.len() == 0 {
        None
    } else if hs[0].0 == key {
        Some(hs[0].1)
    } else {
        mv_lookup(hs.subrange(1, hs.len() as int), key)
    }
}

/// Find `key` in a single-valued header list.
fn sv_get<'a>(hs: &'a Vec<(Vec<u8>, Vec<u8>)>, key: &Vec<u8>) -> (r: Option<&'a Vec<u8>>)
    ensures
        match r {
            Some(v) => sv_lookup(hs.deep_view(), key@) == Some(v@),
            None => sv_lookup(hs.deep_view(), key@) is None,
        },
{
    let ghost dv = hs.deep_view();
    let mut i: usize = 0;
    proof {
        assert(dv.subrange(0, dv.len() as int) =~= dv);
    }
    while i < hs.len()
        invariant
            i <= hs.len(),
            dv == hs.deep_view(),
            dv.len() == hs@.len(),
            forall|j: int| 0 <= j < hs@.len() ==> #[trigger] dv[j] == (hs@[j].0@, hs@[j].1@),
            sv_lookup(dv, key@) == sv_lookup(dv.subrange(i as int, dv.len() as int), key@),
        decreases hs.len() - i,
    {
        if bytes_eq(&hs[i].0, key) {
            return Some(&hs[i].1);
        }
        proof {
            assert(dv.subrange(i as int, dv.len() as int).subrange(
                1,
                dv.len() - i,
            ) =~= dv.subrange(i as int + 1, dv.len() as int));
        }
        i = i + 1;
    }
    proof {
        assert(dv.subrange(dv.len() as int, dv.len() as int) =~= Seq::<(Seq<u8>, Seq<u8>)>::empty());
    }
    None
}

/// Find `key` in a multi-valued header list.
fn mv_get<'a>(hs: &'a Vec<(Vec<u8>, Vec<Vec<u8>>)>, key: &Vec<u8>) -> (r: Option<
    &'a Vec<Vec<u8>>,
>)
    ensures
        match r {
            Some(v) => mv_lookup(hs.deep_view(), key@) == Some(v.deep_view()),
            None => mv_lookup(hs.deep_view(), key@) is None,
        },
{
    let ghost dv = hs.deep_view();
    let mut i: usize = 0;
    proof {
        assert(dv.subrange(0, dv.len() as int) =~= dv);
    }
    while i < hs.len()
        invariant
            i <= hs.len(),
            dv == hs.deep_view(),
            dv.len() == hs@.len(),
            forall|j: int|
                0 <= j < hs@.len() ==> #[trigger] dv[j] == (hs@[j].0@, hs@[j].1.deep_view()),
            mv_lookup(dv, key@) == mv_lookup(dv.subrange(i as int, dv.len() as int), key@),
        decreases hs.len() - i,
    {
        if bytes_eq(&hs[i].0, key) {
            return Some(&hs[i].1);
        }
        proof {
            assert(dv.subrange(i as int, dv.len() as int).subrange(
                1,
                dv.len() - i,
            ) =~= dv.subrange(i as int + 1, dv.len() as int));
        }
        i = i + 1;
    }
    proof {
        assert(dv.subrange(dv.len() as int, dv.len() as int) =~= Seq::<
            (Seq<u8>, Seq<Seq<u8>>),
        >::empty());
    }
    None
}

impl LambdaHttpEvent {
    /// The HTTP method field, exactly as the event carries it.
    pub open spec fn method_spec(self) -> Seq<u8> {
        match self {
            LambdaHttpEvent::HttpV2(e) => e.method@,
            LambdaHttpEvent::RestOrAlb(e) => e.http_method@,
        }
    }

    /// HTTP request method.
    pub fn method(&self) -> (r: &Vec<u8>)
        ensures
            r@ == self.method_spec(),
    {
        match self {
            LambdaHttpEvent::HttpV2(e) => &e.method,
            LambdaHttpEvent::RestOrAlb(e) => &e.http_method,
        }
    }

    /// Whether responses must use the multi-valued envelope shape.
    pub open spec fn multi_value_spec(self) -> bool {
        self is RestOrAlb
    }

    /// Is the multi-valued response envelope expected?
    pub fn multi_value(&self) -> (r: bool)
        ensures
            r == self.multi_value_spec(),
    {
        match self {
            LambdaHttpEvent::HttpV2(_) => false,
            LambdaHttpEvent::RestOrAlb(_) => true,
        }
    }

    /// The host: the context's domain name where the event has one, else
    /// the first `host` header value of a load-balancer event.
    pub open spec fn hostname_spec(self) -> Option<Seq<u8>> {
        match self {
            LambdaHttpEvent::HttpV2(e) => Some(e.domain_name@),
            LambdaHttpEvent::RestOrAlb(e) => match e.rest_context {
                Some(c) => Some(c.domain_name@),
                None => match mv_lookup(e.multi_value_headers.deep_view(), name_host()) {
                    Some(vs) => if vs.len() > 0 {
                        Some(vs[0])
                    } else {
                        None
                    },
                    None => None,
                },
            },
        }
    }

    /// Host name.
    pub fn hostname(&self) -> (r: Option<Vec<u8>>)
        ensures
            match r {
                Some(h) => self.hostname_spec() == Some(h@),
                None => self.hostname_spec() is None,
            },
    {
        match self {
            LambdaHttpEvent::HttpV2(e) => Some(copy_bytes(&e.domain_name)),
            LambdaHttpEvent::RestOrAlb(e) => match &e.rest_context {
                Some(c) => Some(copy_bytes(&c.domain_name)),
                None => {
                    let key = ("host").as_bytes_vec();
                    match mv_get(&e.multi_value_headers, &key) {
                        Some(vs) => if vs.len() > 0 {
                            proof {
                                assert(vs.deep_view()[0] == vs@[0]@);
                            }
                            Some(copy_bytes(&vs[0]))
                        } else {
                            None
                        },
                        None => None,
                    }
                },
            },
        }
    }

    /// The raw source address: always present for HTTP API v2, present for
    /// a REST API event, absent for a load balancer. Whether the string is
    /// a well-formed address is for the caller to decide; a malformed one
    /// merely ends up absent there, never an error.
    pub open spec fn source_ip_spec(self) -> Option<Seq<u8>> {
        match self {
            LambdaHttpEvent::HttpV2(e) => Some(e.source_ip@),
            LambdaHttpEvent::RestOrAlb(e) => match e.rest_context {
                Some(c) => Some(c.source_ip@),
                None => None,
            },
        }
    }

    /// Source address text, where the event carries one.
    pub fn source_ip(&self) -> (r: Option<Vec<u8>>)
        ensures
            match r {
                Some(s) => self.source_ip_spec() == Some(s@),
                None => self.source_ip_spec() is None,
            },
    {
        match self {
            LambdaHttpEvent::HttpV2(e) => Some(copy_bytes(&e.source_ip)),
            LambdaHttpEvent::RestOrAlb(e) => match &e.rest_context {
                Some(c) => Some(copy_bytes(&c.source_ip)),
                None => None,
            },
        }
    }

    /// The body field and its base64 flag, uniform over the variants.
    pub open spec fn body_raw_spec(self) -> Option<Seq<u8>> {
        match self {
            LambdaHttpEvent::HttpV2(e) => match e.body {
                Some(b) => Some(b@),
                None => None,
            },
            LambdaHttpEvent::RestOrAlb(e) => match e.body {
                Some(b) => Some(b@),
                None => None,
            },
        }
    }

    /// Whether the body field is base64-coded.
    pub open spec fn is_base64_spec(self) -> bool {
        match self {
            LambdaHttpEvent::HttpV2(e) => e.is_base64_encoded,
            LambdaHttpEvent::RestOrAlb(e) => e.is_base64_encoded,
        }
    }

    /// The request body as bytes: an absent body is empty, a base64 body
    /// is decoded (a bad one is the one body error), any other body is its
    /// UTF-8 bytes verbatim.
    pub fn body(&self) -> (r: Result<Vec<u8>, EventError>)
        ensures
            match self.body_raw_spec() {
                None => r matches Ok(b) && b@ == Seq::<u8>::empty(),
                Some(raw) => {
                    if !self.is_base64_spec() {
                        r matches Ok(b) && b@ == raw
                    } else {
                        match base64_decoded_of(raw) {
                            Some(d) => r matches Ok(b) && b@ == d,
                            None => r == Err::<Vec<u8>, EventError>(EventError::InvalidBodyEncoding),
                        }
                    }
                },
            },
    {
        let (body, b64) = match self {
            LambdaHttpEvent::HttpV2(e) => (&e.body, e.is_base64_encoded),
            LambdaHttpEvent::RestOrAlb(e) => (&e.body, e.is_base64_encoded),
        };
        match body {
            None => Ok(Vec::new()),
            Some(raw) => {
                if b64 {
                    match base64_decode(raw) {
                        Ok(d) => Ok(d),
                        Err(_) => Err(EventError::InvalidBodyEncoding),
                    }
                } else {
                    Ok(copy_bytes(raw))
                }
            },
        }
    }
}

/// A key paired with each of its values, in order.
pub open spec fn kv_pairs(k: Seq<u8>, vs: Seq<Seq<u8>>) -> Seq<(Seq<u8>, Seq<u8>)> {
    Seq::new(vs.len(), |i: int| (k, vs[i]))
}

/// Multi-valued headers flattened to single pairs: keys in source order,
/// each key's values kept in their order.
pub open spec fn flatten_multi(hs: Seq<(Seq<u8>, Seq<Seq<u8>>)>) -> Seq<(Seq<u8>, Seq<u8>)>
    decreases hs.len(),
{
    if hs.len() == 0 {
        Seq::empty()
    } else {
        kv_pairs(hs[0].0, hs[0].1) + flatten_multi(hs.subrange(1, hs.len() as int))
    }
}

proof fn lemma_flatten_multi_push(hs: Seq<(Seq<u8>, Seq<Seq<u8>>)>, h: (Seq<u8>, Seq<Seq<u8>>))
    ensures
        flatten_multi(hs.push(h)) == flatten_multi(hs) + kv_pairs(h.0, h.1),
    decreases hs.len(),
{
    let p = hs.push(h);
    if hs.len() == 0 {
        let e0 = Seq::<(Seq<u8>, Seq<Seq<u8>>)>::empty();
        assert(p.subrange(1, p.len() as int) =~= e0);
        assert(flatten_multi(e0) == Seq::<(Seq<u8>, Seq<u8>)>::empty());
        assert(p[0] == h);
        assert(flatten_multi(p) == kv_pairs(h.0, h.1) + flatten_multi(e0));
        assert(kv_pairs(h.0, h.1) + Seq::<(Seq<u8>, Seq<u8>)>::empty() =~= kv_pairs(h.0, h.1));
        assert(Seq::<(Seq<u8>, Seq<u8>)>::empty() + kv_pairs(h.0, h.1) =~= kv_pairs(h.0, h.1));
    } else {
        lemma_flatten_multi_push(hs.subrange(1, hs.len() as int), h);
        assert(p.subrange(1, p.len() as int) =~= hs.subrange(1, hs.len() as int).push(h));
        assert(p[0] == hs[0]);
        assert(flatten_multi(p) =~= flatten_multi(hs) + kv_pairs(h.0, h.1));
    }
}

impl LambdaHttpEvent {
    /// The ordered header list: the v2 single-valued map as it stands, or
    /// the multi-valued map flattened, duplicates preserved.
    pub open spec fn headers_spec(self) -> Seq<(Seq<u8>, Seq<u8>)> {
        match self {
            LambdaHttpEvent::HttpV2(e) => e.headers.deep_view(),
            LambdaHttpEvent::RestOrAlb(e) => flatten_multi(e.multi_value_headers.deep_view()),
        }
    }

    /// HTTP headers, flattened to an ordered pair list.
    pub fn headers(&self) -> (r: Vec<(Vec<u8>, Vec<u8>)>)
        ensures
            r.deep_view() == self.headers_spec(),
    {
        match self {
            LambdaHttpEvent::HttpV2(e) => {
                let mut out: Vec<(Vec<u8>, Vec<u8>)> = Vec::new();
                let mut i: usize = 0;
                while i < e.headers.len()
                    invariant
                        i <= e.headers.len(),
                        out@.len() == i,
                        forall|j: int|
                            0 <= j < i ==> #[trigger] out@[j].0@ == e.headers@[j].0@ && out@[j].1@
                                == e.headers@[j].1@,
                    decreases e.headers.len() - i,
                {
                    let k = copy_bytes(&e.headers[i].0);
                    let v = copy_bytes(&e.headers[i].1);
                    out.push((k, v));
                    i = i + 1;
                }
                proof {
                    assert(out.deep_view() =~= e.headers.deep_view());
                }
                out
            },
            LambdaHttpEvent::RestOrAlb(e) => {
                let ghost dv = e.multi_value_headers.deep_view();
                let mut out: Vec<(Vec<u8>, Vec<u8>)> = Vec::new();
                let mut i: usize = 0;
                proof {
                    assert(dv.subrange(0, 0) =~= Seq::<(Seq<u8>, Seq<Seq<u8>>)>::empty());
                }
                while i < e.multi_value_headers.len()
                    invariant
                        i <= e.multi_value_headers.len(),
                        dv == e.multi_value_headers.deep_view(),
                        dv.len() == e.multi_value_headers@.len(),
                        forall|j: int|
                            0 <= j < dv.len() ==> #[trigger] dv[j] == (
                            e.multi_value_headers@[j].0@,
                            e.multi_value_headers@[j].1.deep_view(),
                            ),
                        out.deep_view() == flatten_multi(dv.subrange(0, i as int)),
                    decreases e.multi_value_headers.len() - i,
                {
                    let vs = &e.multi_value_headers[i].1;
                    let ghost key = dv[i as int].0;
                    let ghost vals = dv[i as int].1;
                    let mut j: usize = 0;
                    proof {
                        assert(vals.subrange(0, 0) =~= Seq::<Seq<u8>>::empty());
                        assert(kv_pairs(key, vals.subrange(0, 0)) =~= Seq::<
                            (Seq<u8>, Seq<u8>),
                        >::empty());
                        assert(out.deep_view() + Seq::<(Seq<u8>, Seq<u8>)>::empty()
                            =~= out.deep_view());
                    }
                    let ghost out_before = out.deep_view();
                    while j < vs.len()
                        invariant
                            j <= vs.len(),
                            i < e.multi_value_headers.len(),
                            key == e.multi_value_headers@[i as int].0@,
                            vals == vs.deep_view(),
                            vals.len() == vs@.len(),
                            forall|l: int| 0 <= l < vals.len() ==> #[trigger] vals[l] == vs@[l]@,
                            out.deep_view() == out_before + kv_pairs(
                                key,
                                vals.subrange(0, j as int),
                            ),
                        decreases vs.len() - j,
                    {
                        let k = copy_bytes(&e.multi_value_headers[i].0);
                        let v = copy_bytes(&vs[j]);
                        proof {
                            assert(k@ == key);
                        }
                        proof {
                            assert(k.deep_view() =~= key);
                            assert(v.deep_view() =~= vals[j as int]);
                        }
                        let ghost prev = out.deep_view();
                        out.push((k, v));
                        proof {
                            let rhs = out_before + kv_pairs(key, vals.subrange(0, j as int + 1));
                            assert(out.deep_view().len() == prev.len() + 1);
                            assert(forall|l: int|
                                0 <= l < prev.len() ==> out.deep_view()[l] == prev[l]);
                            assert(out.deep_view()[prev.len() as int] == (key, vals[j as int]));
                            assert(out.deep_view().len() == rhs.len());
                            assert forall|l: int|
                                0 <= l < out.deep_view().len() implies out.deep_view()[l]
                                == rhs[l] by {
                                if l < out_before.len() {
                                    assert(prev[l] == out_before[l]);
                                    assert(rhs[l] == out_before[l]);
                                } else if l < prev.len() {
                                    assert(prev[l] == (key, vals.subrange(0, j as int)[l
                                        - out_before.len()]));
                                    assert(rhs[l] == (key, vals.subrange(0, j as int + 1)[l
                                        - out_before.len()]));
                                } else {
                                    assert(rhs[l] == (key, vals.subrange(0, j as int + 1)[l
                                        - out_before.len()]));
                                }
                            }
                            assert(out.deep_view() =~= rhs);
                        }
                        j = j + 1;
                    }
                    proof {
                        assert(vals.subrange(0, vals.len() as int) =~= vals);
                        assert(dv.subrange(0, i as int + 1) =~= dv.subrange(0, i as int).push(
                            dv[i as int],
                        ));
                        lemma_flatten_multi_push(dv.subrange(0, i as int), dv[i as int]);
                    }
                    i = i + 1;
                }
                proof {
                    assert(dv.subrange(0, dv.len() as int) =~= dv);
                }
                out
            },
        }
    }
}

/// One `cookie` header value split at `;`, each piece trimmed, exactly as
/// a wire cookie header lists its pairs.
pub open spec fn split_cookies(s: Seq<u8>) -> Seq<Seq<u8>>
    decreases s.len(),
    via split_cookies_dec
{
    let c = find_byte(s, 0x3b);
    if c >= s.len() {
        seq![trimmed(s)]
    } else {
        seq![trimmed(s.take(c))] + split_cookies(s.subrange(c + 1, s.len() as int))
    }
}

#[via_fn]
proof fn split_cookies_dec(s: Seq<u8>) {
    lemma_find_byte(s, 0x3b);
}

/// Every `cookie` header value split, in order.
pub open spec fn split_all_cookies(vs: Seq<Seq<u8>>) -> Seq<Seq<u8>>
    decreases vs.len(),
{
    if vs.len() == 0 {
        Seq::empty()
    } else {
        split_cookies(vs[0]) + split_all_cookies(vs.subrange(1, vs.len() as int))
    }
}

proof fn lemma_split_all_cookies_push(vs: Seq<Seq<u8>>, x: Seq<u8>)
    ensures
        split_all_cookies(vs.push(x)) == split_all_cookies(vs) + split_cookies(x),
    decreases vs.len(),
{
    let p = vs.push(x);
    if vs.len() == 0 {
        let e0 = Seq::<Seq<u8>>::empty();
        assert(p.subrange(1, p.len() as int) =~= e0);
        assert(split_all_cookies(e0) == Seq::<Seq<u8>>::empty());
        assert(p[0] == x);
        assert(split_cookies(x) + Seq::<Seq<u8>>::empty() =~= split_cookies(x));
        assert(Seq::<Seq<u8>>::empty() + split_cookies(x) =~= split_cookies(x));
    } else {
        lemma_split_all_cookies_push(vs.subrange(1, vs.len() as int), x);
        assert(p.subrange(1, p.len() as int) =~= vs.subrange(1, vs.len() as int).push(x));
        assert(p[0] == vs[0]);
        assert(split_cookies(vs[0]) + (split_all_cookies(vs.subrange(1, vs.len() as int))
            + split_cookies(x)) =~= (split_cookies(vs[0]) + split_all_cookies(
            vs.subrange(1, vs.len() as int),
        )) + split_cookies(x));
    }
}

/// Split one header value at `;` and trim the pieces.
fn split_cookie_value(v: &Vec<u8>) -> (r: Vec<Vec<u8>>)
    ensures
        r.deep_view() == split_cookies(v@),
{
    let mut out: Vec<Vec<u8>> = Vec::new();
    let mut start: usize = 0;
    proof {
        assert(v@.skip(0) =~= v@);
        assert(Seq::<Seq<u8>>::empty() + split_cookies(v@) =~= split_cookies(v@));
    }
    loop
        invariant_except_break
            start <= v@.len(),
            split_cookies(v@) == out.deep_view() + split_cookies(v@.skip(start as int)),
        ensures
            out.deep_view() == split_cookies(v@),
        decreases v@.len() - start,
    {
        let c = find_byte_from(v, start, 0x3b);
        let piece = trim_bytes(&copy_range(v, start, c));
        let ghost rem = v@.skip(start as int);
        let ghost pv = piece@;
        let ghost old_dv = out.deep_view();
        proof {
            assert(v@.subrange(start as int, c as int) =~= rem.take(c - start as int));
            assert(pv == trimmed(rem.take(c - start as int)));
            assert(piece.deep_view() =~= pv);
        }
        out.push(piece);
        proof {
            assert(out.deep_view() =~= old_dv.push(pv));
        }
        if c == v.len() {
            proof {
                assert(find_byte(rem, 0x3b) == rem.len());
                assert(rem.take(rem.len() as int) =~= rem);
                assert(split_cookies(rem) == seq![trimmed(rem)]);
                assert(old_dv.push(pv) =~= old_dv + seq![trimmed(rem)]);
            }
            break ;
        }
        proof {
            assert(find_byte(rem, 0x3b) == c - start < rem.len());
            assert(split_cookies(rem) == seq![trimmed(rem.take(c - start as int))]
                + split_cookies(rem.subrange(c - start as int + 1, rem.len() as int)));
            assert(rem.subrange(c - start as int + 1, rem.len() as int) =~= v@.skip(
                c as int + 1,
            ));
            assert(out.deep_view() + split_cookies(v@.skip(c as int + 1)) =~= (old_dv
                + split_cookies(rem)));
        }
        start = c + 1;
    }
    out
}

/// A cookie entry that names a pair: an `=` preceded by a non-empty name.
pub open spec fn is_cookie_pair(s: Seq<u8>) -> bool {
    0 < find_byte(s, 0x3d) < s.len()
}

/// The entries that name a pair, in order; the others are dropped.
pub open spec fn kept_cookies(cs: Seq<Seq<u8>>) -> Seq<Seq<u8>>
    decreases cs.len(),
{
    if cs.len() == 0 {
        Seq::empty()
    } else {
        (if is_cookie_pair(cs[0]) {
            seq![cs[0]]
        } else {
            Seq::empty()
        }) + kept_cookies(cs.subrange(1, cs.len() as int))
    }
}

proof fn lemma_kept_cookies_push(cs: Seq<Seq<u8>>, x: Seq<u8>)
    ensures
        kept_cookies(cs.push(x)) == kept_cookies(cs) + (if is_cookie_pair(x) {
            seq![x]
        } else {
            Seq::<Seq<u8>>::empty()
        }),
    decreases cs.len(),
{
    let p = cs.push(x);
    let tail = (if is_cookie_pair(x) {
        seq![x]
    } else {
        Seq::<Seq<u8>>::empty()
    });
    if cs.len() == 0 {
        let e0 = Seq::<Seq<u8>>::empty();
        assert(p.subrange(1, p.len() as int) =~= e0);
        assert(kept_cookies(e0) == Seq::<Seq<u8>>::empty());
        assert(p[0] == x);
        assert(tail + Seq::<Seq<u8>>::empty() =~= tail);
        assert(Seq::<Seq<u8>>::empty() + tail =~= tail);
    } else {
        lemma_kept_cookies_push(cs.subrange(1, cs.len() as int), x);
        assert(p.subrange(1, p.len() as int) =~= cs.subrange(1, cs.len() as int).push(x));
        assert(p[0] == cs[0]);
        let head = (if is_cookie_pair(cs[0]) {
            seq![cs[0]]
        } else {
            Seq::<Seq<u8>>::empty()
        });
        assert(head + (kept_cookies(cs.subrange(1, cs.len() as int)) + tail) =~= (head
            + kept_cookies(cs.subrange(1, cs.len() as int))) + tail);
    }
}

/// The separator between merged cookie pairs.
pub open spec fn cookie_sep() -> Seq<u8> {
    ("; ").spec_bytes()
}

/// Does this entry name a cookie pair?
fn is_cookie_pair_exec(v: &Vec<u8>) -> (r: bool)
    ensures
        r == is_cookie_pair(v@),
{
    proof {
        assert(v@.skip(0) =~= v@);
    }
    let f = find_byte_from(v, 0, 0x3d);
    0 < f && f < v.len()
}

impl LambdaHttpEvent {
    /// The individual cookie entries: the v2 array as delivered, or the
    /// `cookie` header values split at `;` and trimmed.
    pub open spec fn cookies_spec(self) -> Seq<Seq<u8>> {
        match self {
            LambdaHttpEvent::HttpV2(e) => match e.cookies {
                Some(cs) => cs.deep_view(),
                None => Seq::empty(),
            },
            LambdaHttpEvent::RestOrAlb(e) => match mv_lookup(
                e.multi_value_headers.deep_view(),
                name_cookie(),
            ) {
                Some(vs) => split_all_cookies(vs),
                None => Seq::empty(),
            },
        }
    }

    /// Cookies, one encoded `name=value` entry each.
    pub fn cookies(&self) -> (r: Vec<Vec<u8>>)
        ensures
            r.deep_view() == self.cookies_spec(),
    {
        match self {
            LambdaHttpEvent::HttpV2(e) => match &e.cookies {
                Some(cs) => copy_byte_vecs(cs),
                None => {
                    let r: Vec<Vec<u8>> = Vec::new();
                    proof {
                        assert(r.deep_view() =~= Seq::<Seq<u8>>::empty());
                    }
                    r
                },
            },
            LambdaHttpEvent::RestOrAlb(e) => {
                let key = ("cookie").as_bytes_vec();
                match mv_get(&e.multi_value_headers, &key) {
                    Some(vs) => {
                        let ghost vdv = vs.deep_view();
                        let mut out: Vec<Vec<u8>> = Vec::new();
                        let mut i: usize = 0;
                        proof {
                            assert(vdv.subrange(0, 0) =~= Seq::<Seq<u8>>::empty());
                            assert(split_all_cookies(vdv.subrange(0, 0)) == Seq::<Seq<u8>>::empty());
                            assert(out.deep_view() =~= Seq::<Seq<u8>>::empty());
                        }
                        while i < vs.len()
                            invariant
                                i <= vs.len(),
                                vdv == vs.deep_view(),
                                vdv.len() == vs@.len(),
                                forall|l: int| 0 <= l < vdv.len() ==> #[trigger] vdv[l] == vs@[l]@,
                                out.deep_view() == split_all_cookies(vdv.subrange(0, i as int)),
                            decreases vs.len() - i,
                        {
                            let pieces = split_cookie_value(&vs[i]);
                            append_all(&mut out, &pieces);
                            proof {
                                assert(vdv.subrange(0, i as int + 1) =~= vdv.subrange(
                                    0,
                                    i as int,
                                ).push(vdv[i as int]));
                                lemma_split_all_cookies_push(
                                    vdv.subrange(0, i as int),
                                    vdv[i as int],
                                );
                            }
                            i = i + 1;
                        }
                        proof {
                            assert(vdv.subrange(0, vdv.len() as int) =~= vdv);
                        }
                        out
                    },
                    None => {
                        let r: Vec<Vec<u8>> = Vec::new();
                        proof {
                            assert(r.deep_view() =~= Seq::<Seq<u8>>::empty());
                        }
                        r
                    },
                }
            },
        }
    }

    /// The one `cookie` header value a request should carry: for v2 the
    /// entries that name a pair joined with `"; "` (none valid: no header),
    /// for the multi-valued shape the delivered `cookie` values joined.
    pub open spec fn merged_cookie_spec(self) -> Option<Seq<u8>> {
        match self {
            LambdaHttpEvent::HttpV2(e) => match e.cookies {
                Some(cs) => {
                    let k = kept_cookies(cs.deep_view());
                    if k.len() == 0 {
                        None
                    } else {
                        Some(join_with(k, cookie_sep()))
                    }
                },
                None => None,
            },
            LambdaHttpEvent::RestOrAlb(e) => match mv_lookup(
                e.multi_value_headers.deep_view(),
                name_cookie(),
            ) {
                Some(vs) => if vs.len() == 0 {
                    None
                } else {
                    Some(join_with(vs, cookie_sep()))
                },
                None => None,
            },
        }
    }

    /// The merged `cookie` header value, if the event carries any cookie.
    pub fn merged_cookie(&self) -> (r: Option<Vec<u8>>)
        ensures
            match r {
                Some(c) => self.merged_cookie_spec() == Some(c@),
                None => self.merged_cookie_spec() is None,
            },
    {
        let sep = ("; ").as_bytes_vec();
        match self {
            LambdaHttpEvent::HttpV2(e) => match &e.cookies {
                Some(cs) => {
                    let ghost cdv = cs.deep_view();
                    let mut kept: Vec<Vec<u8>> = Vec::new();
                    let mut i: usize = 0;
                    proof {
                        assert(cdv.subrange(0, 0) =~= Seq::<Seq<u8>>::empty());
                        assert(kept_cookies(cdv.subrange(0, 0)) == Seq::<Seq<u8>>::empty());
                        assert(kept.deep_view() =~= Seq::<Seq<u8>>::empty());
                    }
                    while i < cs.len()
                        invariant
                            i <= cs.len(),
                            cdv == cs.deep_view(),
                            cdv.len() == cs@.len(),
                            forall|l: int| 0 <= l < cdv.len() ==> #[trigger] cdv[l] == cs@[l]@,
                            kept.deep_view() == kept_cookies(cdv.subrange(0, i as int)),
                        decreases cs.len() - i,
                    {
                        proof {
                            assert(cdv.subrange(0, i as int + 1) =~= cdv.subrange(
                                0,
                                i as int,
                            ).push(cdv[i as int]));
                            lemma_kept_cookies_push(cdv.subrange(0, i as int), cdv[i as int]);
                        }
                        if is_cookie_pair_exec(&cs[i]) {
                            let x = copy_bytes(&cs[i]);
                            let ghost old_dv = kept.deep_view();
                            proof {
                                assert(x.deep_view() =~= cdv[i as int]);
                            }
                            kept.push(x);
                            proof {
                                assert(kept.deep_view() =~= old_dv.push(cdv[i as int]));
                                assert(old_dv.push(cdv[i as int]) =~= old_dv + seq![cdv[i as int]]);
                            }
                        } else {
                            proof {
                                assert(kept.deep_view() + Seq::<Seq<u8>>::empty()
                                    =~= kept.deep_view());
                            }
                        }
                        i = i + 1;
                    }
                    proof {
                        assert(cdv.subrange(0, cdv.len() as int) =~= cdv);
                    }
                    if kept.len() == 0 {
                        None
                    } else {
                        Some(join_bytes(&kept, &sep))
                    }
                },
                None => None,
            },
            LambdaHttpEvent::RestOrAlb(e) => {
                let key = ("cookie").as_bytes_vec();
                match mv_get(&e.multi_value_headers, &key) {
                    Some(vs) => {
                        if vs.len() == 0 {
                            None
                        } else {
                            let copies = copy_byte_vecs(vs);
                            Some(join_bytes(&copies, &sep))
                        }
                    },
                    None => None,
                }
            },
        }
    }
}

/// One element of an `accept-encoding` list names brotli: the part before
/// any `;` (where parameters such as `q=` begin), trimmed, is exactly
/// `br`. Stated of the lower-cased value.
pub open spec fn elem_names_br(elem: Seq<u8>) -> bool {
    trimmed(elem.take(find_byte(elem, 0x3b))) == name_br()
}

/// Does a lower-cased `accept-encoding` value, split at commas, list
/// brotli among the named codings?
pub open spec fn lists_br(s: Seq<u8>) -> bool
    decreases s.len(),
    via lists_br_dec
{
    let c = find_byte(s, 0x2c);
    if elem_names_br(s.take(c)) {
        true
    } else if c >= s.len() {
        false
    } else {
        lists_br(s.subrange(c + 1, s.len() as int))
    }
}

#[via_fn]
proof fn lists_br_dec(s: Seq<u8>) {
    lemma_find_byte(s, 0x2c);
}

/// Scan one `accept-encoding` value for `br`.
fn value_lists_br(v: &Vec<u8>) -> (r: bool)
    ensures
        r == lists_br(lower_bytes(v@)),
{
    let lv = to_ascii_lower(v);
    let br = ("br").as_bytes_vec();
    proof {
        assert(lv@.skip(0) =~= lv@);
    }
    let mut start: usize = 0;
    loop
        invariant
            start <= lv@.len(),
            br@ == name_br(),
            lv@ == lower_bytes(v@),
            lists_br(lv@) == lists_br(lv@.skip(start as int)),
        decreases lv@.len() - start,
    {
        let c = find_byte_from(&lv, start, 0x2c);
        let ghost rem = lv@.skip(start as int);
        let elem = copy_range(&lv, start, c);
        proof {
            assert(elem@ =~= rem.take(c - start as int));
            assert(elem@.skip(0) =~= elem@);
        }
        let f = find_byte_from(&elem, 0, 0x3b);
        let namepart = trim_bytes(&copy_range(&elem, 0, f));
        proof {
            assert(elem@.subrange(0, f as int) =~= elem@.take(find_byte(elem@, 0x3b)));
        }
        if bytes_eq(&namepart, &br) {
            proof {
                assert(elem_names_br(rem.take(find_byte(rem, 0x2c))));
                assert(lists_br(rem));
            }
            return true;
        }
        if c == lv.len() {
            proof {
                assert(find_byte(rem, 0x2c) == rem.len());
                assert(!elem_names_br(rem.take(find_byte(rem, 0x2c))));
                assert(!lists_br(rem));
            }
            return false;
        }
        proof {
            assert(find_byte(rem, 0x2c) == c - start < rem.len());
            assert(!elem_names_br(rem.take(find_byte(rem, 0x2c))));
            assert(rem.subrange(c - start as int + 1, rem.len() as int) =~= lv@.skip(c as int + 1));
        }
        start = c + 1;
    }
}

/// Some value in the list, lower-cased, lists brotli.
pub open spec fn any_value_lists_br(vs: Seq<Seq<u8>>) -> bool {
    exists|i: int| 0 <= i < vs.len() && lists_br(lower_bytes(#[trigger] vs[i]))
}

impl LambdaHttpEvent {
    /// Does the client accept brotli? The `accept-encoding` header (every
    /// instance, for the multi-valued shape), split at commas, names `br`.
    pub open spec fn client_supports_brotli_spec(self) -> bool {
        match self {
            LambdaHttpEvent::HttpV2(e) => match sv_lookup(
                e.headers.deep_view(),
                name_accept_encoding(),
            ) {
                Some(v) => lists_br(lower_bytes(v)),
                None => false,
            },
            LambdaHttpEvent::RestOrAlb(e) => match mv_lookup(
                e.multi_value_headers.deep_view(),
                name_accept_encoding(),
            ) {
                Some(vs) => any_value_lists_br(vs),
                None => false,
            },
        }
    }

    /// Check whether the HTTP client supports brotli compression.
    pub fn client_supports_brotli(&self) -> (r: bool)
        ensures
            r == self.client_supports_brotli_spec(),
    {
        let key = ("accept-encoding").as_bytes_vec();
        match self {
            LambdaHttpEvent::HttpV2(e) => match sv_get(&e.headers, &key) {
                Some(v) => value_lists_br(v),
                None => false,
            },
            LambdaHttpEvent::RestOrAlb(e) => match mv_get(&e.multi_value_headers, &key) {
                Some(vs) => {
                    let ghost vdv = vs.deep_view();
                    let mut i: usize = 0;
                    while i < vs.len()
                        invariant
                            i <= vs.len(),
                            vdv == vs.deep_view(),
                            vdv.len() == vs@.len(),
                            *self is RestOrAlb,
                            self.client_supports_brotli_spec() == any_value_lists_br(vdv),
                            forall|l: int| 0 <= l < vdv.len() ==> #[trigger] vdv[l] == vs@[l]@,
                            forall|l: int| 0 <= l < i ==> !lists_br(lower_bytes(#[trigger] vdv[l])),
                        decreases vs.len() - i,
                    {
                        if value_lists_br(&vs[i]) {
                            proof {
                                assert(lists_br(lower_bytes(vdv[i as int])));
                                assert(any_value_lists_br(vdv));
                            }
                            return true;
                        }
                        i = i + 1;
                    }
                    false
                },
                None => false,
            },
        }
    }
}

/// One query pair on the wire: encoded key, `=`, encoded value.
pub open spec fn pair_encoded(k: Seq<u8>, v: Seq<u8>) -> Seq<u8> {
    percent_encoded(k, true) + seq![0x3du8] + percent_encoded(v, true)
}

/// One key's pairs, in value order.
pub open spec fn key_pairs(k: Seq<u8>, vs: Seq<Seq<u8>>) -> Seq<Seq<u8>> {
    Seq::new(vs.len(), |i: int| pair_encoded(k, vs[i]))
}

/// Every encoded `key=value` pair of the query map, keys in source order.
pub open spec fn query_pairs(params: Seq<(Seq<u8>, Seq<Seq<u8>>)>) -> Seq<Seq<u8>>
    decreases params.len(),
{
    if params.len() == 0 {
        Seq::empty()
    } else {
        key_pairs(params[0].0, params[0].1) + query_pairs(params.subrange(1, params.len() as int))
    }
}

proof fn lemma_query_pairs_push(params: Seq<(Seq<u8>, Seq<Seq<u8>>)>, p: (Seq<u8>, Seq<Seq<u8>>))
    ensures
        query_pairs(params.push(p)) == query_pairs(params) + key_pairs(p.0, p.1),
    decreases params.len(),
{
    let q = params.push(p);
    if params.len() == 0 {
        let e0 = Seq::<(Seq<u8>, Seq<Seq<u8>>)>::empty();
        assert(q.subrange(1, q.len() as int) =~= e0);
        assert(query_pairs(e0) == Seq::<Seq<u8>>::empty());
        assert(q[0] == p);
        assert(query_pairs(q) == key_pairs(p.0, p.1) + query_pairs(e0));
        assert(key_pairs(p.0, p.1) + Seq::<Seq<u8>>::empty() =~= key_pairs(p.0, p.1));
        assert(Seq::<Seq<u8>>::empty() + key_pairs(p.0, p.1) =~= key_pairs(p.0, p.1));
    } else {
        lemma_query_pairs_push(params.subrange(1, params.len() as int), p);
        assert(q.subrange(1, q.len() as int) =~= params.subrange(1, params.len() as int).push(p));
        assert(q[0] == params[0]);
        assert(key_pairs(params[0].0, params[0].1) + (query_pairs(
            params.subrange(1, params.len() as int),
        ) + key_pairs(p.0, p.1)) =~= (key_pairs(params[0].0, params[0].1) + query_pairs(
            params.subrange(1, params.len() as int),
        )) + key_pairs(p.0, p.1));
    }
}

/// The separator between query pairs.
pub open spec fn amp() -> Seq<u8> {
    ("&").spec_bytes()
}

/// Encode one `key=value` query pair.
fn encode_pair(k: &Vec<u8>, v: &Vec<u8>) -> (r: Vec<u8>)
    ensures
        r@ == pair_encoded(k@, v@),
{
    let mut r = percent_encode(k, true);
    r.push(0x3d);
    let ev = percent_encode(v, true);
    append_bytes(&mut r, &ev);
    proof {
        assert(r@ =~= pair_encoded(k@, v@));
    }
    r
}

/// Flatten and encode the multi-valued query map.
fn build_query_pairs(params: &Vec<(Vec<u8>, Vec<Vec<u8>>)>) -> (r: Vec<Vec<u8>>)
    ensures
        r.deep_view() == query_pairs(params.deep_view()),
{
    let ghost dv = params.deep_view();
    let mut out: Vec<Vec<u8>> = Vec::new();
    let mut i: usize = 0;
    proof {
        assert(dv.subrange(0, 0) =~= Seq::<(Seq<u8>, Seq<Seq<u8>>)>::empty());
        assert(out.deep_view() =~= Seq::<Seq<u8>>::empty());
    }
    while i < params.len()
        invariant
            i <= params.len(),
            dv == params.deep_view(),
            dv.len() == params@.len(),
            forall|j: int|
                0 <= j < dv.len() ==> #[trigger] dv[j] == (
                params@[j].0@,
                params@[j].1.deep_view(),
                ),
            out.deep_view() == query_pairs(dv.subrange(0, i as int)),
        decreases params.len() - i,
    {
        let vs = &params[i].1;
        let ghost key = dv[i as int].0;
        let ghost vals = dv[i as int].1;
        let ghost out_before = out.deep_view();
        let mut j: usize = 0;
        proof {
            assert(vals.subrange(0, 0) =~= Seq::<Seq<u8>>::empty());
            assert(key_pairs(key, vals.subrange(0, 0)) =~= Seq::<Seq<u8>>::empty());
            assert(out.deep_view() + Seq::<Seq<u8>>::empty() =~= out.deep_view());
        }
        while j < vs.len()
            invariant
                j <= vs.len(),
                i < params.len(),
                key == params@[i as int].0@,
                vals == vs.deep_view(),
                vals.len() == vs@.len(),
                forall|l: int| 0 <= l < vals.len() ==> #[trigger] vals[l] == vs@[l]@,
                out.deep_view() == out_before + key_pairs(key, vals.subrange(0, j as int)),
            decreases vs.len() - j,
        {
            let enc = encode_pair(&params[i].0, &vs[j]);
            let ghost prev = out.deep_view();
            proof {
                assert(enc@ == pair_encoded(key, vals[j as int]));
                assert(enc.deep_view() =~= enc@);
            }
            out.push(enc);
            proof {
                assert(out.deep_view() =~= prev.push(pair_encoded(key, vals[j as int])));
                assert(prev.push(pair_encoded(key, vals[j as int])) =~= out_before + key_pairs(
                    key,
                    vals.subrange(0, j as int + 1),
                ));
            }
            j = j + 1;
        }
        proof {
            assert(vals.subrange(0, vals.len() as int) =~= vals);
            assert(dv.subrange(0, i as int + 1) =~= dv.subrange(0, i as int).push(dv[i as int]));
            lemma_query_pairs_push(dv.subrange(0, i as int), dv[i as int]);
        }
        i = i + 1;
    }
    proof {
        assert(dv.subrange(0, dv.len() as int) =~= dv);
    }
    out
}

impl LambdaHttpEvent {
    /// The request line's path and query, percent-correct: v2 re-encodes
    /// its decoded `rawPath` and pastes the still-encoded `rawQueryString`
    /// verbatim behind `?`; the multi-valued shape re-encodes its decoded
    /// path and builds the query from its decoded map, re-encoding keys
    /// and values.
    pub open spec fn path_query_spec(self) -> Seq<u8> {
        match self {
            LambdaHttpEvent::HttpV2(e) => {
                let p = percent_encoded(e.raw_path@, false);
                let q = match e.raw_query_string {
                    Some(q) => q@,
                    None => Seq::empty(),
                };
                if q.len() == 0 {
                    p
                } else {
                    p + seq![0x3fu8] + q
                }
            },
            LambdaHttpEvent::RestOrAlb(e) => {
                let base = match e.rest_context {
                    Some(c) => c.path@,
                    None => e.path@,
                };
                let p = percent_encoded(base, false);
                match e.multi_value_query_string_parameters {
                    None => p,
                    Some(params) => {
                        let pairs = query_pairs(params.deep_view());
                        if pairs.len() == 0 {
                            p
                        } else {
                            p + seq![0x3fu8] + join_with(pairs, amp())
                        }
                    },
                }
            },
        }
    }

    /// URL-encoded `path?query`.
    pub fn path_query(&self) -> (r: Vec<u8>)
        ensures
            r@ == self.path_query_spec(),
    {
        match self {
            LambdaHttpEvent::HttpV2(e) => {
                let mut r = percent_encode(&e.raw_path, false);
                match &e.raw_query_string {
                    Some(q) => {
                        if q.len() > 0 {
                            r.push(0x3f);
                            append_bytes(&mut r, q);
                            proof {
                                assert(r@ =~= percent_encoded(e.raw_path@, false) + seq![0x3fu8]
                                    + q@);
                            }
                        }
                    },
                    None => {},
                }
                r
            },
            LambdaHttpEvent::RestOrAlb(e) => {
                let base = match &e.rest_context {
                    Some(c) => &c.path,
                    None => &e.path,
                };
                let mut r = percent_encode(base, false);
                match &e.multi_value_query_string_parameters {
                    None => r,
                    Some(params) => {
                        let pairs = build_query_pairs(params);
                        if pairs.len() == 0 {
                            r
                        } else {
                            r.push(0x3f);
                            let a = ("&").as_bytes_vec();
                            let joined = join_bytes(&pairs, &a);
                            append_bytes(&mut r, &joined);
                            proof {
                                let ghost p = percent_encoded(
                                    self.path_query_base_spec(),
                                    false,
                                );
                                assert(r@ =~= p + seq![0x3fu8] + join_with(
                                    query_pairs(params.deep_view()),
                                    amp(),
                                ));
                            }
                            r
                        }
                    },
                }
            },
        }
    }

    /// The path field the request line starts from.
    pub open spec fn path_query_base_spec(self) -> Seq<u8> {
        match self {
            LambdaHttpEvent::HttpV2(e) => e.raw_path@,
            LambdaHttpEvent::RestOrAlb(e) => match e.rest_context {
                Some(c) => c.path@,
                None => e.path@,
            },
        }
    }
}

} // verus!
