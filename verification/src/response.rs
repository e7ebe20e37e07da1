//! The response side: the application's outgoing response, the decision
//! whether to brotli-compress it, and the assembly of the gateway's JSON
//! envelope in the shape the originating event variant demands.

use crate::b64::{base64_encode, base64_of};
use crate::bytes::{copy_bytes, lower_bytes, to_ascii_lower};
use crate::compress::{brotli_compress, brotli_of, compressible_media_type, media_type_compressible};
use crate::json::{bytes_eq, jview, jview_fields, jview_seq, JVal, JsonValue};
use vstd::prelude::*;
use vstd::string::StrSliceExecFns;
use vstd::string::StringSliceAdditionalSpecFns;

verus! {

/// The application's outgoing response: status code, ordered header
/// multimap (duplicates preserved), body bytes.
#[derive(Debug)]
pub struct OutgoingResponse {
    pub status: u16,
    pub headers: Vec<(Vec<u8>, Vec<u8>)>,
    pub body: Vec<u8>,
}

/// The mathematical reading of an outgoing response.
pub struct ResponseModel {
    pub status: u16,
    pub headers: Seq<(Seq<u8>, Seq<u8>)>,
    pub body: Seq<u8>,
}

/// First value under a header name, the name compared after ASCII
/// lower-casing; `name` itself must be lower-case.
pub open spec fn header_lookup_ci(hs: Seq<(Seq<u8>, Seq<u8>)>, name: Seq<u8>) -> Option<Seq<u8>>
    decreases hs.len(),
{
    if hs.len() == 0 {
        None
    } else if lower_bytes(hs[0].0) == name {
        Some(hs[0].1)
    } else {
        header_lookup_ci(hs.subrange(1, hs.len() as int), name)
    }
}

/// Find a header by lower-case name.
fn header_get_ci<'a>(hs: &'a Vec<(Vec<u8>, Vec<u8>)>, name: &Vec<u8>) -> (r: Option<&'a Vec<u8>>)
    ensures
        match r {
            Some(v) => header_lookup_ci(hs.deep_view(), name@) == Some(v@),
            None => header_lookup_ci(hs.deep_view(), name@) is None,
        },
{
    let ghost dv = hs.deep_view();
    let mut i: usize = 0;
    proof {
        assert(dv.subrange(0, dv.len() as int) =~= dv);
    }
    while i < hs.len()
        invariant
            i <= hs.len(),
            dv == hs.deep_view(),
            dv.len() == hs@.len(),
            forall|j: int| 0 <= j < hs@.len() ==> #[trigger] dv[j] == (hs@[j].0@, hs@[j].1@),
            header_lookup_ci(dv, name@) == header_lookup_ci(
                dv.subrange(i as int, dv.len() as int),
                name@,
            ),
        decreases hs.len() - i,
    {
        let low = to_ascii_lower(&hs[i].0);
        if bytes_eq(&low, name) {
            return Some(&hs[i].1);
        }
        proof {
            assert(dv.subrange(i as int, dv.len() as int).subrange(
                1,
                dv.len() - i,
            ) =~= dv.subrange(i as int + 1, dv.len() as int));
        }
        i = i + 1;
    }
    proof {
        assert(dv.subrange(dv.len() as int, dv.len() as int) =~= Seq::<(Seq<u8>, Seq<u8>)>::empty());
    }
    None
}

impl OutgoingResponse {
    /// The mathematical reading of this response.
    pub open spec fn model(self) -> ResponseModel {
        ResponseModel { status: self.status, headers: self.headers.deep_view(), body: self.body@ }
    }

    /// The response's `content-encoding` value, if it carries one.
    pub open spec fn content_encoding_spec(self) -> Option<Seq<u8>> {
        header_lookup_ci(self.headers.deep_view(), ("content-encoding").spec_bytes())
    }

    /// Content-Encoding header value.
    pub fn content_encoding(&self) -> (r: Option<Vec<u8>>)
        ensures
            match r {
                Some(v) => self.content_encoding_spec() == Some(v@),
                None => self.content_encoding_spec() is None,
            },
    {
        match header_get_ci(&self.headers, &("content-encoding").as_bytes_vec()) {
            Some(v) => Some(copy_bytes(v)),
            None => None,
        }
    }

    /// The response's `content-type` value, if it carries one.
    pub open spec fn content_type_spec(self) -> Option<Seq<u8>> {
        header_lookup_ci(self.headers.deep_view(), ("content-type").spec_bytes())
    }

    /// Content-Type header value.
    pub fn content_type(&self) -> (r: Option<Vec<u8>>)
        ensures
            match r {
                Some(v) => self.content_type_spec() == Some(v@),
                None => self.content_type_spec() is None,
            },
    {
        match header_get_ci(&self.headers, &("content-type").as_bytes_vec()) {
            Some(v) => Some(copy_bytes(v)),
            None => None,
        }
    }

    /// Brotli eligibility: never re-compress a response that already
    /// names a content encoding; otherwise compress exactly the
    /// compressible media types.
    pub open spec fn can_brotli_compress_spec(self) -> bool {
        &&& self.content_encoding_spec() is None
        &&& match self.content_type_spec() {
            Some(ct) => compressible_media_type(ct),
            None => false,
        }
    }

    /// May this response be brotli-compressed?
    pub fn can_brotli_compress(&self) -> (r: bool)
        ensures
            r == self.can_brotli_compress_spec(),
    {
        if self.content_encoding().is_some() {
            return false;
        }
        match self.content_type() {
            Some(ct) => media_type_compressible(&ct),
            None => false,
        }
    }
}

/// The fixed plain-text error envelope: not base64-coded, the given
/// status, a lone `content-type: text/plain` header, the given body.
pub open spec fn error_envelope_spec(status: u64, msg: Seq<u8>) -> JVal {
    JVal::Obj(
        seq![
            (("isBase64Encoded").spec_bytes(), JVal::Bool(false)),
            (("statusCode").spec_bytes(), JVal::Num(status)),
            (
                ("headers").spec_bytes(),
                JVal::Obj(
                    seq![(("content-type").spec_bytes(), JVal::Str(("text/plain").spec_bytes()))],
                ),
            ),
            (("body").spec_bytes(), JVal::Str(msg)),
        ],
    )
}

fn build_error_envelope(status: u64, msg: Vec<u8>) -> (r: JsonValue)
    ensures
        jview(r) == error_envelope_spec(status, msg@),
{
    let ghost msg_bytes = msg@;
    let inner: Vec<(Vec<u8>, JsonValue)> = vec![
        (("content-type").as_bytes_vec(), JsonValue::Str(("text/plain").as_bytes_vec())),
    ];
    let ghost inner_v = inner@;
    let fields: Vec<(Vec<u8>, JsonValue)> = vec![
        (("isBase64Encoded").as_bytes_vec(), JsonValue::Bool(false)),
        (("statusCode").as_bytes_vec(), JsonValue::Num(status)),
        (("headers").as_bytes_vec(), JsonValue::Obj(inner)),
        (("body").as_bytes_vec(), JsonValue::Str(msg)),
    ];
    let ghost fields_v = fields@;
    let r = JsonValue::Obj(fields);
    proof {
        crate::json::lemma_jview_fields(inner_v);
        crate::json::lemma_jview_fields(fields_v);
        assert(jview_fields(inner_v) =~= seq![
            (("content-type").spec_bytes(), JVal::Str(("text/plain").spec_bytes())),
        ]);
        assert(jview_fields(fields_v) =~= seq![
            (("isBase64Encoded").spec_bytes(), JVal::Bool(false)),
            (("statusCode").spec_bytes(), JVal::Num(status)),
            (("headers").spec_bytes(), JVal::Obj(jview_fields(inner_v))),
            (("body").spec_bytes(), JVal::Str(msg_bytes)),
        ]);
        assert(jview(r) == error_envelope_spec(status, msg_bytes));
    }
    r
}

/// The fixed response to a request that could not be normalized.
pub fn bad_request_envelope() -> (r: JsonValue)
    ensures
        jview(r) == error_envelope_spec(400, ("Bad Request").spec_bytes()),
{
    build_error_envelope(400, ("Bad Request").as_bytes_vec())
}

/// The fixed response to a framework failure.
pub fn internal_error_envelope() -> (r: JsonValue)
    ensures
        jview(r) == error_envelope_spec(500, ("Internal Server Error").spec_bytes()),
{
    build_error_envelope(500, ("Internal Server Error").as_bytes_vec())
}

/// Push a string into an array value; any other value is left as it is.
pub open spec fn arr_push(j: JVal, v: Seq<u8>) -> JVal {
    match j {
        JVal::Arr(items) => JVal::Arr(items.push(JVal::Str(v))),
        _ => j,
    }
}

/// Insert-or-replace by exact key: the first occurrence keeps its place
/// and takes the new value; a new key goes at the end.
pub open spec fn upsert(fields: Seq<(Seq<u8>, JVal)>, k: Seq<u8>, v: JVal) -> Seq<(Seq<u8>, JVal)>
    decreases fields.len(),
{
    if fields.len() == 0 {
        seq![(k, v)]
    } else if fields[0].0 == k {
        seq![(k, v)] + fields.subrange(1, fields.len() as int)
    } else {
        seq![fields[0]] + upsert(fields.subrange(1, fields.len() as int), k, v)
    }
}

proof fn lemma_upsert_found(fields: Seq<(Seq<u8>, JVal)>, k: Seq<u8>, v: JVal, idx: int)
    requires
        0 <= idx < fields.len(),
        fields[idx].0 == k,
        forall|j: int| 0 <= j < idx ==> (#[trigger] fields[j]).0 != k,
    ensures
        upsert(fields, k, v) == fields.update(idx, (k, v)),
    decreases fields.len(),
{
    if idx == 0 {
        assert(seq![(k, v)] + fields.subrange(1, fields.len() as int) =~= fields.update(0, (k, v)));
    } else {
        let t = fields.subrange(1, fields.len() as int);
        assert forall|j: int| 0 <= j < idx - 1 implies (#[trigger] t[j]).0 != k by {
            assert(t[j] == fields[j + 1]);
        }
        assert(t[idx - 1] == fields[idx]);
        lemma_upsert_found(t, k, v, idx - 1);
        assert(seq![fields[0]] + t.update(idx - 1, (k, v)) =~= fields.update(idx, (k, v)));
    }
}

proof fn lemma_upsert_missing(fields: Seq<(Seq<u8>, JVal)>, k: Seq<u8>, v: JVal)
    requires
        forall|j: int| 0 <= j < fields.len() ==> (#[trigger] fields[j]).0 != k,
    ensures
        upsert(fields, k, v) == fields.push((k, v)),
    decreases fields.len(),
{
    if fields.len() == 0 {
        assert(seq![(k, v)] =~= fields.push((k, v)));
    } else {
        let t = fields.subrange(1, fields.len() as int);
        assert forall|j: int| 0 <= j < t.len() implies (#[trigger] t[j]).0 != k by {
            assert(t[j] == fields[j + 1]);
        }
        lemma_upsert_missing(t, k, v);
        assert(seq![fields[0]] + t.push((k, v)) =~= fields.push((k, v)));
    }
}

/// Append a value under a key in a multi-valued object: a fresh key gets
/// a one-element array at the end; an existing key's array grows.
pub open spec fn mv_add(fields: Seq<(Seq<u8>, JVal)>, k: Seq<u8>, v: Seq<u8>) -> Seq<
    (Seq<u8>, JVal),
>
    decreases fields.len(),
{
    if fields.len() == 0 {
        seq![(k, JVal::Arr(seq![JVal::Str(v)]))]
    } else if fields[0].0 == k {
        seq![(fields[0].0, arr_push(fields[0].1, v))] + fields.subrange(1, fields.len() as int)
    } else {
        seq![fields[0]] + mv_add(fields.subrange(1, fields.len() as int), k, v)
    }
}

proof fn lemma_mv_add_found(fields: Seq<(Seq<u8>, JVal)>, k: Seq<u8>, v: Seq<u8>, idx: int)
    requires
        0 <= idx < fields.len(),
        fields[idx].0 == k,
        forall|j: int| 0 <= j < idx ==> (#[trigger] fields[j]).0 != k,
    ensures
        mv_add(fields, k, v) == fields.update(idx, (fields[idx].0, arr_push(fields[idx].1, v))),
    decreases fields.len(),
{
    if idx == 0 {
        assert(seq![(fields[0].0, arr_push(fields[0].1, v))] + fields.subrange(
            1,
            fields.len() as int,
        ) =~= fields.update(0, (fields[0].0, arr_push(fields[0].1, v))));
    } else {
        let t = fields.subrange(1, fields.len() as int);
        assert forall|j: int| 0 <= j < idx - 1 implies (#[trigger] t[j]).0 != k by {
            assert(t[j] == fields[j + 1]);
        }
        assert(t[idx - 1] == fields[idx]);
        lemma_mv_add_found(t, k, v, idx - 1);
        assert(seq![fields[0]] + t.update(idx - 1, (fields[idx].0, arr_push(fields[idx].1, v)))
            =~= fields.update(idx, (fields[idx].0, arr_push(fields[idx].1, v))));
    }
}

proof fn lemma_mv_add_missing(fields: Seq<(Seq<u8>, JVal)>, k: Seq<u8>, v: Seq<u8>)
    requires
        forall|j: int| 0 <= j < fields.len() ==> (#[trigger] fields[j]).0 != k,
    ensures
        mv_add(fields, k, v) == fields.push((k, JVal::Arr(seq![JVal::Str(v)]))),
    decreases fields.len(),
{
    if fields.len() == 0 {
        assert(seq![(k, JVal::Arr(seq![JVal::Str(v)]))] =~= fields.push(
            (k, JVal::Arr(seq![JVal::Str(v)])),
        ));
    } else {
        let t = fields.subrange(1, fields.len() as int);
        assert forall|j: int| 0 <= j < t.len() implies (#[trigger] t[j]).0 != k by {
            assert(t[j] == fields[j + 1]);
        }
        lemma_mv_add_missing(t, k, v);
        assert(seq![fields[0]] + t.push((k, JVal::Arr(seq![JVal::Str(v)]))) =~= fields.push(
            (k, JVal::Arr(seq![JVal::Str(v)])),
        ));
    }
}

/// The v2 header fold: `set-cookie` values (by lower-cased name) are
/// pulled out into the cookie list, every other header is upserted into
/// the single-valued object, left to right.
pub open spec fn v2_fold(
    hs: Seq<(Seq<u8>, Seq<u8>)>,
    acc: Seq<(Seq<u8>, JVal)>,
    cookies: Seq<Seq<u8>>,
) -> (Seq<(Seq<u8>, JVal)>, Seq<Seq<u8>>)
    decreases hs.len(),
{
    if hs.len() == 0 {
        (acc, cookies)
    } else if lower_bytes(hs[0].0) == ("set-cookie").spec_bytes() {
        v2_fold(hs.subrange(1, hs.len() as int), acc, cookies.push(hs[0].1))
    } else {
        v2_fold(
            hs.subrange(1, hs.len() as int),
            upsert(acc, hs[0].0, JVal::Str(hs[0].1)),
            cookies,
        )
    }
}

/// The multi-value header fold: every header appended under its key,
/// left to right.
pub open spec fn mv_fold(hs: Seq<(Seq<u8>, Seq<u8>)>, acc: Seq<(Seq<u8>, JVal)>) -> Seq<
    (Seq<u8>, JVal),
>
    decreases hs.len(),
{
    if hs.len() == 0 {
        acc
    } else {
        mv_fold(hs.subrange(1, hs.len() as int), mv_add(acc, hs[0].0, hs[0].1))
    }
}

/// Replace the first pair with the given key, or add one at the end.
fn upsert_header(acc: &mut Vec<(Vec<u8>, JsonValue)>, k: &Vec<u8>, v: JsonValue)
    ensures
        jview_fields(final(acc)@) == upsert(jview_fields(old(acc)@), k@, jview(v)),
{
    let ghost f0 = jview_fields(old(acc)@);
    proof {
        crate::json::lemma_jview_fields(old(acc)@);
    }
    let mut i: usize = 0;
    while i < acc.len()
        invariant
            i <= acc@.len(),
            acc@ == old(acc)@,
            f0 == jview_fields(acc@),
            f0.len() == acc@.len(),
            forall|j: int|
                0 <= j < acc@.len() ==> f0[j] == ((#[trigger] acc@[j]).0@, jview(acc@[j].1)),
            forall|j: int| 0 <= j < i ==> (#[trigger] f0[j]).0 != k@,
        decreases acc@.len() - i,
    {
        if bytes_eq(&acc[i].0, k) {
            let ghost jv = jview(v);
            let pair = acc.remove(i);
            acc.insert(i, (pair.0, v));
            proof {
                lemma_upsert_found(f0, k@, jv, i as int);
                assert(acc@ =~= old(acc)@.update(i as int, acc@[i as int]));
                crate::json::lemma_jview_fields(acc@);
                crate::json::lemma_jview_fields(old(acc)@);
                let target = f0.update(i as int, (k@, jv));
                assert forall|j: int|
                    0 <= j < acc@.len() implies jview_fields(acc@)[j] == target[j] by {
                    assert(jview_fields(acc@)[j] == (acc@[j].0@, jview(acc@[j].1)));
                    if j != i {
                        assert(acc@[j] == old(acc)@[j]);
                        assert(jview_fields(old(acc)@)[j] == (old(acc)@[j].0@, jview(
                            old(acc)@[j].1,
                        )));
                    } else {
                        assert(acc@[j].0 == pair.0);
                        assert(pair.0@ == k@);
                        assert(jview(acc@[j].1) == jv);
                    }
                }
                assert(jview_fields(acc@) =~= target);
            }
            return ;
        }
        i = i + 1;
    }
    let ghost jv = jview(v);
    acc.push((copy_bytes(k), v));
    proof {
        lemma_upsert_missing(f0, k@, jv);
        crate::json::lemma_jview_fields(acc@);
        crate::json::lemma_jview_fields(old(acc)@);
        let target = f0.push((k@, jv));
        assert forall|j: int| 0 <= j < acc@.len() implies jview_fields(acc@)[j] == target[j] by {
            assert(jview_fields(acc@)[j] == (acc@[j].0@, jview(acc@[j].1)));
            if j < acc@.len() - 1 {
                assert(acc@[j] == old(acc)@[j]);
                assert(jview_fields(old(acc)@)[j] == (old(acc)@[j].0@, jview(old(acc)@[j].1)));
            }
        }
        assert(jview_fields(acc@) =~= target);
    }
}

/// Append a value under a key in the multi-valued accumulator.
fn mv_add_header(acc: &mut Vec<(Vec<u8>, JsonValue)>, k: &Vec<u8>, v: &Vec<u8>)
    ensures
        jview_fields(final(acc)@) == mv_add(jview_fields(old(acc)@), k@, v@),
{
    let ghost f0 = jview_fields(old(acc)@);
    proof {
        crate::json::lemma_jview_fields(old(acc)@);
    }
    let mut i: usize = 0;
    while i < acc.len()
        invariant
            i <= acc@.len(),
            acc@ == old(acc)@,
            f0 == jview_fields(acc@),
            f0.len() == acc@.len(),
            forall|j: int|
                0 <= j < acc@.len() ==> f0[j] == ((#[trigger] acc@[j]).0@, jview(acc@[j].1)),
            forall|j: int| 0 <= j < i ==> (#[trigger] f0[j]).0 != k@,
        decreases acc@.len() - i,
    {
        if bytes_eq(&acc[i].0, k) {
            let pair = acc.remove(i);
            let ghost old_key = pair.0@;
            let ghost old_val = jview(pair.1);
            let newval = match pair.1 {
                JsonValue::Arr(mut items) => {
                    let ghost items0 = items@;
                    let nv = JsonValue::Str(copy_bytes(v));
                    let ghost nv_g = nv;
                    items.push(nv);
                    proof {
                        crate::json::lemma_jview_seq(items0);
                        crate::json::lemma_jview_seq(items@);
                        assert forall|l: int|
                            0 <= l < items@.len() implies jview_seq(items@)[l] == jview_seq(
                            items0,
                        ).push(JVal::Str(v@))[l] by {
                            if l < items0.len() {
                                assert(items@[l] == items0[l]);
                                assert(jview_seq(items@)[l] == jview(items@[l]));
                                assert(jview_seq(items0)[l] == jview(items0[l]));
                            } else {
                                assert(items@[l] == nv_g);
                                assert(jview(nv_g) == JVal::Str(v@));
                            }
                        }
                        assert(jview_seq(items@) =~= jview_seq(items0).push(JVal::Str(v@)));
                    }
                    JsonValue::Arr(items)
                },
                other => other,
            };
            proof {
                assert(jview(newval) == arr_push(old_val, v@));
            }
            let ghost newval_g = newval;
            acc.insert(i, (pair.0, newval));
            proof {
                lemma_mv_add_found(f0, k@, v@, i as int);
                assert(acc@ =~= old(acc)@.update(i as int, acc@[i as int]));
                crate::json::lemma_jview_fields(acc@);
                crate::json::lemma_jview_fields(old(acc)@);
                let target = f0.update(i as int, (f0[i as int].0, arr_push(f0[i as int].1, v@)));
                assert forall|j: int|
                    0 <= j < acc@.len() implies jview_fields(acc@)[j] == target[j] by {
                    assert(jview_fields(acc@)[j] == (acc@[j].0@, jview(acc@[j].1)));
                    if j != i {
                        assert(acc@[j] == old(acc)@[j]);
                        assert(jview_fields(old(acc)@)[j] == (old(acc)@[j].0@, jview(
                            old(acc)@[j].1,
                        )));
                    } else {
                        assert(acc@[j].1 == newval_g);
                        assert(acc@[j].0@ == old_key);
                        assert(f0[i as int] == (old(acc)@[i as int].0@, jview(
                            old(acc)@[i as int].1,
                        )));
                        assert(old_key == f0[i as int].0);
                        assert(old_val == f0[i as int].1);
                    }
                }
                assert(jview_fields(acc@) =~= target);
            }
            return ;
        }
        i = i + 1;
    }
    let single: Vec<JsonValue> = vec![JsonValue::Str(copy_bytes(v))];
    proof {
        crate::json::lemma_jview_seq(single@);
        assert(jview_seq(single@) =~= seq![JVal::Str(v@)]);
    }
    let ghost single_val = JVal::Arr(jview_seq(single@));
    acc.push((copy_bytes(k), JsonValue::Arr(single)));
    proof {
        lemma_mv_add_missing(f0, k@, v@);
        crate::json::lemma_jview_fields(acc@);
        crate::json::lemma_jview_fields(old(acc)@);
        let target = f0.push((k@, JVal::Arr(seq![JVal::Str(v@)])));
        assert forall|j: int| 0 <= j < acc@.len() implies jview_fields(acc@)[j] == target[j] by {
            assert(jview_fields(acc@)[j] == (acc@[j].0@, jview(acc@[j].1)));
            if j < acc@.len() - 1 {
                assert(acc@[j] == old(acc)@[j]);
                assert(jview_fields(old(acc)@)[j] == (old(acc)@[j].0@, jview(old(acc)@[j].1)));
            } else {
                assert(jview(acc@[j].1) == single_val);
            }
        }
        assert(jview_fields(acc@) =~= target);
    }
}

/// Strings as JSON string values, in order.
pub open spec fn strs_to_jvals(ss: Seq<Seq<u8>>) -> Seq<JVal> {
    Seq::new(ss.len(), |i: int| JVal::Str(ss[i]))
}

fn make_str_arr(vs: Vec<Vec<u8>>) -> (r: Vec<JsonValue>)
    ensures
        jview_seq(r@) == strs_to_jvals(vs.deep_view()),
{
    let mut out: Vec<JsonValue> = Vec::new();
    let mut i: usize = 0;
    while i < vs.len()
        invariant
            i <= vs.len(),
            out@.len() == i,
            forall|j: int| 0 <= j < i ==> jview(#[trigger] out@[j]) == JVal::Str(vs@[j]@),
        decreases vs.len() - i,
    {
        let nv = JsonValue::Str(copy_bytes(&vs[i]));
        let ghost nv_g = nv;
        out.push(nv);
        proof {
            assert(out@[i as int] == nv_g);
            assert(jview(nv_g) == JVal::Str(vs@[i as int]@));
        }
        i = i + 1;
    }
    proof {
        crate::json::lemma_jview_seq(out@);
        assert forall|j: int| 0 <= j < out@.len() implies jview_seq(out@)[j] == strs_to_jvals(
            vs.deep_view(),
        )[j] by {
            assert(jview_seq(out@)[j] == jview(out@[j]));
            assert(jview(out@[j]) == JVal::Str(vs@[j]@));
            assert(vs.deep_view()[j] =~= vs@[j]@);
        }
        assert(jview_seq(out@) =~= strs_to_jvals(vs.deep_view()));
    }
    out
}

/// The v2 envelope shape: base64 flag, status, the extracted cookies,
/// the single-valued header object, the body.
pub open spec fn v2_envelope(
    status: u16,
    fields: Seq<(Seq<u8>, JVal)>,
    cookies: Seq<Seq<u8>>,
    body: Seq<u8>,
) -> JVal {
    JVal::Obj(
        seq![
            (("isBase64Encoded").spec_bytes(), JVal::Bool(true)),
            (("statusCode").spec_bytes(), JVal::Num(status as u64)),
            (("cookies").spec_bytes(), JVal::Arr(strs_to_jvals(cookies))),
            (("headers").spec_bytes(), JVal::Obj(fields)),
            (("body").spec_bytes(), JVal::Str(body)),
        ],
    )
}

/// The multi-valued envelope shape: base64 flag, status, the
/// multi-valued header object, the body; `set-cookie` stays inside the
/// headers.
pub open spec fn mv_envelope(status: u16, fields: Seq<(Seq<u8>, JVal)>, body: Seq<u8>) -> JVal {
    JVal::Obj(
        seq![
            (("isBase64Encoded").spec_bytes(), JVal::Bool(true)),
            (("statusCode").spec_bytes(), JVal::Num(status as u64)),
            (("multiValueHeaders").spec_bytes(), JVal::Obj(fields)),
            (("body").spec_bytes(), JVal::Str(body)),
        ],
    )
}

/// The serialized envelope for one compression outcome: when compressed,
/// the body is the base64 of the brotli stream and a `content-encoding:
/// br` entry is set; otherwise the body is the base64 of the bytes as
/// they stand.
pub open spec fn serialize_spec(m: ResponseModel, compressed: bool, multi_value: bool) -> JVal {
    let body_b64 = if compressed {
        base64_of(brotli_of(m.body))
    } else {
        base64_of(m.body)
    };
    if multi_value {
        let fields0 = mv_fold(m.headers, Seq::empty());
        let fields = if compressed {
            upsert(
                fields0,
                ("content-encoding").spec_bytes(),
                JVal::Arr(seq![JVal::Str(("br").spec_bytes())]),
            )
        } else {
            fields0
        };
        mv_envelope(m.status, fields, body_b64)
    } else {
        let folded = v2_fold(m.headers, Seq::empty(), Seq::empty());
        let fields = if compressed {
            upsert(folded.0, ("content-encoding").spec_bytes(), JVal::Str(("br").spec_bytes()))
        } else {
            folded.0
        };
        v2_envelope(m.status, fields, folded.1, body_b64)
    }
}

/// Serializing is a function of the response's reading and the flags
/// alone: responses that read equal serialize to identical envelopes,
/// so repeating a serialization cannot change the document.
pub proof fn lemma_serialize_deterministic(
    r1: OutgoingResponse,
    r2: OutgoingResponse,
    compressed: bool,
    multi_value: bool,
)
    requires
        r1.model() == r2.model(),
    ensures
        serialize_spec(r1.model(), compressed, multi_value) == serialize_spec(
            r2.model(),
            compressed,
            multi_value,
        ),
{
}

/// Assemble the gateway's JSON envelope for an outgoing response. When
/// the client accepts brotli and the response is eligible, the body is
/// compressed and marked; a compressor failure degrades to the plain
/// base64 body. The envelope's shape follows the `multi_value` flag.
pub fn serialize_response(resp: &OutgoingResponse, client_br: bool, multi_value: bool) -> (r:
    JsonValue)
    ensures
        ({
            let eligible = client_br && resp.can_brotli_compress_spec();
            if eligible {
                jview(r) == serialize_spec(resp.model(), true, multi_value) || jview(r)
                    == serialize_spec(resp.model(), false, multi_value)
            } else {
                jview(r) == serialize_spec(resp.model(), false, multi_value)
            }
        }),
{
    let compress_wanted = client_br && resp.can_brotli_compress();
    let compressed_body: Option<Vec<u8>> = if compress_wanted {
        brotli_compress(&resp.body)
    } else {
        None
    };
    assemble_envelope(resp, compressed_body, multi_value)
}

/// Assemble the envelope for a known compression outcome: exactly
/// `serialize_spec` of the response's reading, compressed when a brotli
/// stream of the body is handed in.
pub fn assemble_envelope(
    resp: &OutgoingResponse,
    compressed_body: Option<Vec<u8>>,
    multi_value: bool,
) -> (r: JsonValue)
    requires
        compressed_body matches Some(c) ==> c@ == brotli_of(resp.body@),
    ensures
        jview(r) == serialize_spec(resp.model(), compressed_body is Some, multi_value),
{
    let compressed = compressed_body.is_some();
    let body_b64 = match compressed_body {
        Some(c) => base64_encode(&c),
        None => base64_encode(&resp.body),
    };
    let ghost m = resp.model();
    let ghost hdv = resp.headers.deep_view();
    if multi_value {
        let mut acc: Vec<(Vec<u8>, JsonValue)> = Vec::new();
        let mut i: usize = 0;
        proof {
            assert(jview_fields(acc@) =~= Seq::<(Seq<u8>, JVal)>::empty());
            assert(hdv.subrange(0, hdv.len() as int) =~= hdv);
        }
        while i < resp.headers.len()
            invariant
                i <= resp.headers@.len(),
                hdv == resp.headers.deep_view(),
                hdv.len() == resp.headers@.len(),
                forall|j: int|
                    0 <= j < hdv.len() ==> #[trigger] hdv[j] == (
                    resp.headers@[j].0@,
                    resp.headers@[j].1@,
                    ),
                mv_fold(hdv, Seq::empty()) == mv_fold(
                    hdv.subrange(i as int, hdv.len() as int),
                    jview_fields(acc@),
                ),
            decreases resp.headers@.len() - i,
        {
            mv_add_header(&mut acc, &resp.headers[i].0, &resp.headers[i].1);
            proof {
                assert(hdv.subrange(i as int, hdv.len() as int).subrange(
                    1,
                    hdv.len() - i,
                ) =~= hdv.subrange(i as int + 1, hdv.len() as int));
            }
            i = i + 1;
        }
        proof {
            assert(hdv.subrange(hdv.len() as int, hdv.len() as int) =~= Seq::<
                (Seq<u8>, Seq<u8>),
            >::empty());
        }
        if compressed {
            let single: Vec<JsonValue> = vec![JsonValue::Str(("br").as_bytes_vec())];
            proof {
                crate::json::lemma_jview_seq(single@);
                assert(jview_seq(single@) =~= seq![JVal::Str(("br").spec_bytes())]);
            }
            upsert_header(&mut acc, &("content-encoding").as_bytes_vec(), JsonValue::Arr(single));
        }
        let ghost acc_v = jview_fields(acc@);
        let ghost body_v = body_b64@;
        let fields: Vec<(Vec<u8>, JsonValue)> = vec![
            (("isBase64Encoded").as_bytes_vec(), JsonValue::Bool(true)),
            (("statusCode").as_bytes_vec(), JsonValue::Num(resp.status as u64)),
            (("multiValueHeaders").as_bytes_vec(), JsonValue::Obj(acc)),
            (("body").as_bytes_vec(), JsonValue::Str(body_b64)),
        ];
        let ghost fields_v = fields@;
        let r = JsonValue::Obj(fields);
        proof {
            crate::json::lemma_jview_fields(fields_v);
            assert(jview_fields(fields_v) =~= seq![
                (("isBase64Encoded").spec_bytes(), JVal::Bool(true)),
                (("statusCode").spec_bytes(), JVal::Num(m.status as u64)),
                (("multiValueHeaders").spec_bytes(), JVal::Obj(acc_v)),
                (("body").spec_bytes(), JVal::Str(body_v)),
            ]);
            assert(jview(r) == mv_envelope(m.status, acc_v, body_v));
        }
        r
    } else {
        let mut acc: Vec<(Vec<u8>, JsonValue)> = Vec::new();
        let mut cookies: Vec<Vec<u8>> = Vec::new();
        let mut i: usize = 0;
        let sc = ("set-cookie").as_bytes_vec();
        proof {
            assert(jview_fields(acc@) =~= Seq::<(Seq<u8>, JVal)>::empty());
            assert(cookies.deep_view() =~= Seq::<Seq<u8>>::empty());
            assert(hdv.subrange(0, hdv.len() as int) =~= hdv);
        }
        while i < resp.headers.len()
            invariant
                i <= resp.headers@.len(),
                hdv == resp.headers.deep_view(),
                hdv.len() == resp.headers@.len(),
                sc@ == ("set-cookie").spec_bytes(),
                forall|j: int|
                    0 <= j < hdv.len() ==> #[trigger] hdv[j] == (
                    resp.headers@[j].0@,
                    resp.headers@[j].1@,
                    ),
                v2_fold(hdv, Seq::empty(), Seq::empty()) == v2_fold(
                    hdv.subrange(i as int, hdv.len() as int),
                    jview_fields(acc@),
                    cookies.deep_view(),
                ),
            decreases resp.headers@.len() - i,
        {
            let low = to_ascii_lower(&resp.headers[i].0);
            if bytes_eq(&low, &sc) {
                let ghost cdv = cookies.deep_view();
                let cv = copy_bytes(&resp.headers[i].1);
                proof {
                    assert(cv.deep_view() =~= hdv[i as int].1);
                }
                cookies.push(cv);
                proof {
                    assert(cookies.deep_view() =~= cdv.push(hdv[i as int].1));
                }
            } else {
                upsert_header(
                    &mut acc,
                    &resp.headers[i].0,
                    JsonValue::Str(copy_bytes(&resp.headers[i].1)),
                );
            }
            proof {
                assert(hdv.subrange(i as int, hdv.len() as int).subrange(
                    1,
                    hdv.len() - i,
                ) =~= hdv.subrange(i as int + 1, hdv.len() as int));
            }
            i = i + 1;
        }
        proof {
            assert(hdv.subrange(hdv.len() as int, hdv.len() as int) =~= Seq::<
                (Seq<u8>, Seq<u8>),
            >::empty());
        }
        if compressed {
            upsert_header(
                &mut acc,
                &("content-encoding").as_bytes_vec(),
                JsonValue::Str(("br").as_bytes_vec()),
            );
        }
        let ghost acc_v = jview_fields(acc@);
        let ghost cookies_v = cookies.deep_view();
        let ghost body_v = body_b64@;
        let cookie_arr = make_str_arr(cookies);
        let fields: Vec<(Vec<u8>, JsonValue)> = vec![
            (("isBase64Encoded").as_bytes_vec(), JsonValue::Bool(true)),
            (("statusCode").as_bytes_vec(), JsonValue::Num(resp.status as u64)),
            (("cookies").as_bytes_vec(), JsonValue::Arr(cookie_arr)),
            (("headers").as_bytes_vec(), JsonValue::Obj(acc)),
            (("body").as_bytes_vec(), JsonValue::Str(body_b64)),
        ];
        let ghost fields_v = fields@;
        let r = JsonValue::Obj(fields);
        proof {
            crate::json::lemma_jview_fields(fields_v);
            assert(jview_fields(fields_v) =~= seq![
                (("isBase64Encoded").spec_bytes(), JVal::Bool(true)),
                (("statusCode").spec_bytes(), JVal::Num(m.status as u64)),
                (("cookies").spec_bytes(), JVal::Arr(strs_to_jvals(cookies_v))),
                (("headers").spec_bytes(), JVal::Obj(acc_v)),
                (("body").spec_bytes(), JVal::Str(body_v)),
            ]);
            assert(jview(r) == v2_envelope(m.status, acc_v, cookies_v, body_v));
        }
        r
    }
}

} // verus!
