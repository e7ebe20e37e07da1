//! Classification of a parsed JSON tree into one of the gateway event
//! shapes. The more specific HTTP API v2 schema is tried first, then the
//! REST/load-balancer schema; a tree matching neither is a malformed
//! event. Unknown fields are ignored; missing optional fields default,
//! never fail.

use crate::bytes::copy_bytes;
use crate::event::{HttpV2Event, LambdaHttpEvent, RestAlbEvent, RestContext};
use crate::json::{
    jget, jview, jview_fields, jview_seq, lemma_jview_fields, lemma_jview_seq, JVal, JsonValue,
};
use crate::EventError;
use vstd::prelude::*;
use vstd::string::StrSliceExecFns;
use vstd::string::StringSliceAdditionalSpecFns;

verus! {

/// A field that must be a string.
pub open spec fn jstr_field(j: JVal, key: Seq<u8>) -> Option<Seq<u8>> {
    match jget(j, key) {
        Some(JVal::Str(s)) => Some(s),
        _ => None,
    }
}

/// A field that may be absent or null, and is otherwise a string.
/// `None` means the shape is wrong.
pub open spec fn jopt_str_field(j: JVal, key: Seq<u8>) -> Option<Option<Seq<u8>>> {
    match jget(j, key) {
        None => Some(None),
        Some(JVal::Null) => Some(None),
        Some(JVal::Str(s)) => Some(Some(s)),
        Some(_) => None,
    }
}

/// A boolean field that defaults to `false` when absent.
pub open spec fn jdefault_bool_field(j: JVal, key: Seq<u8>) -> Option<bool> {
    match jget(j, key) {
        None => Some(false),
        Some(JVal::Bool(b)) => Some(b),
        Some(_) => None,
    }
}

/// The strings of an all-string array.
pub open spec fn strs_of(items: Seq<JVal>) -> Option<Seq<Seq<u8>>>
    decreases items.len(),
{
    if items.len() == 0 {
        Some(Seq::empty())
    } else {
        match items[0] {
            JVal::Str(s) => match strs_of(items.subrange(1, items.len() as int)) {
                Some(t) => Some(seq![s] + t),
                None => None,
            },
            _ => None,
        }
    }
}

/// The strings of an array already known to be all strings.
pub open spec fn str_items(items: Seq<JVal>) -> Seq<Seq<u8>> {
    Seq::new(items.len(), |i: int| items[i]->Str_0)
}

proof fn lemma_strs_of_all(items: Seq<JVal>)
    requires
        forall|i: int| 0 <= i < items.len() ==> (#[trigger] items[i]) is Str,
    ensures
        strs_of(items) == Some(str_items(items)),
    decreases items.len(),
{
    if items.len() == 0 {
        assert(str_items(items) =~= Seq::<Seq<u8>>::empty());
    } else {
        let t = items.subrange(1, items.len() as int);
        assert forall|i: int| 0 <= i < t.len() implies (#[trigger] t[i]) is Str by {
            assert(t[i] == items[i + 1]);
        }
        lemma_strs_of_all(t);
        assert(seq![items[0]->Str_0] + str_items(t) =~= str_items(items));
    }
}

proof fn lemma_strs_of_none(items: Seq<JVal>, k: int)
    requires
        0 <= k < items.len(),
        !((items[k]) is Str),
    ensures
        strs_of(items) is None,
    decreases items.len(),
{
    if items.len() > 0 && items[0] is Str {
        let t = items.subrange(1, items.len() as int);
        assert(t[k - 1] == items[k]);
        lemma_strs_of_none(t, k - 1);
    }
}

/// A string-valued object, kept as an ordered pair list.
pub open spec fn strmap_of(fields: Seq<(Seq<u8>, JVal)>) -> Option<Seq<(Seq<u8>, Seq<u8>)>>
    decreases fields.len(),
{
    if fields.len() == 0 {
        Some(Seq::empty())
    } else {
        match fields[0].1 {
            JVal::Str(s) => match strmap_of(fields.subrange(1, fields.len() as int)) {
                Some(t) => Some(seq![(fields[0].0, s)] + t),
                None => None,
            },
            _ => None,
        }
    }
}

/// The pairs of an object already known to be string-valued.
pub open spec fn strmap_items(fields: Seq<(Seq<u8>, JVal)>) -> Seq<(Seq<u8>, Seq<u8>)> {
    Seq::new(fields.len(), |i: int| (fields[i].0, fields[i].1->Str_0))
}

proof fn lemma_strmap_of_all(fields: Seq<(Seq<u8>, JVal)>)
    requires
        forall|i: int| 0 <= i < fields.len() ==> (#[trigger] fields[i]).1 is Str,
    ensures
        strmap_of(fields) == Some(strmap_items(fields)),
    decreases fields.len(),
{
    if fields.len() == 0 {
        assert(strmap_items(fields) =~= Seq::<(Seq<u8>, Seq<u8>)>::empty());
    } else {
        let t = fields.subrange(1, fields.len() as int);
        assert forall|i: int| 0 <= i < t.len() implies (#[trigger] t[i]).1 is Str by {
            assert(t[i] == fields[i + 1]);
        }
        lemma_strmap_of_all(t);
        assert(seq![(fields[0].0, fields[0].1->Str_0)] + strmap_items(t) =~= strmap_items(fields));
    }
}

proof fn lemma_strmap_of_none(fields: Seq<(Seq<u8>, JVal)>, k: int)
    requires
        0 <= k < fields.len(),
        !((fields[k]).1 is Str),
    ensures
        strmap_of(fields) is None,
    decreases fields.len(),
{
    if fields.len() > 0 && fields[0].1 is Str {
        let t = fields.subrange(1, fields.len() as int);
        assert(t[k - 1] == fields[k]);
        lemma_strmap_of_none(t, k - 1);
    }
}

/// An object whose values are all-string arrays, kept as an ordered pair
/// list of value lists.
pub open spec fn multimap_of(fields: Seq<(Seq<u8>, JVal)>) -> Option<Seq<(Seq<u8>, Seq<Seq<u8>>)>>
    decreases fields.len(),
{
    if fields.len() == 0 {
        Some(Seq::empty())
    } else {
        match fields[0].1 {
            JVal::Arr(items) => match strs_of(items) {
                Some(vs) => match multimap_of(fields.subrange(1, fields.len() as int)) {
                    Some(t) => Some(seq![(fields[0].0, vs)] + t),
                    None => None,
                },
                None => None,
            },
            _ => None,
        }
    }
}

/// The pairs of a multi-valued object already known to be well-shaped.
pub open spec fn multimap_items(fields: Seq<(Seq<u8>, JVal)>) -> Seq<(Seq<u8>, Seq<Seq<u8>>)> {
    Seq::new(fields.len(), |i: int| (fields[i].0, str_items(fields[i].1->Arr_0)))
}

proof fn lemma_multimap_of_all(fields: Seq<(Seq<u8>, JVal)>)
    requires
        forall|i: int|
            0 <= i < fields.len() ==> (#[trigger] fields[i]).1 is Arr && strs_of(
                fields[i].1->Arr_0,
            ) is Some,
    ensures
        multimap_of(fields) == Some(multimap_items(fields)),
    decreases fields.len(),
{
    if fields.len() == 0 {
        assert(multimap_items(fields) =~= Seq::<(Seq<u8>, Seq<Seq<u8>>)>::empty());
    } else {
        let t = fields.subrange(1, fields.len() as int);
        assert forall|i: int|
            0 <= i < t.len() implies (#[trigger] t[i]).1 is Arr && strs_of(
            t[i].1->Arr_0,
        ) is Some by {
            assert(t[i] == fields[i + 1]);
        }
        lemma_multimap_of_all(t);
        assert(strs_of(fields[0].1->Arr_0) == Some(str_items(fields[0].1->Arr_0))) by {
            let items = fields[0].1->Arr_0;
            if strs_of(items) is Some {
                assert forall|i: int| 0 <= i < items.len() implies (#[trigger] items[i]) is Str by {
                    if !(items[i] is Str) {
                        lemma_strs_of_none(items, i);
                    }
                }
                lemma_strs_of_all(items);
            }
        }
        assert(seq![(fields[0].0, str_items(fields[0].1->Arr_0))] + multimap_items(t)
            =~= multimap_items(fields));
    }
}

proof fn lemma_multimap_of_none(fields: Seq<(Seq<u8>, JVal)>, k: int)
    requires
        0 <= k < fields.len(),
        !((fields[k]).1 is Arr) || strs_of((fields[k]).1->Arr_0) is None,
    ensures
        multimap_of(fields) is None,
    decreases fields.len(),
{
    if fields.len() > 0 && fields[0].1 is Arr && strs_of(fields[0].1->Arr_0) is Some {
        let t = fields.subrange(1, fields.len() as int);
        assert(t[k - 1] == fields[k]);
        lemma_multimap_of_none(t, k - 1);
    }
}

/// The `cookies` field: absent or null, or an array of strings.
pub open spec fn jcookies_field(j: JVal) -> Option<Option<Seq<Seq<u8>>>> {
    match jget(j, ("cookies").spec_bytes()) {
        None => Some(None),
        Some(JVal::Null) => Some(None),
        Some(JVal::Arr(items)) => match strs_of(items) {
            Some(ss) => Some(Some(ss)),
            None => None,
        },
        Some(_) => None,
    }
}

/// A required string-valued object field.
pub open spec fn jstrmap_field(j: JVal, key: Seq<u8>) -> Option<Seq<(Seq<u8>, Seq<u8>)>> {
    match jget(j, key) {
        Some(JVal::Obj(fields)) => strmap_of(fields),
        _ => None,
    }
}

/// A required multi-valued object field.
pub open spec fn jmultimap_field(j: JVal, key: Seq<u8>) -> Option<Seq<(Seq<u8>, Seq<Seq<u8>>)>> {
    match jget(j, key) {
        Some(JVal::Obj(fields)) => multimap_of(fields),
        _ => None,
    }
}

/// A multi-valued object field that may be absent or null.
pub open spec fn jopt_multimap_field(j: JVal, key: Seq<u8>) -> Option<
    Option<Seq<(Seq<u8>, Seq<Seq<u8>>)>>,
> {
    match jget(j, key) {
        None => Some(None),
        Some(JVal::Null) => Some(None),
        Some(JVal::Obj(fields)) => match multimap_of(fields) {
            Some(m) => Some(Some(m)),
            None => None,
        },
        Some(_) => None,
    }
}

/// What the HTTP API v2 schema reads out of a matching tree.
pub struct V2Model {
    pub method: Seq<u8>,
    pub source_ip: Seq<u8>,
    pub domain_name: Seq<u8>,
    pub raw_path: Seq<u8>,
    pub raw_query_string: Option<Seq<u8>>,
    pub cookies: Option<Seq<Seq<u8>>>,
    pub headers: Seq<(Seq<u8>, Seq<u8>)>,
    pub body: Option<Seq<u8>>,
    pub is_base64_encoded: bool,
}

/// What the REST schema reads out of a matching request context.
pub struct RestContextModel {
    pub domain_name: Seq<u8>,
    pub path: Seq<u8>,
    pub source_ip: Seq<u8>,
}

/// What the REST/load-balancer schema reads out of a matching tree.
pub struct RestAlbModel {
    pub http_method: Seq<u8>,
    pub path: Seq<u8>,
    pub multi_value_headers: Seq<(Seq<u8>, Seq<Seq<u8>>)>,
    pub multi_value_query_string_parameters: Option<Seq<(Seq<u8>, Seq<Seq<u8>>)>>,
    pub body: Option<Seq<u8>>,
    pub is_base64_encoded: bool,
    pub rest_context: Option<RestContextModel>,
}

/// The v2 reading of a tree, or `None` where the tree does not match the
/// v2 schema: `version`, `rawPath`, `headers` and
/// `requestContext.domainName` / `.http.method` / `.http.sourceIp` are
/// required; `rawQueryString`, `cookies` and `body` may be absent;
/// `isBase64Encoded` defaults to false.
pub open spec fn v2_model_of(j: JVal) -> Option<V2Model> {
    match jstr_field(j, ("version").spec_bytes()) {
        None => None,
        Some(_) => match jstr_field(j, ("rawPath").spec_bytes()) {
            None => None,
            Some(raw_path) => match jopt_str_field(j, ("rawQueryString").spec_bytes()) {
                None => None,
                Some(rqs) => match jcookies_field(j) {
                    None => None,
                    Some(cookies) => match jstrmap_field(j, ("headers").spec_bytes()) {
                        None => None,
                        Some(headers) => match jopt_str_field(j, ("body").spec_bytes()) {
                            None => None,
                            Some(body) => match jdefault_bool_field(
                                j,
                                ("isBase64Encoded").spec_bytes(),
                            ) {
                                None => None,
                                Some(b64) => match jget(j, ("requestContext").spec_bytes()) {
                                    None => None,
                                    Some(ctx) => match jstr_field(
                                        ctx,
                                        ("domainName").spec_bytes(),
                                    ) {
                                        None => None,
                                        Some(domain) => match jget(ctx, ("http").spec_bytes()) {
                                            None => None,
                                            Some(http) => match jstr_field(
                                                http,
                                                ("method").spec_bytes(),
                                            ) {
                                                None => None,
                                                Some(method) => match jstr_field(
                                                    http,
                                                    ("sourceIp").spec_bytes(),
                                                ) {
                                                    None => None,
                                                    Some(source_ip) => Some(
                                                        V2Model {
                                                            method,
                                                            source_ip,
                                                            domain_name: domain,
                                                            raw_path,
                                                            raw_query_string: rqs,
                                                            cookies,
                                                            headers,
                                                            body,
                                                            is_base64_encoded: b64,
                                                        },
                                                    ),
                                                },
                                            },
                                        },
                                    },
                                },
                            },
                        },
                    },
                },
            },
        },
    }
}

/// The REST context reading of a `requestContext` value: present exactly
/// when `domainName`, `path` and `identity.sourceIp` are all strings.
pub open spec fn rest_context_of(ctx: JVal) -> Option<RestContextModel> {
    match jstr_field(ctx, ("domainName").spec_bytes()) {
        None => None,
        Some(domain) => match jstr_field(ctx, ("path").spec_bytes()) {
            None => None,
            Some(path) => match jget(ctx, ("identity").spec_bytes()) {
                None => None,
                Some(idv) => match jstr_field(idv, ("sourceIp").spec_bytes()) {
                    None => None,
                    Some(source_ip) => Some(
                        RestContextModel { domain_name: domain, path, source_ip },
                    ),
                },
            },
        },
    }
}

/// The REST/load-balancer reading of a tree, or `None` where it does not
/// match: `path`, `httpMethod`, `multiValueHeaders` and an object-shaped
/// `requestContext` are required; the context is the REST one when its
/// own fields all match, else the load-balancer one.
pub open spec fn rest_model_of(j: JVal) -> Option<RestAlbModel> {
    match jstr_field(j, ("path").spec_bytes()) {
        None => None,
        Some(path) => match jstr_field(j, ("httpMethod").spec_bytes()) {
            None => None,
            Some(method) => match jmultimap_field(j, ("multiValueHeaders").spec_bytes()) {
                None => None,
                Some(mvh) => match jopt_multimap_field(
                    j,
                    ("multiValueQueryStringParameters").spec_bytes(),
                ) {
                    None => None,
                    Some(mvq) => match jopt_str_field(j, ("body").spec_bytes()) {
                        None => None,
                        Some(body) => match jdefault_bool_field(
                            j,
                            ("isBase64Encoded").spec_bytes(),
                        ) {
                            None => None,
                            Some(b64) => match jget(j, ("requestContext").spec_bytes()) {
                                Some(ctx) => if ctx is Obj {
                                    Some(
                                        RestAlbModel {
                                            http_method: method,
                                            path,
                                            multi_value_headers: mvh,
                                            multi_value_query_string_parameters: mvq,
                                            body,
                                            is_base64_encoded: b64,
                                            rest_context: rest_context_of(ctx),
                                        },
                                    )
                                } else {
                                    None
                                },
                                None => None,
                            },
                        },
                    },
                },
            },
        },
    }
}

impl HttpV2Event {
    /// The mathematical reading of this event.
    pub open spec fn model(self) -> V2Model {
        V2Model {
            method: self.method@,
            source_ip: self.source_ip@,
            domain_name: self.domain_name@,
            raw_path: self.raw_path@,
            raw_query_string: match self.raw_query_string {
                Some(q) => Some(q@),
                None => None,
            },
            cookies: match self.cookies {
                Some(cs) => Some(cs.deep_view()),
                None => None,
            },
            headers: self.headers.deep_view(),
            body: match self.body {
                Some(b) => Some(b@),
                None => None,
            },
            is_base64_encoded: self.is_base64_encoded,
        }
    }
}

impl RestAlbEvent {
    /// The mathematical reading of this event.
    pub open spec fn model(self) -> RestAlbModel {
        RestAlbModel {
            http_method: self.http_method@,
            path: self.path@,
            multi_value_headers: self.multi_value_headers.deep_view(),
            multi_value_query_string_parameters: match self.multi_value_query_string_parameters {
                Some(m) => Some(m.deep_view()),
                None => None,
            },
            body: match self.body {
                Some(b) => Some(b@),
                None => None,
            },
            is_base64_encoded: self.is_base64_encoded,
            rest_context: match self.rest_context {
                Some(c) => Some(
                    RestContextModel {
                        domain_name: c.domain_name@,
                        path: c.path@,
                        source_ip: c.source_ip@,
                    },
                ),
                None => None,
            },
        }
    }
}

fn get_str_field(v: &JsonValue, key: &Vec<u8>) -> (r: Option<Vec<u8>>)
    ensures
        match r {
            Some(x) => jstr_field(jview(*v), key@) == Some(x@),
            None => jstr_field(jview(*v), key@) is None,
        },
{
    match v.get(key) {
        Some(x) => match x {
            JsonValue::Str(s) => Some(copy_bytes(s)),
            _ => None,
        },
        None => None,
    }
}

fn get_opt_str_field(v: &JsonValue, key: &Vec<u8>) -> (r: Option<Option<Vec<u8>>>)
    ensures
        match r {
            None => jopt_str_field(jview(*v), key@) is None,
            Some(None) => jopt_str_field(jview(*v), key@) == Some(Option::<Seq<u8>>::None),
            Some(Some(x)) => jopt_str_field(jview(*v), key@) == Some(Some(x@)),
        },
{
    match v.get(key) {
        None => Some(None),
        Some(x) => match x {
            JsonValue::Null => Some(None),
            JsonValue::Str(s) => Some(Some(copy_bytes(s))),
            _ => None,
        },
    }
}

fn get_default_bool_field(v: &JsonValue, key: &Vec<u8>) -> (r: Option<bool>)
    ensures
        match r {
            Some(b) => jdefault_bool_field(jview(*v), key@) == Some(b),
            None => jdefault_bool_field(jview(*v), key@) is None,
        },
{
    match v.get(key) {
        None => Some(false),
        Some(x) => match x {
            JsonValue::Bool(b) => Some(*b),
            _ => None,
        },
    }
}

fn strs_of_exec(items: &Vec<JsonValue>) -> (r: Option<Vec<Vec<u8>>>)
    ensures
        match r {
            Some(out) => strs_of(jview_seq(items@)) == Some(out.deep_view()),
            None => strs_of(jview_seq(items@)) is None,
        },
{
    let ghost jv = jview_seq(items@);
    let mut out: Vec<Vec<u8>> = Vec::new();
    let mut i: usize = 0;
    proof {
        lemma_jview_seq(items@);
    }
    while i < items.len()
        invariant
            i <= items.len(),
            jv == jview_seq(items@),
            jv.len() == items@.len(),
            forall|l: int| 0 <= l < items@.len() ==> jv[l] == jview(#[trigger] items@[l]),
            out@.len() == i,
            forall|l: int| 0 <= l < i ==> (#[trigger] jv[l]) is Str && out@[l]@ == jv[l]->Str_0,
        decreases items.len() - i,
    {
        match items[i].as_str_bytes() {
            Some(s) => {
                out.push(copy_bytes(s));
            },
            None => {
                proof {
                    lemma_strs_of_none(jv, i as int);
                }
                return None;
            },
        }
        i = i + 1;
    }
    proof {
        lemma_strs_of_all(jv);
        assert forall|l: int| 0 <= l < out@.len() implies out.deep_view()[l] == str_items(
            jv,
        )[l] by {
            assert(out@[l].deep_view() =~= out@[l]@);
        }
        assert(out.deep_view() =~= str_items(jv));
    }
    Some(out)
}

fn strmap_of_exec(fields: &Vec<(Vec<u8>, JsonValue)>) -> (r: Option<Vec<(Vec<u8>, Vec<u8>)>>)
    ensures
        match r {
            Some(out) => strmap_of(jview_fields(fields@)) == Some(out.deep_view()),
            None => strmap_of(jview_fields(fields@)) is None,
        },
{
    let ghost jfv = jview_fields(fields@);
    let mut out: Vec<(Vec<u8>, Vec<u8>)> = Vec::new();
    let mut i: usize = 0;
    proof {
        lemma_jview_fields(fields@);
    }
    while i < fields.len()
        invariant
            i <= fields.len(),
            jfv == jview_fields(fields@),
            jfv.len() == fields@.len(),
            forall|l: int|
                0 <= l < fields@.len() ==> jfv[l] == ((#[trigger] fields@[l]).0@, jview(
                    fields@[l].1,
                )),
            out@.len() == i,
            forall|l: int|
                0 <= l < i ==> (#[trigger] jfv[l]).1 is Str && out@[l].0@ == jfv[l].0
                    && out@[l].1@ == jfv[l].1->Str_0,
        decreases fields.len() - i,
    {
        match &fields[i].1 {
            JsonValue::Str(s) => {
                out.push((copy_bytes(&fields[i].0), copy_bytes(s)));
            },
            _ => {
                proof {
                    lemma_strmap_of_none(jfv, i as int);
                }
                return None;
            },
        }
        i = i + 1;
    }
    proof {
        lemma_strmap_of_all(jfv);
        assert forall|l: int| 0 <= l < out@.len() implies out.deep_view()[l] == strmap_items(
            jfv,
        )[l] by {
            assert(out@[l].0.deep_view() =~= out@[l].0@);
            assert(out@[l].1.deep_view() =~= out@[l].1@);
        }
        assert(out.deep_view() =~= strmap_items(jfv));
    }
    Some(out)
}

fn multimap_of_exec(fields: &Vec<(Vec<u8>, JsonValue)>) -> (r: Option<Vec<(Vec<u8>, Vec<Vec<u8>>)>>)
    ensures
        match r {
            Some(out) => multimap_of(jview_fields(fields@)) == Some(out.deep_view()),
            None => multimap_of(jview_fields(fields@)) is None,
        },
{
    let ghost jfv = jview_fields(fields@);
    let mut out: Vec<(Vec<u8>, Vec<Vec<u8>>)> = Vec::new();
    let mut i: usize = 0;
    proof {
        lemma_jview_fields(fields@);
    }
    while i < fields.len()
        invariant
            i <= fields.len(),
            jfv == jview_fields(fields@),
            jfv.len() == fields@.len(),
            forall|l: int|
                0 <= l < fields@.len() ==> jfv[l] == ((#[trigger] fields@[l]).0@, jview(
                    fields@[l].1,
                )),
            out@.len() == i,
            forall|l: int|
                0 <= l < i ==> (#[trigger] jfv[l]).1 is Arr && strs_of(jfv[l].1->Arr_0) is Some
                    && out@[l].0@ == jfv[l].0 && out@[l].1.deep_view() == str_items(
                    jfv[l].1->Arr_0,
                ),
        decreases fields.len() - i,
    {
        match fields[i].1.as_array() {
            Some(items) => match strs_of_exec(items) {
                Some(vs) => {
                    proof {
                        let arr = jfv[i as int].1->Arr_0;
                        assert(arr == jview_seq(items@));
                        if strs_of(arr) is None {
                        } else {
                            assert forall|m: int|
                                0 <= m < arr.len() implies (#[trigger] arr[m]) is Str by {
                                if !(arr[m] is Str) {
                                    lemma_strs_of_none(arr, m);
                                }
                            }
                            lemma_strs_of_all(arr);
                        }
                    }
                    out.push((copy_bytes(&fields[i].0), vs));
                },
                None => {
                    proof {
                        lemma_multimap_of_none(jfv, i as int);
                    }
                    return None;
                },
            },
            None => {
                proof {
                    lemma_multimap_of_none(jfv, i as int);
                }
                return None;
            },
        }
        i = i + 1;
    }
    proof {
        lemma_multimap_of_all(jfv);
        assert forall|l: int| 0 <= l < out@.len() implies out.deep_view()[l] == multimap_items(
            jfv,
        )[l] by {
            assert(out@[l].0.deep_view() =~= out@[l].0@);
        }
        assert(out.deep_view() =~= multimap_items(jfv));
    }
    Some(out)
}

fn get_cookies_field(v: &JsonValue) -> (r: Option<Option<Vec<Vec<u8>>>>)
    ensures
        match r {
            None => jcookies_field(jview(*v)) is None,
            Some(None) => jcookies_field(jview(*v)) == Some(Option::<Seq<Seq<u8>>>::None),
            Some(Some(cs)) => jcookies_field(jview(*v)) == Some(Some(cs.deep_view())),
        },
{
    let key = ("cookies").as_bytes_vec();
    match v.get(&key) {
        None => Some(None),
        Some(x) => match x {
            JsonValue::Null => Some(None),
            JsonValue::Arr(items) => match strs_of_exec(items) {
                Some(out) => Some(Some(out)),
                None => None,
            },
            _ => None,
        },
    }
}

fn parse_v2(v: &JsonValue) -> (r: Option<HttpV2Event>)
    ensures
        match r {
            Some(e) => v2_model_of(jview(*v)) == Some(e.model()),
            None => v2_model_of(jview(*v)) is None,
        },
{
    if get_str_field(v, &("version").as_bytes_vec()).is_none() {
        return None;
    }
    let raw_path = match get_str_field(v, &("rawPath").as_bytes_vec()) {
        Some(x) => x,
        None => {
            return None;
        },
    };
    let raw_query_string = match get_opt_str_field(v, &("rawQueryString").as_bytes_vec()) {
        Some(o) => o,
        None => {
            return None;
        },
    };
    let cookies = match get_cookies_field(v) {
        Some(o) => o,
        None => {
            return None;
        },
    };
    let headers = match v.get(&("headers").as_bytes_vec()) {
        Some(x) => match x {
            JsonValue::Obj(fields) => match strmap_of_exec(fields) {
                Some(hs) => hs,
                None => {
                    return None;
                },
            },
            _ => {
                return None;
            },
        },
        None => {
            return None;
        },
    };
    let body = match get_opt_str_field(v, &("body").as_bytes_vec()) {
        Some(o) => o,
        None => {
            return None;
        },
    };
    let is_base64_encoded = match get_default_bool_field(v, &("isBase64Encoded").as_bytes_vec()) {
        Some(b) => b,
        None => {
            return None;
        },
    };
    let ctx = match v.get(&("requestContext").as_bytes_vec()) {
        Some(c) => c,
        None => {
            return None;
        },
    };
    let domain_name = match get_str_field(ctx, &("domainName").as_bytes_vec()) {
        Some(x) => x,
        None => {
            return None;
        },
    };
    let http = match ctx.get(&("http").as_bytes_vec()) {
        Some(h) => h,
        None => {
            return None;
        },
    };
    let method = match get_str_field(http, &("method").as_bytes_vec()) {
        Some(x) => x,
        None => {
            return None;
        },
    };
    let source_ip = match get_str_field(http, &("sourceIp").as_bytes_vec()) {
        Some(x) => x,
        None => {
            return None;
        },
    };
    Some(
        HttpV2Event {
            method,
            source_ip,
            domain_name,
            raw_path,
            raw_query_string,
            cookies,
            headers,
            body,
            is_base64_encoded,
        },
    )
}

fn parse_rest_context(ctx: &JsonValue) -> (r: Option<RestContext>)
    ensures
        match r {
            Some(c) => rest_context_of(jview(*ctx)) == Some(
                RestContextModel {
                    domain_name: c.domain_name@,
                    path: c.path@,
                    source_ip: c.source_ip@,
                },
            ),
            None => rest_context_of(jview(*ctx)) is None,
        },
{
    let domain_name = match get_str_field(ctx, &("domainName").as_bytes_vec()) {
        Some(x) => x,
        None => {
            return None;
        },
    };
    let path = match get_str_field(ctx, &("path").as_bytes_vec()) {
        Some(x) => x,
        None => {
            return None;
        },
    };
    let idv = match ctx.get(&("identity").as_bytes_vec()) {
        Some(x) => x,
        None => {
            return None;
        },
    };
    let source_ip = match get_str_field(idv, &("sourceIp").as_bytes_vec()) {
        Some(x) => x,
        None => {
            return None;
        },
    };
    Some(RestContext { domain_name, path, source_ip })
}

fn parse_rest(v: &JsonValue) -> (r: Option<RestAlbEvent>)
    ensures
        match r {
            Some(e) => rest_model_of(jview(*v)) == Some(e.model()),
            None => rest_model_of(jview(*v)) is None,
        },
{
    let path = match get_str_field(v, &("path").as_bytes_vec()) {
        Some(x) => x,
        None => {
            return None;
        },
    };
    let http_method = match get_str_field(v, &("httpMethod").as_bytes_vec()) {
        Some(x) => x,
        None => {
            return None;
        },
    };
    let multi_value_headers = match v.get(&("multiValueHeaders").as_bytes_vec()) {
        Some(x) => match x {
            JsonValue::Obj(fields) => match multimap_of_exec(fields) {
                Some(m) => m,
                None => {
                    return None;
                },
            },
            _ => {
                return None;
            },
        },
        None => {
            return None;
        },
    };
    let multi_value_query_string_parameters = match v.get(
        &("multiValueQueryStringParameters").as_bytes_vec(),
    ) {
        None => None,
        Some(x) => match x {
            JsonValue::Null => None,
            JsonValue::Obj(fields) => match multimap_of_exec(fields) {
                Some(m) => Some(m),
                None => {
                    return None;
                },
            },
            _ => {
                return None;
            },
        },
    };
    let body = match get_opt_str_field(v, &("body").as_bytes_vec()) {
        Some(o) => o,
        None => {
            return None;
        },
    };
    let is_base64_encoded = match get_default_bool_field(v, &("isBase64Encoded").as_bytes_vec()) {
        Some(b) => b,
        None => {
            return None;
        },
    };
    let ctx = match v.get(&("requestContext").as_bytes_vec()) {
        Some(c) => c,
        None => {
            return None;
        },
    };
    match ctx {
        JsonValue::Obj(_) => {},
        _ => {
            return None;
        },
    }
    let rest_context = parse_rest_context(ctx);
    Some(
        RestAlbEvent {
            http_method,
            path,
            multi_value_headers,
            multi_value_query_string_parameters,
            body,
            is_base64_encoded,
            rest_context,
        },
    )
}

/// Classify a parsed JSON tree as one gateway event: the HTTP API v2
/// shape is tried first, then the REST/load-balancer shape; a tree
/// matching neither is a malformed event.
pub fn parse_event(v: &JsonValue) -> (r: Result<LambdaHttpEvent, EventError>)
    ensures
        match r {
            Ok(ev) => match ev {
                LambdaHttpEvent::HttpV2(e) => v2_model_of(jview(*v)) == Some(e.model()),
                LambdaHttpEvent::RestOrAlb(e) => v2_model_of(jview(*v)) is None && rest_model_of(
                    jview(*v),
                ) == Some(e.model()),
            },
            Err(err) => err == EventError::MalformedEvent && v2_model_of(jview(*v)) is None
                && rest_model_of(jview(*v)) is None,
        },
{
    match parse_v2(v) {
        Some(e) => Ok(LambdaHttpEvent::HttpV2(e)),
        None => match parse_rest(v) {
            Some(e) => Ok(LambdaHttpEvent::RestOrAlb(e)),
            None => Err(EventError::MalformedEvent),
        },
    }
}

} // verus!
