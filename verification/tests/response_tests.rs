//! Compression negotiation and envelope serialization on concrete
//! responses, with the real compressor and base64 coder linked in.

use lambda_web::json::JsonValue;
use lambda_web::response::{
    bad_request_envelope, internal_error_envelope, serialize_response, OutgoingResponse,
};
use std::io::Read;

fn obj_get<'a>(v: &'a JsonValue, key: &[u8]) -> Option<&'a JsonValue> {
    match v {
        JsonValue::Obj(fields) => fields.iter().find(|(k, _)| k == key).map(|(_, x)| x),
        _ => None,
    }
}

fn str_of(v: &JsonValue) -> Vec<u8> {
    match v {
        JsonValue::Str(s) => s.clone(),
        _ => panic!("expected a string value"),
    }
}

fn html_response(body: &[u8]) -> OutgoingResponse {
    OutgoingResponse {
        status: 200,
        headers: vec![(b"content-type".to_vec(), b"text/html".to_vec())],
        body: body.to_vec(),
    }
}

#[test]
fn compresses_html_for_brotli_client() {
    let body = b"<html><body>hello hello hello hello</body></html>";
    let env = serialize_response(&html_response(body), true, false);

    let headers = obj_get(&env, b"headers").unwrap();
    assert_eq!(str_of(obj_get(headers, b"content-encoding").unwrap()), b"br".to_vec());

    let body_b64 = str_of(obj_get(&env, b"body").unwrap());
    let compressed = base64::decode(&body_b64).unwrap();
    let mut decompressed = Vec::new();
    brotli::Decompressor::new(&compressed[..], 4096).read_to_end(&mut decompressed).unwrap();
    assert_eq!(decompressed, body.to_vec());
}

#[test]
fn never_compresses_png() {
    let resp = OutgoingResponse {
        status: 200,
        headers: vec![(b"content-type".to_vec(), b"image/png".to_vec())],
        body: b"PNGDATA".to_vec(),
    };
    let env = serialize_response(&resp, true, false);
    let headers = obj_get(&env, b"headers").unwrap();
    assert!(obj_get(headers, b"content-encoding").is_none());
    assert_eq!(
        str_of(obj_get(&env, b"body").unwrap()),
        base64::encode(b"PNGDATA").into_bytes()
    );
}

#[test]
fn never_recompresses_encoded_response() {
    let resp = OutgoingResponse {
        status: 200,
        headers: vec![
            (b"content-type".to_vec(), b"text/html".to_vec()),
            (b"content-encoding".to_vec(), b"gzip".to_vec()),
        ],
        body: b"gzipped-bytes".to_vec(),
    };
    let env = serialize_response(&resp, true, false);
    let headers = obj_get(&env, b"headers").unwrap();
    assert_eq!(str_of(obj_get(headers, b"content-encoding").unwrap()), b"gzip".to_vec());
    assert_eq!(
        str_of(obj_get(&env, b"body").unwrap()),
        base64::encode(b"gzipped-bytes").into_bytes()
    );
}

#[test]
fn no_compression_without_client_support() {
    let body = b"<html></html>";
    let env = serialize_response(&html_response(body), false, false);
    let headers = obj_get(&env, b"headers").unwrap();
    assert!(obj_get(headers, b"content-encoding").is_none());
    assert_eq!(str_of(obj_get(&env, b"body").unwrap()), base64::encode(body).into_bytes());
}

#[test]
fn v2_envelope_extracts_set_cookie() {
    let resp = OutgoingResponse {
        status: 200,
        headers: vec![
            (b"content-type".to_vec(), b"image/png".to_vec()),
            (b"set-cookie".to_vec(), b"a=1".to_vec()),
            (b"set-cookie".to_vec(), b"b=2".to_vec()),
        ],
        body: b"x".to_vec(),
    };
    let env = serialize_response(&resp, false, false);
    let headers = obj_get(&env, b"headers").unwrap();
    assert!(obj_get(headers, b"set-cookie").is_none());
    match obj_get(&env, b"cookies").unwrap() {
        JsonValue::Arr(items) => {
            assert_eq!(items.len(), 2);
            assert_eq!(str_of(&items[0]), b"a=1".to_vec());
            assert_eq!(str_of(&items[1]), b"b=2".to_vec());
        },
        _ => panic!("cookies should be an array"),
    }
    match obj_get(&env, b"isBase64Encoded").unwrap() {
        JsonValue::Bool(b) => assert!(*b),
        _ => panic!("isBase64Encoded should be a boolean"),
    }
    match obj_get(&env, b"statusCode").unwrap() {
        JsonValue::Num(n) => assert_eq!(*n, 200),
        _ => panic!("statusCode should be a number"),
    }
}

#[test]
fn multi_value_envelope_keeps_set_cookie_and_groups() {
    let resp = OutgoingResponse {
        status: 404,
        headers: vec![
            (b"content-type".to_vec(), b"image/png".to_vec()),
            (b"set-cookie".to_vec(), b"a=1".to_vec()),
            (b"set-cookie".to_vec(), b"b=2".to_vec()),
        ],
        body: b"x".to_vec(),
    };
    let env = serialize_response(&resp, false, true);
    assert!(obj_get(&env, b"cookies").is_none());
    assert!(obj_get(&env, b"headers").is_none());
    let headers = obj_get(&env, b"multiValueHeaders").unwrap();
    match obj_get(headers, b"set-cookie").unwrap() {
        JsonValue::Arr(items) => {
            assert_eq!(items.len(), 2);
            assert_eq!(str_of(&items[0]), b"a=1".to_vec());
            assert_eq!(str_of(&items[1]), b"b=2".to_vec());
        },
        _ => panic!("a multi-valued header should be an array"),
    }
    match obj_get(headers, b"content-type").unwrap() {
        JsonValue::Arr(items) => {
            assert_eq!(items.len(), 1);
            assert_eq!(str_of(&items[0]), b"image/png".to_vec());
        },
        _ => panic!("a multi-valued header should be an array"),
    }
    match obj_get(&env, b"statusCode").unwrap() {
        JsonValue::Num(n) => assert_eq!(*n, 404),
        _ => panic!("statusCode should be a number"),
    }
}

#[test]
fn multi_value_compression_marks_br_as_list() {
    let body = b"{\"k\": 1}";
    let resp = OutgoingResponse {
        status: 200,
        headers: vec![(b"content-type".to_vec(), b"application/json".to_vec())],
        body: body.to_vec(),
    };
    let env = serialize_response(&resp, true, true);
    let headers = obj_get(&env, b"multiValueHeaders").unwrap();
    match obj_get(headers, b"content-encoding").unwrap() {
        JsonValue::Arr(items) => {
            assert_eq!(items.len(), 1);
            assert_eq!(str_of(&items[0]), b"br".to_vec());
        },
        _ => panic!("content-encoding should be a one-element list"),
    }
}

#[test]
fn serialization_is_idempotent() {
    let resp = || OutgoingResponse {
        status: 200,
        headers: vec![
            (b"content-type".to_vec(), b"text/html".to_vec()),
            (b"x-extra".to_vec(), b"1".to_vec()),
        ],
        body: b"<html>same bytes every time</html>".to_vec(),
    };
    let a = serialize_response(&resp(), true, false);
    let b = serialize_response(&resp(), true, false);
    assert_eq!(a, b);
    let a = serialize_response(&resp(), false, true);
    let b = serialize_response(&resp(), false, true);
    assert_eq!(a, b);
}

#[test]
fn body_is_base64_of_bytes() {
    let resp = OutgoingResponse { status: 200, headers: vec![], body: b"hello".to_vec() };
    let env = serialize_response(&resp, false, false);
    assert_eq!(str_of(obj_get(&env, b"body").unwrap()), b"aGVsbG8=".to_vec());
}

#[test]
fn fixed_error_envelopes() {
    let env = bad_request_envelope();
    match obj_get(&env, b"statusCode").unwrap() {
        JsonValue::Num(n) => assert_eq!(*n, 400),
        _ => panic!("statusCode should be a number"),
    }
    assert_eq!(str_of(obj_get(&env, b"body").unwrap()), b"Bad Request".to_vec());
    let headers = obj_get(&env, b"headers").unwrap();
    assert_eq!(str_of(obj_get(headers, b"content-type").unwrap()), b"text/plain".to_vec());
    match obj_get(&env, b"isBase64Encoded").unwrap() {
        JsonValue::Bool(b) => assert!(!*b),
        _ => panic!("isBase64Encoded should be a boolean"),
    }

    let env = internal_error_envelope();
    match obj_get(&env, b"statusCode").unwrap() {
        JsonValue::Num(n) => assert_eq!(*n, 500),
        _ => panic!("statusCode should be a number"),
    }
    assert_eq!(str_of(obj_get(&env, b"body").unwrap()), b"Internal Server Error".to_vec());
}

#[test]
fn eligibility_is_case_and_space_insensitive() {
    let resp = OutgoingResponse {
        status: 200,
        headers: vec![(b"Content-Type".to_vec(), b"  TEXT/HTML; charset=utf-8".to_vec())],
        body: b"<html></html>".to_vec(),
    };
    assert!(resp.can_brotli_compress());
    let resp = OutgoingResponse {
        status: 200,
        headers: vec![(b"content-type".to_vec(), b"application/octet-stream".to_vec())],
        body: b"bin".to_vec(),
    };
    assert!(!resp.can_brotli_compress());
}
