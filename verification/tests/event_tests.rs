//! Gateway event handling on real payloads: paths, queries, headers,
//! cookies, bodies and source addresses, for both payload shapes.

use lambda_web::event::LambdaHttpEvent;
use lambda_web::json::JsonValue;
use lambda_web::schema::parse_event;

fn conv(v: &serde_json::Value) -> JsonValue {
    match v {
        serde_json::Value::Null => JsonValue::Null,
        serde_json::Value::Bool(b) => JsonValue::Bool(*b),
        serde_json::Value::Number(n) => match n.as_u64() {
            Some(u) => JsonValue::Num(u),
            None => JsonValue::NumOther,
        },
        serde_json::Value::String(s) => JsonValue::Str(s.as_bytes().to_vec()),
        serde_json::Value::Array(items) => JsonValue::Arr(items.iter().map(conv).collect()),
        serde_json::Value::Object(map) => JsonValue::Obj(
            map.iter().map(|(k, x)| (k.as_bytes().to_vec(), conv(x))).collect(),
        ),
    }
}

fn parse(s: &str) -> LambdaHttpEvent {
    let v: serde_json::Value = serde_json::from_str(s).unwrap();
    parse_event(&conv(&v)).unwrap()
}

fn path_of(ev: &LambdaHttpEvent) -> Vec<u8> {
    let pq = ev.path_query();
    match pq.iter().position(|b| *b == b'?') {
        Some(i) => pq[..i].to_vec(),
        None => pq,
    }
}

fn query_of(ev: &LambdaHttpEvent) -> Option<Vec<u8>> {
    let pq = ev.path_query();
    pq.iter().position(|b| *b == b'?').map(|i| pq[i + 1..].to_vec())
}

fn header_value(ev: &LambdaHttpEvent, name: &[u8]) -> Option<Vec<u8>> {
    ev.headers().into_iter().find(|(k, _)| k == name).map(|(_, v)| v)
}

// GET /
const API_GATEWAY_V2_GET_ROOT_NOQUERY: &str = r###"{
    "headers":{
        "x-forwarded-for":"1.2.3.4",
        "x-forwarded-port":"443",
        "x-forwarded-proto":"https"
    },
    "isBase64Encoded":false,
    "rawPath":"/",
    "rawQueryString":"",
    "requestContext":{
        "domainName":"yyyyyyyyyy.execute-api.ap-northeast-1.amazonaws.com",
        "http":{
            "method":"GET",
            "sourceIp":"1.2.3.4"
        }
    },
    "version":"2.0"
}"###;
const API_GATEWAY_REST_GET_ROOT_NOQUERY: &str = r###"{
    "path":"/",
    "httpMethod":"GET",
    "headers":{
        "x-forwarded-for":"1.2.3.4",
        "x-forwarded-port":"443",
        "x-forwarded-proto":"https"
    },
    "multiValueHeaders":{
        "x-forwarded-for":["1.2.3.4"],
        "x-forwarded-port":["443"],
        "x-forwarded-proto":["https"]
    },
    "queryStringParameters":{},
    "multiValueQueryStringParameters":{},
    "requestContext":{
        "domainName":"yyyyyyyyyy.execute-api.ap-northeast-1.amazonaws.com",
        "path":"/stage/",
        "identity":{
            "sourceIp": "1.2.3.4"
        }
    }
}"###;

// GET /somewhere
const API_GATEWAY_V2_GET_SOMEWHERE_NOQUERY: &str = r###"{
    "headers":{
        "x-forwarded-for":"1.2.3.4",
        "x-forwarded-port":"443",
        "x-forwarded-proto":"https"
    },
    "isBase64Encoded":false,
    "rawPath":"/somewhere",
    "rawQueryString":"",
    "requestContext":{
        "domainName":"yyyyyyyyyy.execute-api.ap-northeast-1.amazonaws.com",
        "http":{
            "method":"GET",
            "sourceIp":"1.2.3.4"
        }
    },
    "version":"2.0"
}"###;
const API_GATEWAY_REST_GET_SOMEWHERE_NOQUERY: &str = r###"{
    "path":"/somewhere",
    "httpMethod":"GET",
    "multiValueHeaders":{
        "x-forwarded-for":["1.2.3.4"],
        "x-forwarded-port":["443"],
        "x-forwarded-proto":["https"]
    },
    "queryStringParameters":{},
    "multiValueQueryStringParameters":{},
    "requestContext":{
        "domainName":"yyyyyyyyyy.execute-api.ap-northeast-1.amazonaws.com",
        "path":"/stage/somewhere",
        "identity":{
            "sourceIp": "1.2.3.4"
        }
    }
}"###;

// GET /path%20with/space — the gateway delivers the path decoded.
const API_GATEWAY_V2_GET_SPACEPATH_NOQUERY: &str = r###"{
    "headers":{
        "x-forwarded-for":"1.2.3.4",
        "x-forwarded-port":"443",
        "x-forwarded-proto":"https"
    },
    "isBase64Encoded":false,
    "rawPath":"/path with/space",
    "rawQueryString":"",
    "requestContext":{
        "domainName":"yyyyyyyyyy.execute-api.ap-northeast-1.amazonaws.com",
        "http":{
            "method":"GET",
            "sourceIp":"1.2.3.4"
        }
    },
    "version":"2.0"
}"###;
const API_GATEWAY_REST_GET_SPACEPATH_NOQUERY: &str = r###"{
    "path":"/path with/space",
    "httpMethod":"GET",
    "multiValueHeaders":{
        "x-forwarded-for":["1.2.3.4"],
        "x-forwarded-port":["443"],
        "x-forwarded-proto":["https"]
    },
    "queryStringParameters":{},
    "multiValueQueryStringParameters":{},
    "requestContext":{
        "domainName":"yyyyyyyyyy.execute-api.ap-northeast-1.amazonaws.com",
        "path":"/stage/path with/space",
        "identity":{
            "sourceIp": "1.2.3.4"
        }
    }
}"###;

// GET /path%25with/percent — a literal percent in the decoded path.
const API_GATEWAY_V2_GET_PERCENTPATH_NOQUERY: &str = r###"{
    "headers":{
        "x-forwarded-for":"1.2.3.4",
        "x-forwarded-port":"443",
        "x-forwarded-proto":"https"
    },
    "isBase64Encoded":false,
    "rawPath":"/path%with/percent",
    "rawQueryString":"",
    "requestContext":{
        "domainName":"yyyyyyyyyy.execute-api.ap-northeast-1.amazonaws.com",
        "http":{
            "method":"GET",
            "sourceIp":"1.2.3.4"
        }
    },
    "version":"2.0"
}"###;
const API_GATEWAY_REST_GET_PERCENTPATH_NOQUERY: &str = r###"{
    "path":"/path%with/percent",
    "httpMethod":"GET",
    "multiValueHeaders":{
        "x-forwarded-for":["1.2.3.4"],
        "x-forwarded-port":["443"],
        "x-forwarded-proto":["https"]
    },
    "queryStringParameters":{},
    "multiValueQueryStringParameters":{},
    "requestContext":{
        "domainName":"yyyyyyyyyy.execute-api.ap-northeast-1.amazonaws.com",
        "path":"/stage/path%with/percent",
        "identity":{
            "sourceIp": "1.2.3.4"
        }
    }
}"###;

// GET /%E6%97%A5%E6%9C%AC%E8%AA%9E/%E3%83%95%E3%82%A1%E3%82%A4%E3%83%AB%E5%90%8D
const API_GATEWAY_V2_GET_UTF8PATH_NOQUERY: &str = r###"{
    "headers":{
        "x-forwarded-for":"1.2.3.4",
        "x-forwarded-port":"443",
        "x-forwarded-proto":"https"
    },
    "isBase64Encoded":false,
    "rawPath":"/日本語/ファイル名",
    "rawQueryString":"",
    "requestContext":{
        "domainName":"yyyyyyyyyy.execute-api.ap-northeast-1.amazonaws.com",
        "http":{
            "method":"GET",
            "sourceIp":"1.2.3.4"
        }
    },
    "version":"2.0"
}"###;
const API_GATEWAY_REST_GET_UTF8PATH_NOQUERY: &str = r###"{
    "path":"/日本語/ファイル名",
    "httpMethod":"GET",
    "multiValueHeaders":{
        "x-forwarded-for":["1.2.3.4"],
        "x-forwarded-port":["443"],
        "x-forwarded-proto":["https"]
    },
    "queryStringParameters":{},
    "multiValueQueryStringParameters":{},
    "requestContext":{
        "domainName":"yyyyyyyyyy.execute-api.ap-northeast-1.amazonaws.com",
        "path":"/stage/日本語/ファイル名",
        "identity":{
            "sourceIp": "1.2.3.4"
        }
    }
}"###;

// GET /?key=value
const API_GATEWAY_V2_GET_ROOT_ONEQUERY: &str = r###"{
    "headers":{
        "x-forwarded-for":"1.2.3.4",
        "x-forwarded-port":"443",
        "x-forwarded-proto":"https"
    },
    "isBase64Encoded":false,
    "rawPath":"/",
    "rawQueryString":"key=value",
    "requestContext":{
        "domainName":"yyyyyyyyyy.execute-api.ap-northeast-1.amazonaws.com",
        "http":{
            "method":"GET",
            "sourceIp":"1.2.3.4"
        }
    },
    "version":"2.0"
}"###;
const API_GATEWAY_REST_GET_ROOT_ONEQUERY: &str = r###"{
    "path":"/",
    "httpMethod":"GET",
    "multiValueHeaders":{
        "x-forwarded-for":["1.2.3.4"],
        "x-forwarded-port":["443"],
        "x-forwarded-proto":["https"]
    },
    "queryStringParameters":{
        "key":"value"
    },
    "multiValueQueryStringParameters":{
        "key":["value"]
    },
    "requestContext":{
        "domainName":"yyyyyyyyyy.execute-api.ap-northeast-1.amazonaws.com",
        "path":"/stage/",
        "identity":{
            "sourceIp": "1.2.3.4"
        }
    }
}"###;

// GET /somewhere?key=value
const API_GATEWAY_V2_GET_SOMEWHERE_ONEQUERY: &str = r###"{
    "headers":{
        "x-forwarded-for":"1.2.3.4",
        "x-forwarded-port":"443",
        "x-forwarded-proto":"https"
    },
    "isBase64Encoded":false,
    "rawPath":"/somewhere",
    "rawQueryString":"key=value",
    "requestContext":{
        "domainName":"yyyyyyyyyy.execute-api.ap-northeast-1.amazonaws.com",
        "http":{
            "method":"GET",
            "sourceIp":"1.2.3.4"
        }
    },
    "version":"2.0"
}"###;
const API_GATEWAY_REST_GET_SOMEWHERE_ONEQUERY: &str = r###"{
    "path":"/somewhere",
    "httpMethod":"GET",
    "multiValueHeaders":{
        "x-forwarded-for":["1.2.3.4"],
        "x-forwarded-port":["443"],
        "x-forwarded-proto":["https"]
    },
    "queryStringParameters":{
        "key":"value"
    },
    "multiValueQueryStringParameters":{
        "key":["value"]
    },
    "requestContext":{
        "domainName":"yyyyyyyyyy.execute-api.ap-northeast-1.amazonaws.com",
        "path":"/stage/somewhere",
        "identity":{
            "sourceIp": "1.2.3.4"
        }
    }
}"###;

// GET /somewhere?key1=value1&key2=value2
const API_GATEWAY_V2_GET_SOMEWHERE_TWOQUERY: &str = r###"{
    "headers":{
        "x-forwarded-for":"1.2.3.4",
        "x-forwarded-port":"443",
        "x-forwarded-proto":"https"
    },
    "isBase64Encoded":false,
    "rawPath":"/somewhere",
    "rawQueryString":"key1=value1&key2=value2",
    "requestContext":{
        "domainName":"yyyyyyyyyy.execute-api.ap-northeast-1.amazonaws.com",
        "http":{
            "method":"GET",
            "sourceIp":"1.2.3.4"
        }
    },
    "version":"2.0"
}"###;
const API_GATEWAY_REST_GET_SOMEWHERE_TWOQUERY: &str = r###"{
    "path":"/somewhere",
    "httpMethod":"GET",
    "multiValueHeaders":{
        "x-forwarded-for":["1.2.3.4"],
        "x-forwarded-port":["443"],
        "x-forwarded-proto":["https"]
    },
    "queryStringParameters":{
        "key1":"value1",
        "key2":"value2"
    },
    "multiValueQueryStringParameters":{
        "key1":["value1"],
        "key2":["value2"]
    },
    "requestContext":{
        "domainName":"yyyyyyyyyy.execute-api.ap-northeast-1.amazonaws.com",
        "path":"/stage/somewhere",
        "identity":{
            "sourceIp": "1.2.3.4"
        }
    }
}"###;

// GET /somewhere?key=value1+value2
const API_GATEWAY_V2_GET_SOMEWHERE_SPACEQUERY: &str = r###"{
    "headers":{
        "x-forwarded-for":"1.2.3.4",
        "x-forwarded-port":"443",
        "x-forwarded-proto":"https"
    },
    "isBase64Encoded":false,
    "rawPath":"/somewhere",
    "rawQueryString":"key=value1+value2",
    "requestContext":{
        "domainName":"yyyyyyyyyy.execute-api.ap-northeast-1.amazonaws.com",
        "http":{
            "method":"GET",
            "sourceIp":"1.2.3.4"
        }
    },
    "version":"2.0"
}"###;
const API_GATEWAY_REST_GET_SOMEWHERE_SPACEQUERY: &str = r###"{
    "path":"/somewhere",
    "httpMethod":"GET",
    "multiValueHeaders":{
        "x-forwarded-for":["1.2.3.4"],
        "x-forwarded-port":["443"],
        "x-forwarded-proto":["https"]
    },
    "queryStringParameters":{
        "key":"value1 value2"
    },
    "multiValueQueryStringParameters":{
        "key":["value1 value2"]
    },
    "requestContext":{
        "domainName":"yyyyyyyyyy.execute-api.ap-northeast-1.amazonaws.com",
        "path":"/stage/somewhere",
        "identity":{
            "sourceIp": "1.2.3.4"
        }
    }
}"###;

// GET /somewhere?key=%E6%97%A5%E6%9C%AC%E8%AA%9E
const API_GATEWAY_V2_GET_SOMEWHERE_UTF8QUERY: &str = r###"{
    "headers":{
        "x-forwarded-for":"1.2.3.4",
        "x-forwarded-port":"443",
        "x-forwarded-proto":"https"
    },
    "isBase64Encoded":false,
    "rawPath":"/somewhere",
    "rawQueryString":"key=%E6%97%A5%E6%9C%AC%E8%AA%9E",
    "requestContext":{
        "domainName":"yyyyyyyyyy.execute-api.ap-northeast-1.amazonaws.com",
        "http":{
            "method":"GET",
            "sourceIp":"1.2.3.4"
        }
    },
    "version":"2.0"
}"###;
const API_GATEWAY_REST_GET_SOMEWHERE_UTF8QUERY: &str = r###"{
    "path":"/somewhere",
    "httpMethod":"GET",
    "multiValueHeaders":{
        "x-forwarded-for":["1.2.3.4"],
        "x-forwarded-port":["443"],
        "x-forwarded-proto":["https"]
    },
    "queryStringParameters":{
        "key":"日本語"
    },
    "multiValueQueryStringParameters":{
        "key":["日本語"]
    },
    "requestContext":{
        "domainName":"yyyyyyyyyy.execute-api.ap-northeast-1.amazonaws.com",
        "path":"/stage/somewhere",
        "identity":{
            "sourceIp": "1.2.3.4"
        }
    }
}"###;

// IPv6 source address
const API_GATEWAY_V2_GET_REMOTE_IPV6: &str = r###"{
    "headers":{
        "x-forwarded-for":"2404:6800:400a:80c::2004",
        "x-forwarded-port":"443",
        "x-forwarded-proto":"https"
    },
    "isBase64Encoded":false,
    "rawPath":"/",
    "rawQueryString":"",
    "requestContext":{
        "domainName":"yyyyyyyyyy.execute-api.ap-northeast-1.amazonaws.com",
        "http":{
            "method":"GET",
            "sourceIp":"2404:6800:400a:80c::2004"
        }
    },
    "version":"2.0"
}"###;
const API_GATEWAY_REST_GET_REMOTE_IPV6: &str = r###"{
    "path":"/",
    "httpMethod":"GET",
    "multiValueHeaders":{
        "x-forwarded-for":["2404:6800:400a:80c::2004"],
        "x-forwarded-port":["443"],
        "x-forwarded-proto":["https"]
    },
    "queryStringParameters":{},
    "multiValueQueryStringParameters":{},
    "requestContext":{
        "domainName":"yyyyyyyyyy.execute-api.ap-northeast-1.amazonaws.com",
        "path":"/stage/",
        "identity":{
            "sourceIp": "2404:6800:400a:80c::2004"
        }
    }
}"###;

// Cookie: cookie1=value1
const API_GATEWAY_V2_GET_ONE_COOKIE: &str = r###"{
    "cookies":["cookie1=value1"],
    "headers":{
        "x-forwarded-for":"1.2.3.4",
        "x-forwarded-port":"443",
        "x-forwarded-proto":"https"
    },
    "isBase64Encoded":false,
    "rawPath":"/",
    "rawQueryString":"",
    "requestContext":{
        "domainName":"yyyyyyyyyy.execute-api.ap-northeast-1.amazonaws.com",
        "http":{
            "method":"GET",
            "sourceIp":"1.2.3.4"
        }
    },
    "version":"2.0"
}"###;
const API_GATEWAY_REST_GET_ONE_COOKIE: &str = r###"{
    "path":"/somewhere",
    "httpMethod":"GET",
    "multiValueHeaders":{
        "cookie":["cookie1=value1"],
        "x-forwarded-for":["1.2.3.4"],
        "x-forwarded-port":["443"],
        "x-forwarded-proto":["https"]
    },
    "queryStringParameters":{},
    "multiValueQueryStringParameters":{},
    "requestContext":{
        "domainName":"yyyyyyyyyy.execute-api.ap-northeast-1.amazonaws.com",
        "path":"/stage/somewhere",
        "identity":{
            "sourceIp": "1.2.3.4"
        }
    }
}"###;

// Cookie: cookie1=value1; cookie2=value2
const API_GATEWAY_V2_GET_TWO_COOKIES: &str = r###"{
    "cookies":["cookie2=value2","cookie1=value1"],
        "headers":{
        "x-forwarded-for":"1.2.3.4",
        "x-forwarded-port":"443",
        "x-forwarded-proto":"https"
    },
    "isBase64Encoded":false,
    "rawPath":"/",
    "rawQueryString":"",
    "requestContext":{
        "domainName":"yyyyyyyyyy.execute-api.ap-northeast-1.amazonaws.com",
        "http":{
            "method":"GET",
            "sourceIp":"1.2.3.4"
        }
    },
    "version":"2.0"
}"###;
const API_GATEWAY_REST_GET_TWO_COOKIES: &str = r###"{
    "path":"/somewhere",
    "httpMethod":"GET",
    "multiValueHeaders":{
        "cookie":["cookie1=value1; cookie2=value2"],
        "x-forwarded-for":["1.2.3.4"],
        "x-forwarded-port":["443"],
        "x-forwarded-proto":["https"]
    },
    "queryStringParameters":{},
    "multiValueQueryStringParameters":{},
    "requestContext":{
        "domainName":"yyyyyyyyyy.execute-api.ap-northeast-1.amazonaws.com",
        "path":"/stage/somewhere",
        "identity":{
            "sourceIp": "1.2.3.4"
        }
    }
}"###;

// POST /somewhere with key1=value1&key2=value2&Ok=Ok
const API_GATEWAY_V2_POST_FORM_URLENCODED: &str = r###"{
    "body":"key1=value1&key2=value2&Ok=Ok",
    "headers":{
        "content-length":"29",
        "content-type":"application/x-www-form-urlencoded",
        "x-forwarded-for":"1.2.3.4",
        "x-forwarded-port":"443",
        "x-forwarded-proto":"https"
    },
    "isBase64Encoded":false,
    "rawPath":"/somewhere",
    "rawQueryString":"",
    "requestContext":{
        "domainName":"yyyyyyyyyy.execute-api.ap-northeast-1.amazonaws.com",
        "http":{
            "method":"POST",
            "sourceIp":"1.2.3.4"
        }
    },
    "version":"2.0"
}"###;
const API_GATEWAY_REST_POST_FORM_URLENCODED: &str = r###"{
    "body":"key1=value1&key2=value2&Ok=Ok",
    "isBase64Encoded":false,
    "path":"/somewhere",
    "httpMethod":"POST",
    "multiValueHeaders":{
        "content-length":["29"],
        "content-type":["application/x-www-form-urlencoded"],
        "x-forwarded-for":["1.2.3.4"],
        "x-forwarded-port":["443"],
        "x-forwarded-proto":["https"]
    },
    "queryStringParameters":{},
    "multiValueQueryStringParameters":{},
    "requestContext":{
        "domainName":"yyyyyyyyyy.execute-api.ap-northeast-1.amazonaws.com",
        "path":"/stage/somewhere",
        "identity":{
            "sourceIp": "1.2.3.4"
        }
    }
}"###;

// The same POST, base64 coded by the gateway
const API_GATEWAY_V2_POST_FORM_URLENCODED_B64: &str = r###"{
    "body":"a2V5MT12YWx1ZTEma2V5Mj12YWx1ZTImT2s9T2s=",
    "headers":{
        "content-length":"29",
        "content-type":"application/x-www-form-urlencoded",
        "x-forwarded-for":"1.2.3.4",
        "x-forwarded-port":"443",
        "x-forwarded-proto":"https"
    },
    "isBase64Encoded":true,
    "rawPath":"/somewhere",
    "rawQueryString":"",
    "requestContext":{
        "domainName":"yyyyyyyyyy.execute-api.ap-northeast-1.amazonaws.com",
        "http":{
            "method":"POST",
            "sourceIp":"1.2.3.4"
        }
    },
    "version":"2.0"
}"###;
const API_GATEWAY_REST_POST_FORM_URLENCODED_B64: &str = r###"{
    "body":"a2V5MT12YWx1ZTEma2V5Mj12YWx1ZTImT2s9T2s=",
    "isBase64Encoded":true,
    "path":"/somewhere",
    "httpMethod":"POST",
    "multiValueHeaders":{
        "content-length":["29"],
        "content-type":["application/x-www-form-urlencoded"],
        "x-forwarded-for":["1.2.3.4"],
        "x-forwarded-port":["443"],
        "x-forwarded-proto":["https"]
    },
    "queryStringParameters":{},
    "multiValueQueryStringParameters":{},
    "requestContext":{
        "domainName":"yyyyyyyyyy.execute-api.ap-northeast-1.amazonaws.com",
        "path":"/stage/somewhere",
        "identity":{
            "sourceIp": "1.2.3.4"
        }
    }
}"###;

#[test]
fn test_decode() {
    let v: serde_json::Value = serde_json::from_str(API_GATEWAY_V2_GET_ROOT_NOQUERY).unwrap();
    assert!(matches!(parse_event(&conv(&v)), Ok(LambdaHttpEvent::HttpV2(_))));
    let v: serde_json::Value = serde_json::from_str(API_GATEWAY_REST_GET_ROOT_NOQUERY).unwrap();
    assert!(matches!(parse_event(&conv(&v)), Ok(LambdaHttpEvent::RestOrAlb(_))));
}

#[test]
fn test_cookie() {
    let event = parse(API_GATEWAY_V2_GET_TWO_COOKIES);
    let cookies = event.cookies();
    assert_eq!(cookies.len(), 2);
    assert!(cookies.contains(&b"cookie1=value1".to_vec()));
    assert!(cookies.contains(&b"cookie2=value2".to_vec()));
    let event = parse(API_GATEWAY_REST_GET_TWO_COOKIES);
    assert_eq!(
        event.cookies(),
        vec![b"cookie1=value1".to_vec(), b"cookie2=value2".to_vec()]
    );
}

#[test]
fn actix4_test_path_decode() {
    let ev = parse(API_GATEWAY_V2_GET_ROOT_NOQUERY);
    assert_eq!(path_of(&ev), b"/".to_vec());

    let ev = parse(API_GATEWAY_V2_GET_SOMEWHERE_NOQUERY);
    assert_eq!(path_of(&ev), b"/somewhere".to_vec());

    let ev = parse(API_GATEWAY_V2_GET_SPACEPATH_NOQUERY);
    assert_eq!(path_of(&ev), b"/path%20with/space".to_vec());

    let ev = parse(API_GATEWAY_V2_GET_PERCENTPATH_NOQUERY);
    assert_eq!(path_of(&ev), b"/path%25with/percent".to_vec());

    let ev = parse(API_GATEWAY_V2_GET_UTF8PATH_NOQUERY);
    assert_eq!(
        path_of(&ev),
        b"/%E6%97%A5%E6%9C%AC%E8%AA%9E/%E3%83%95%E3%82%A1%E3%82%A4%E3%83%AB%E5%90%8D".to_vec()
    );
}

#[test]
fn actix4_test_query_decode() {
    let ev = parse(API_GATEWAY_V2_GET_ROOT_ONEQUERY);
    assert_eq!(query_of(&ev), Some(b"key=value".to_vec()));

    let ev = parse(API_GATEWAY_V2_GET_SOMEWHERE_ONEQUERY);
    assert_eq!(query_of(&ev), Some(b"key=value".to_vec()));

    let ev = parse(API_GATEWAY_V2_GET_SOMEWHERE_TWOQUERY);
    assert_eq!(query_of(&ev), Some(b"key1=value1&key2=value2".to_vec()));

    let ev = parse(API_GATEWAY_V2_GET_SOMEWHERE_SPACEQUERY);
    assert_eq!(query_of(&ev), Some(b"key=value1+value2".to_vec()));

    let ev = parse(API_GATEWAY_V2_GET_SOMEWHERE_UTF8QUERY);
    assert_eq!(query_of(&ev), Some(b"key=%E6%97%A5%E6%9C%AC%E8%AA%9E".to_vec()));
}

#[test]
fn test_remote_ip_decode() {
    let ev = parse(API_GATEWAY_V2_GET_ROOT_ONEQUERY);
    assert_eq!(ev.source_ip(), Some(b"1.2.3.4".to_vec()));

    let ev = parse(API_GATEWAY_V2_GET_REMOTE_IPV6);
    assert_eq!(ev.source_ip(), Some(b"2404:6800:400a:80c::2004".to_vec()));

    let ev = parse(API_GATEWAY_REST_GET_REMOTE_IPV6);
    assert_eq!(ev.source_ip(), Some(b"2404:6800:400a:80c::2004".to_vec()));
}

#[test]
fn actix4_test_form_post() {
    let ev = parse(API_GATEWAY_V2_POST_FORM_URLENCODED);
    assert_eq!(ev.method(), &b"POST".to_vec());

    let ev = parse(API_GATEWAY_V2_POST_FORM_URLENCODED_B64);
    assert_eq!(ev.method(), &b"POST".to_vec());
}

#[test]
fn actix4_test_parse_header() {
    let ev = parse(API_GATEWAY_V2_GET_ROOT_NOQUERY);
    assert_eq!(header_value(&ev, b"x-forwarded-port"), Some(b"443".to_vec()));
    assert_eq!(header_value(&ev, b"x-forwarded-proto"), Some(b"https".to_vec()));
}

#[test]
fn actix4_test_parse_cookies() {
    let ev = parse(API_GATEWAY_V2_GET_ROOT_NOQUERY);
    assert_eq!(ev.merged_cookie(), None);

    let ev = parse(API_GATEWAY_V2_GET_ONE_COOKIE);
    assert_eq!(ev.merged_cookie(), Some(b"cookie1=value1".to_vec()));

    let ev = parse(API_GATEWAY_V2_GET_TWO_COOKIES);
    let merged = ev.merged_cookie().unwrap();
    assert!(
        merged == b"cookie2=value2; cookie1=value1".to_vec()
            || merged == b"cookie1=value1; cookie2=value2".to_vec()
    );
}

#[test]
fn hyper014_test_path_decode() {
    let ev = parse(API_GATEWAY_V2_GET_ROOT_NOQUERY);
    assert_eq!(path_of(&ev), b"/".to_vec());
    let ev = parse(API_GATEWAY_REST_GET_ROOT_NOQUERY);
    assert_eq!(path_of(&ev), b"/stage/".to_vec());

    let ev = parse(API_GATEWAY_V2_GET_SOMEWHERE_NOQUERY);
    assert_eq!(path_of(&ev), b"/somewhere".to_vec());
    let ev = parse(API_GATEWAY_REST_GET_SOMEWHERE_NOQUERY);
    assert_eq!(path_of(&ev), b"/stage/somewhere".to_vec());

    let ev = parse(API_GATEWAY_V2_GET_SPACEPATH_NOQUERY);
    assert_eq!(path_of(&ev), b"/path%20with/space".to_vec());
    let ev = parse(API_GATEWAY_REST_GET_SPACEPATH_NOQUERY);
    assert_eq!(path_of(&ev), b"/stage/path%20with/space".to_vec());

    let ev = parse(API_GATEWAY_V2_GET_PERCENTPATH_NOQUERY);
    assert_eq!(path_of(&ev), b"/path%25with/percent".to_vec());
    let ev = parse(API_GATEWAY_REST_GET_PERCENTPATH_NOQUERY);
    assert_eq!(path_of(&ev), b"/stage/path%25with/percent".to_vec());

    let ev = parse(API_GATEWAY_V2_GET_UTF8PATH_NOQUERY);
    assert_eq!(
        path_of(&ev),
        b"/%E6%97%A5%E6%9C%AC%E8%AA%9E/%E3%83%95%E3%82%A1%E3%82%A4%E3%83%AB%E5%90%8D".to_vec()
    );
    let ev = parse(API_GATEWAY_REST_GET_UTF8PATH_NOQUERY);
    assert_eq!(
        path_of(&ev),
        b"/stage/%E6%97%A5%E6%9C%AC%E8%AA%9E/%E3%83%95%E3%82%A1%E3%82%A4%E3%83%AB%E5%90%8D"
            .to_vec()
    );
}

#[test]
fn hyper014_test_query_decode() {
    let ev = parse(API_GATEWAY_V2_GET_ROOT_ONEQUERY);
    assert_eq!(query_of(&ev), Some(b"key=value".to_vec()));
    let ev = parse(API_GATEWAY_REST_GET_ROOT_ONEQUERY);
    assert_eq!(query_of(&ev), Some(b"key=value".to_vec()));

    let ev = parse(API_GATEWAY_V2_GET_SOMEWHERE_ONEQUERY);
    assert_eq!(query_of(&ev), Some(b"key=value".to_vec()));
    let ev = parse(API_GATEWAY_REST_GET_SOMEWHERE_ONEQUERY);
    assert_eq!(query_of(&ev), Some(b"key=value".to_vec()));

    let ev = parse(API_GATEWAY_V2_GET_SOMEWHERE_TWOQUERY);
    assert_eq!(query_of(&ev), Some(b"key1=value1&key2=value2".to_vec()));
    let ev = parse(API_GATEWAY_REST_GET_SOMEWHERE_TWOQUERY);
    let q = query_of(&ev).unwrap();
    assert!(
        q == b"key1=value1&key2=value2".to_vec() || q == b"key2=value2&key1=value1".to_vec()
    );

    let ev = parse(API_GATEWAY_V2_GET_SOMEWHERE_SPACEQUERY);
    assert_eq!(query_of(&ev), Some(b"key=value1+value2".to_vec()));
    let ev = parse(API_GATEWAY_REST_GET_SOMEWHERE_SPACEQUERY);
    assert_eq!(query_of(&ev), Some(b"key=value1%20value2".to_vec()));

    let ev = parse(API_GATEWAY_V2_GET_SOMEWHERE_UTF8QUERY);
    assert_eq!(query_of(&ev), Some(b"key=%E6%97%A5%E6%9C%AC%E8%AA%9E".to_vec()));
    let ev = parse(API_GATEWAY_REST_GET_SOMEWHERE_UTF8QUERY);
    assert_eq!(query_of(&ev), Some(b"key=%E6%97%A5%E6%9C%AC%E8%AA%9E".to_vec()));
}

#[test]
fn hyper014_test_form_post() {
    let ev = parse(API_GATEWAY_V2_POST_FORM_URLENCODED);
    assert_eq!(ev.method(), &b"POST".to_vec());
    assert_eq!(ev.body().unwrap(), b"key1=value1&key2=value2&Ok=Ok".to_vec());
    let ev = parse(API_GATEWAY_REST_POST_FORM_URLENCODED);
    assert_eq!(ev.method(), &b"POST".to_vec());
    assert_eq!(ev.body().unwrap(), b"key1=value1&key2=value2&Ok=Ok".to_vec());

    let ev = parse(API_GATEWAY_V2_POST_FORM_URLENCODED_B64);
    assert_eq!(ev.method(), &b"POST".to_vec());
    assert_eq!(ev.body().unwrap(), b"key1=value1&key2=value2&Ok=Ok".to_vec());
    let ev = parse(API_GATEWAY_REST_POST_FORM_URLENCODED_B64);
    assert_eq!(ev.method(), &b"POST".to_vec());
    assert_eq!(ev.body().unwrap(), b"key1=value1&key2=value2&Ok=Ok".to_vec());
}

#[test]
fn hyper014_test_parse_header() {
    let ev = parse(API_GATEWAY_V2_GET_ROOT_NOQUERY);
    assert_eq!(header_value(&ev, b"x-forwarded-port"), Some(b"443".to_vec()));
    assert_eq!(header_value(&ev, b"x-forwarded-proto"), Some(b"https".to_vec()));
    let ev = parse(API_GATEWAY_REST_GET_ROOT_NOQUERY);
    assert_eq!(header_value(&ev, b"x-forwarded-port"), Some(b"443".to_vec()));
    assert_eq!(header_value(&ev, b"x-forwarded-proto"), Some(b"https".to_vec()));
}

#[test]
fn hyper014_test_parse_cookies() {
    let ev = parse(API_GATEWAY_V2_GET_ROOT_NOQUERY);
    assert_eq!(ev.merged_cookie(), None);
    let ev = parse(API_GATEWAY_REST_GET_ROOT_NOQUERY);
    assert_eq!(ev.merged_cookie(), None);

    let ev = parse(API_GATEWAY_V2_GET_ONE_COOKIE);
    assert_eq!(ev.merged_cookie(), Some(b"cookie1=value1".to_vec()));
    let ev = parse(API_GATEWAY_REST_GET_ONE_COOKIE);
    assert_eq!(ev.merged_cookie(), Some(b"cookie1=value1".to_vec()));

    let ev = parse(API_GATEWAY_V2_GET_TWO_COOKIES);
    let merged = ev.merged_cookie().unwrap();
    assert!(
        merged == b"cookie1=value1; cookie2=value2".to_vec()
            || merged == b"cookie2=value2; cookie1=value1".to_vec()
    );
    let ev = parse(API_GATEWAY_REST_GET_TWO_COOKIES);
    assert_eq!(ev.merged_cookie(), Some(b"cookie1=value1; cookie2=value2".to_vec()));
}

#[test]
fn warp03_test_path_decode() {
    let ev = parse(API_GATEWAY_V2_GET_ROOT_NOQUERY);
    assert_eq!(path_of(&ev), b"/".to_vec());
    let ev = parse(API_GATEWAY_REST_GET_ROOT_NOQUERY);
    assert_eq!(path_of(&ev), b"/stage/".to_vec());

    let ev = parse(API_GATEWAY_V2_GET_SOMEWHERE_NOQUERY);
    assert_eq!(path_of(&ev), b"/somewhere".to_vec());
    let ev = parse(API_GATEWAY_REST_GET_SOMEWHERE_NOQUERY);
    assert_eq!(path_of(&ev), b"/stage/somewhere".to_vec());

    let ev = parse(API_GATEWAY_V2_GET_SPACEPATH_NOQUERY);
    assert_eq!(path_of(&ev), b"/path%20with/space".to_vec());
    let ev = parse(API_GATEWAY_REST_GET_SPACEPATH_NOQUERY);
    assert_eq!(path_of(&ev), b"/stage/path%20with/space".to_vec());

    let ev = parse(API_GATEWAY_V2_GET_PERCENTPATH_NOQUERY);
    assert_eq!(path_of(&ev), b"/path%25with/percent".to_vec());
    let ev = parse(API_GATEWAY_REST_GET_PERCENTPATH_NOQUERY);
    assert_eq!(path_of(&ev), b"/stage/path%25with/percent".to_vec());

    let ev = parse(API_GATEWAY_V2_GET_UTF8PATH_NOQUERY);
    assert_eq!(
        path_of(&ev),
        b"/%E6%97%A5%E6%9C%AC%E8%AA%9E/%E3%83%95%E3%82%A1%E3%82%A4%E3%83%AB%E5%90%8D".to_vec()
    );
    let ev = parse(API_GATEWAY_REST_GET_UTF8PATH_NOQUERY);
    assert_eq!(
        path_of(&ev),
        b"/stage/%E6%97%A5%E6%9C%AC%E8%AA%9E/%E3%83%95%E3%82%A1%E3%82%A4%E3%83%AB%E5%90%8D"
            .to_vec()
    );
}

#[test]
fn warp03_test_query_decode() {
    let ev = parse(API_GATEWAY_V2_GET_ROOT_ONEQUERY);
    assert_eq!(query_of(&ev), Some(b"key=value".to_vec()));
    let ev = parse(API_GATEWAY_REST_GET_ROOT_ONEQUERY);
    assert_eq!(query_of(&ev), Some(b"key=value".to_vec()));

    let ev = parse(API_GATEWAY_V2_GET_SOMEWHERE_ONEQUERY);
    assert_eq!(query_of(&ev), Some(b"key=value".to_vec()));
    let ev = parse(API_GATEWAY_REST_GET_SOMEWHERE_ONEQUERY);
    assert_eq!(query_of(&ev), Some(b"key=value".to_vec()));

    let ev = parse(API_GATEWAY_V2_GET_SOMEWHERE_TWOQUERY);
    assert_eq!(query_of(&ev), Some(b"key1=value1&key2=value2".to_vec()));
    let ev = parse(API_GATEWAY_REST_GET_SOMEWHERE_TWOQUERY);
    let q = query_of(&ev).unwrap();
    assert!(
        q == b"key1=value1&key2=value2".to_vec() || q == b"key2=value2&key1=value1".to_vec()
    );

    let ev = parse(API_GATEWAY_V2_GET_SOMEWHERE_SPACEQUERY);
    assert_eq!(query_of(&ev), Some(b"key=value1+value2".to_vec()));
    let ev = parse(API_GATEWAY_REST_GET_SOMEWHERE_SPACEQUERY);
    assert_eq!(query_of(&ev), Some(b"key=value1%20value2".to_vec()));

    let ev = parse(API_GATEWAY_V2_GET_SOMEWHERE_UTF8QUERY);
    assert_eq!(query_of(&ev), Some(b"key=%E6%97%A5%E6%9C%AC%E8%AA%9E".to_vec()));
    let ev = parse(API_GATEWAY_REST_GET_SOMEWHERE_UTF8QUERY);
    assert_eq!(query_of(&ev), Some(b"key=%E6%97%A5%E6%9C%AC%E8%AA%9E".to_vec()));
}

#[test]
fn warp03_test_form_post() {
    let ev = parse(API_GATEWAY_V2_POST_FORM_URLENCODED);
    assert_eq!(ev.method(), &b"POST".to_vec());
    assert_eq!(ev.body().unwrap(), b"key1=value1&key2=value2&Ok=Ok".to_vec());
    let ev = parse(API_GATEWAY_REST_POST_FORM_URLENCODED);
    assert_eq!(ev.method(), &b"POST".to_vec());
    assert_eq!(ev.body().unwrap(), b"key1=value1&key2=value2&Ok=Ok".to_vec());

    let ev = parse(API_GATEWAY_V2_POST_FORM_URLENCODED_B64);
    assert_eq!(ev.body().unwrap(), b"key1=value1&key2=value2&Ok=Ok".to_vec());
    let ev = parse(API_GATEWAY_REST_POST_FORM_URLENCODED_B64);
    assert_eq!(ev.body().unwrap(), b"key1=value1&key2=value2&Ok=Ok".to_vec());
}

#[test]
fn warp03_test_parse_header() {
    let ev = parse(API_GATEWAY_V2_GET_ROOT_NOQUERY);
    assert_eq!(header_value(&ev, b"x-forwarded-port"), Some(b"443".to_vec()));
    assert_eq!(header_value(&ev, b"x-forwarded-proto"), Some(b"https".to_vec()));
    let ev = parse(API_GATEWAY_REST_GET_ROOT_NOQUERY);
    assert_eq!(header_value(&ev, b"x-forwarded-port"), Some(b"443".to_vec()));
    assert_eq!(header_value(&ev, b"x-forwarded-proto"), Some(b"https".to_vec()));
}

#[test]
fn warp03_test_parse_cookies() {
    let ev = parse(API_GATEWAY_V2_GET_ROOT_NOQUERY);
    assert_eq!(ev.merged_cookie(), None);
    let ev = parse(API_GATEWAY_REST_GET_ROOT_NOQUERY);
    assert_eq!(ev.merged_cookie(), None);

    let ev = parse(API_GATEWAY_V2_GET_ONE_COOKIE);
    assert_eq!(ev.merged_cookie(), Some(b"cookie1=value1".to_vec()));
    let ev = parse(API_GATEWAY_REST_GET_ONE_COOKIE);
    assert_eq!(ev.merged_cookie(), Some(b"cookie1=value1".to_vec()));

    let ev = parse(API_GATEWAY_V2_GET_TWO_COOKIES);
    let merged = ev.merged_cookie().unwrap();
    assert!(
        merged == b"cookie1=value1; cookie2=value2".to_vec()
            || merged == b"cookie2=value2; cookie1=value1".to_vec()
    );
    let ev = parse(API_GATEWAY_REST_GET_TWO_COOKIES);
    assert_eq!(ev.merged_cookie(), Some(b"cookie1=value1; cookie2=value2".to_vec()));
}

#[test]
fn end_to_end_v2_get() {
    let ev = parse(API_GATEWAY_V2_GET_SOMEWHERE_ONEQUERY);
    let req = lambda_web::request::normalize(&ev).unwrap();
    assert_eq!(req.path_and_query, b"/somewhere?key=value".to_vec());
    assert_eq!(req.method, b"GET".to_vec());
    assert_eq!(req.body, Vec::<u8>::new());
    assert!(!req.multi_value_response);
    assert_eq!(req.host, Some(b"yyyyyyyyyy.execute-api.ap-northeast-1.amazonaws.com".to_vec()));
    assert_eq!(req.source_ip, Some(b"1.2.3.4".to_vec()));
}

#[test]
fn multi_value_header_flatten_single_pair() {
    let ev = parse(API_GATEWAY_REST_GET_ROOT_NOQUERY);
    let headers = ev.headers();
    let ports: Vec<&(Vec<u8>, Vec<u8>)> =
        headers.iter().filter(|(k, _)| k == b"x-forwarded-port").collect();
    assert_eq!(ports.len(), 1);
    assert_eq!(ports[0].1, b"443".to_vec());
}

#[test]
fn brotli_negotiation_from_headers() {
    // Accept-Encoding "gzip, br;q=0.8" names brotli.
    let mut v: serde_json::Value = serde_json::from_str(API_GATEWAY_V2_GET_ROOT_NOQUERY).unwrap();
    v["headers"]["accept-encoding"] = serde_json::Value::String("gzip, br;q=0.8".to_string());
    let ev = parse_event(&conv(&v)).unwrap();
    assert!(ev.client_supports_brotli());

    // "gzip" alone does not.
    v["headers"]["accept-encoding"] = serde_json::Value::String("gzip".to_string());
    let ev = parse_event(&conv(&v)).unwrap();
    assert!(!ev.client_supports_brotli());

    // No accept-encoding header at all does not.
    let ev = parse(API_GATEWAY_V2_GET_ROOT_NOQUERY);
    assert!(!ev.client_supports_brotli());

    // The multi-valued shape scans every instance of the header.
    let mut v: serde_json::Value =
        serde_json::from_str(API_GATEWAY_REST_GET_ROOT_NOQUERY).unwrap();
    v["multiValueHeaders"]["accept-encoding"] =
        serde_json::from_str(r#"["gzip", "deflate, BR"]"#).unwrap();
    let ev = parse_event(&conv(&v)).unwrap();
    assert!(ev.client_supports_brotli());
}

#[test]
fn body_decode_base64_flag() {
    // A base64 body is decoded; a plain body is taken verbatim.
    let mut v: serde_json::Value = serde_json::from_str(API_GATEWAY_V2_GET_ROOT_NOQUERY).unwrap();
    v["body"] = serde_json::Value::String("a2V5MT12YWx1ZTE=".to_string());
    v["isBase64Encoded"] = serde_json::Value::Bool(true);
    let ev = parse_event(&conv(&v)).unwrap();
    assert_eq!(ev.body().unwrap(), b"key1=value1".to_vec());

    v["isBase64Encoded"] = serde_json::Value::Bool(false);
    let ev = parse_event(&conv(&v)).unwrap();
    assert_eq!(ev.body().unwrap(), b"a2V5MT12YWx1ZTE=".to_vec());
}

#[test]
fn malformed_and_invalid_inputs() {
    // A document matching neither schema is a malformed event.
    let v: serde_json::Value = serde_json::from_str(r#"{"hello": "world"}"#).unwrap();
    assert!(matches!(parse_event(&conv(&v)), Err(lambda_web::EventError::MalformedEvent)));

    // A method that is not a token is rejected by the normalizer.
    let mut v: serde_json::Value = serde_json::from_str(API_GATEWAY_V2_GET_ROOT_NOQUERY).unwrap();
    v["requestContext"]["http"]["method"] = serde_json::Value::String("GE T".to_string());
    let ev = parse_event(&conv(&v)).unwrap();
    assert_eq!(
        lambda_web::request::normalize(&ev).unwrap_err(),
        lambda_web::EventError::InvalidMethod
    );

    // A body that claims to be base64 but is not fails with the body error.
    let mut v: serde_json::Value = serde_json::from_str(API_GATEWAY_V2_GET_ROOT_NOQUERY).unwrap();
    v["body"] = serde_json::Value::String("!!!not-base64!!!".to_string());
    v["isBase64Encoded"] = serde_json::Value::Bool(true);
    let ev = parse_event(&conv(&v)).unwrap();
    assert_eq!(
        lambda_web::request::normalize(&ev).unwrap_err(),
        lambda_web::EventError::InvalidBodyEncoding
    );
}
