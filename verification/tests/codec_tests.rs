//! The percent-encoding codec on concrete values: the literal examples
//! and the decode-of-encode round trip.

use lambda_web::codec::{percent_decode, percent_encode};

#[test]
fn encode_literal_examples() {
    let r = percent_encode(&b"/path with/space".to_vec(), false);
    assert_eq!(r, b"/path%20with/space".to_vec());

    let r = percent_encode(&b"/path%with/percent".to_vec(), false);
    assert_eq!(r, b"/path%25with/percent".to_vec());

    let r = percent_encode(&"/日本語/ファイル名".as_bytes().to_vec(), false);
    assert_eq!(
        r,
        b"/%E6%97%A5%E6%9C%AC%E8%AA%9E/%E3%83%95%E3%82%A1%E3%82%A4%E3%83%AB%E5%90%8D".to_vec()
    );
}

#[test]
fn encode_keeps_safe_bytes() {
    let r = percent_encode(&b"/abc/DEF-123_~.!".to_vec(), false);
    assert_eq!(r, b"/abc/DEF-123_~.!".to_vec());
}

#[test]
fn query_escapes_slash_path_does_not() {
    let r = percent_encode(&b"a/b".to_vec(), false);
    assert_eq!(r, b"a/b".to_vec());
    let r = percent_encode(&b"a/b".to_vec(), true);
    assert_eq!(r, b"a%2Fb".to_vec());
}

#[test]
fn round_trip_decode_of_encode() {
    let samples: Vec<Vec<u8>> = vec![
        b"/path with/space".to_vec(),
        b"/path%with/percent".to_vec(),
        "/日本語/ファイル名".as_bytes().to_vec(),
        b"".to_vec(),
        b"plus+and?query#frag".to_vec(),
        (0u8..=255).collect(),
    ];
    for s in samples {
        let encoded = percent_encode(&s, false);
        assert_eq!(percent_decode(&encoded), s);
        let encoded = percent_encode(&s, true);
        assert_eq!(percent_decode(&encoded), s);
    }
}

#[test]
fn decode_handles_plain_and_escaped() {
    assert_eq!(percent_decode(&b"abc".to_vec()), b"abc".to_vec());
    assert_eq!(percent_decode(&b"a%20b".to_vec()), b"a b".to_vec());
    assert_eq!(percent_decode(&b"a%2fb".to_vec()), b"a/b".to_vec());
    // A stray percent without two hex digits passes through.
    assert_eq!(percent_decode(&b"a%2".to_vec()), b"a%2".to_vec());
    assert_eq!(percent_decode(&b"%zz".to_vec()), b"%zz".to_vec());
}
