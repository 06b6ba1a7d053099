use bytes::BytesMut;
use wireroute::body::Body;
use wireroute::http_codec::{header_value, Http, Response};

#[test]
fn decode_complete_request_with_body() {
    let mut buf = BytesMut::from(&b"POST /items?x=1 HTTP/1.1\r\nHost: a\r\nX-Two: b\r\n\r\nhello"[..]);
    let req = Http::new().decode(&mut buf).unwrap().unwrap();
    assert_eq!(req.method, "POST");
    assert_eq!(req.path, "/items?x=1");
    assert_eq!(req.headers.len(), 2);
    assert_eq!(req.headers[0].name, "Host");
    assert_eq!(req.headers[1].value, b"b".to_vec());
    assert_eq!(req.body.to_vec(), b"hello".to_vec());
    assert_eq!(buf.len(), 0);
}

#[test]
fn decode_request_without_body() {
    let mut buf = BytesMut::from(&b"GET / HTTP/1.1\r\n\r\n"[..]);
    let req = Http::new().decode(&mut buf).unwrap().unwrap();
    assert_eq!(req.body.len(), 0);
}

#[test]
fn incomplete_head_needs_more() {
    let mut buf = BytesMut::from(&b"GET / HTTP/1.1\r\nHost: a\r\n"[..]);
    assert!(Http::new().decode(&mut buf).unwrap().is_none());
    assert_eq!(buf.len(), 25);
    let mut empty = BytesMut::new();
    assert!(Http::new().decode(&mut empty).unwrap().is_none());
}

#[test]
fn other_versions_are_refused() {
    let mut buf = BytesMut::from(&b"GET / HTTP/1.0\r\n\r\n"[..]);
    assert!(Http::new().decode(&mut buf).is_err());
}

#[test]
fn malformed_head_is_an_error() {
    let mut buf = BytesMut::from(&b"GET / HTTP/1.1\r\nbad header line\r\n\r\n"[..]);
    assert!(Http::new().decode(&mut buf).is_err());
}

#[test]
fn encode_response_with_body() {
    let resp = Response::new(200, Body::from_text("hi")).header("X-A", "1");
    let mut out = BytesMut::new();
    Http::new().encode(resp, &mut out).unwrap();
    assert_eq!(&out[..], &b"HTTP/1.1 200 OK\r\ncontent-length: 2\r\nX-A: 1\r\n\r\nhi"[..]);
}

#[test]
fn encode_response_without_body() {
    let resp = Response::new(404, Body::empty()).header("A", "b").header("C", "d");
    let mut out = BytesMut::from(&b"xx"[..]);
    Http::new().encode(resp, &mut out).unwrap();
    assert_eq!(&out[..], &b"xxHTTP/1.1 404 Not Found\r\nA: b\r\nC: d\r\n\r\n"[..]);
}

#[test]
fn content_length_counts_digits() {
    let resp = Response::new(201, Body::from_vec(vec![7u8; 1234]));
    let mut out = BytesMut::new();
    Http::new().encode(resp, &mut out).unwrap();
    assert!(out.starts_with(b"HTTP/1.1 201 Created\r\ncontent-length: 1234\r\n\r\n"));
    assert_eq!(out.len(), 46 + 1234);
}

#[test]
fn header_names_ignore_case() {
    let mut buf = BytesMut::from(&b"GET / HTTP/1.1\r\nCONNECTION: close\r\n\r\n"[..]);
    let req = Http::new().decode(&mut buf).unwrap().unwrap();
    assert_eq!(header_value(&req.headers, "connection"), Some(&b"close"[..]));
    assert_eq!(header_value(&req.headers, "upgrade"), None);
}

#[test]
fn body_appends_its_bytes() {
    let mut out = BytesMut::new();
    assert_eq!(Body::from_text("abc").bytes(&mut out), 3);
    assert_eq!(Body::empty().bytes(&mut out), 0);
    assert_eq!(&out[..], b"abc");
    let b = Body::from(&out);
    assert_eq!(b.len(), 3);
}
