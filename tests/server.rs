use bytes::BytesMut;
use wireroute::body::Body;
use wireroute::common::{Dir, Redirect};
use wireroute::connection::{conn_id, not_found_response, timeout_response, token_id, ConnState, Connection, Step};
use wireroute::error::{ErrorEnum, TransportKind};
use wireroute::http_codec::{Http, Request, Response};
use wireroute::router::Router;
use wireroute::upgrade::{WsUpgradeError, WsUpgrader};

fn request(text: &[u8]) -> Request {
    let mut buf = BytesMut::from(text);
    Http::new().decode(&mut buf).unwrap().unwrap()
}

#[test]
fn accept_key_matches_reference() {
    let accept = WsUpgrader::accept_key(b"dGhlIHNhbXBsZSBub25jZQ==");
    assert_eq!(accept, "s3pPLMBiTxaQ9kYGzzhZRbK+xOo=");
}

#[test]
fn handshake_answers_with_switching_protocols() {
    let req = request(
        b"GET /chat HTTP/1.1\r\nUpgrade: websocket\r\nConnection: Upgrade\r\nSec-WebSocket-Key: dGhlIHNhbXBsZSBub25jZQ==\r\n\r\n",
    );
    let resp = WsUpgrader::handshake(&req).unwrap();
    let mut out = BytesMut::new();
    Http::new().encode(resp, &mut out).unwrap();
    assert_eq!(
        &out[..],
        &b"HTTP/1.1 101 Switching Protocols\r\nupgrade: websocket\r\nconnection: Upgrade\r\nsec-websocket-accept: s3pPLMBiTxaQ9kYGzzhZRbK+xOo=\r\n\r\n"[..]
    );
}

#[test]
fn handshake_without_key_is_refused() {
    let req = request(b"GET /chat HTTP/1.1\r\nUpgrade: websocket\r\nConnection: Upgrade\r\n\r\n");
    let resp = WsUpgrader::handshake(&req).unwrap_err();
    assert_eq!(resp.status, 401);
    assert_eq!(resp.body.to_vec(), b"400 Bad Request".to_vec());
    assert_eq!(WsUpgradeError::UpgradeFailed.message(), "websocket upgrade failed");
}

fn router() -> Router<&'static str> {
    Router::new("missing")
        .get("/api/hello/:name", "hello")
        .post("/api/items", "create")
        .put("/api/items/:id", "update")
        .delete("/api/items/:id", "remove")
        .ws("/chat", "chat")
}

#[test]
fn routes_by_method_and_path() {
    let r = router();
    let (e, p) = r.route(&request(b"GET /api/hello/bob?x=1 HTTP/1.1\r\n\r\n"));
    assert_eq!(*e, "hello");
    assert_eq!(p.get("name"), Some("bob"));
    let (e, _) = r.route(&request(b"POST /api/items HTTP/1.1\r\n\r\n"));
    assert_eq!(*e, "create");
    let (e, p) = r.route(&request(b"PUT /api/items/3 HTTP/1.1\r\n\r\n"));
    assert_eq!(*e, "update");
    assert_eq!(p.get("id"), Some("3"));
    let (e, _) = r.route(&request(b"DELETE /api/items/3 HTTP/1.1\r\n\r\n"));
    assert_eq!(*e, "remove");
}

#[test]
fn unmatched_goes_to_not_found() {
    let r = router();
    let (e, p) = r.route(&request(b"GET /nothing HTTP/1.1\r\n\r\n"));
    assert_eq!(*e, "missing");
    assert_eq!(p.len(), 0);
    let (e, _) = r.route(&request(b"PATCH /api/items/3 HTTP/1.1\r\n\r\n"));
    assert_eq!(*e, "missing");
    let r = r.not_found("gone");
    let (e, _) = r.route(&request(b"GET /chat HTTP/1.1\r\n\r\n"));
    assert_eq!(*e, "gone");
}

#[test]
fn upgrade_header_selects_websocket_routes() {
    let r = router();
    let (e, _) = r.route(&request(b"GET /chat HTTP/1.1\r\nUpgrade: websocket\r\n\r\n"));
    assert_eq!(*e, "chat");
}

#[test]
fn keep_alive_allows_a_second_request() {
    let mut conn = Connection::new();
    conn.buf.extend_from_slice(b"GET /a HTTP/1.1\r\n\r\n");
    let req = match conn.on_read(19) {
        Step::Dispatch(req) => req,
        other => panic!("unexpected {:?}", other),
    };
    assert_eq!(req.path, "/a");
    let resp = Response::new(200, Body::from_text("ok"));
    assert!(conn.on_response(&req, &resp));
    assert_eq!(conn.state, ConnState::AwaitingRequest);
    conn.buf.extend_from_slice(b"GET /b HTTP/1.1\r\n");
    assert!(matches!(conn.on_read(17), Step::ReadMore));
    conn.buf.extend_from_slice(b"\r\n");
    match conn.on_read(2) {
        Step::Dispatch(req) => assert_eq!(req.path, "/b"),
        other => panic!("unexpected {:?}", other),
    }
}

#[test]
fn connection_close_ends_the_loop() {
    let mut conn = Connection::new();
    conn.buf.extend_from_slice(b"GET /a HTTP/1.1\r\n\r\n");
    let req = match conn.on_read(19) {
        Step::Dispatch(req) => req,
        other => panic!("unexpected {:?}", other),
    };
    let resp = Response::new(200, Body::empty()).header("Connection", "close");
    assert!(!conn.on_response(&req, &resp));
    assert_eq!(conn.state, ConnState::Closed);
}

#[test]
fn request_asking_close_ends_the_loop() {
    let mut conn = Connection::new();
    conn.buf.extend_from_slice(b"GET /a HTTP/1.1\r\nconnection: close\r\n\r\n");
    let req = match conn.on_read(5) {
        Step::Dispatch(req) => req,
        other => panic!("unexpected {:?}", other),
    };
    assert!(!conn.on_response(&req, &Response::new(204, Body::empty())));
}

#[test]
fn peer_close_and_garbage() {
    let mut conn = Connection::new();
    assert!(matches!(conn.on_read(0), Step::Finish));
    assert_eq!(conn.state, ConnState::Closed);
    let mut conn = Connection::new();
    conn.buf.extend_from_slice(b"GET / HTTP/2.0\r\n\r\n");
    assert!(matches!(conn.on_read(4), Step::Fail));
    let mut conn = Connection::new();
    conn.on_session_end();
    assert_eq!(conn.state, ConnState::Closed);
}

#[test]
fn default_responses() {
    let mut out = BytesMut::new();
    Http::new().encode(not_found_response(), &mut out).unwrap();
    assert_eq!(
        &out[..],
        &b"HTTP/1.1 404 Not Found\r\ncontent-length: 13\r\nContent-Type: text/html\r\n\r\n404 Not Found"[..]
    );
    let mut out = BytesMut::new();
    Http::new().encode(timeout_response(), &mut out).unwrap();
    assert_eq!(&out[..], &b"HTTP/1.1 408 Request Timeout\r\n\r\n"[..]);
}

#[test]
fn error_classes() {
    assert!(ErrorEnum::Transport(TransportKind::ConnectionReset).is_disconnect());
    assert!(!ErrorEnum::Transport(TransportKind::ConnectionReset).wants_error_response());
    assert!(ErrorEnum::Transport(TransportKind::Other).wants_error_response());
    assert!(ErrorEnum::Handler.wants_error_response());
    assert!(!ErrorEnum::Decode.wants_error_response());
    assert!(!ErrorEnum::Upgrade(WsUpgradeError::UpgradeFailed).wants_error_response());
}

#[test]
fn endpoints_and_tokens() {
    let d = Dir::new("/srv");
    assert_eq!(d.path, "/srv");
    assert_eq!(d.respond().status, 200);
    assert_eq!(Redirect::to("/home").path, "/home");
    assert_eq!(token_id(4), 5);
    assert_eq!(conn_id(5), 4);
}
