//! The decisions of one HTTP connection: when to read more, when to
//! dispatch, and whether to keep the connection after a response.

use crate::body::Body;
use crate::buffer::buffer_bytes;
use crate::http_codec::{
    decode_request, has_header, has_header_value, Http, Request, RequestView, Response,
    ResponseView,
};
use bytes::BytesMut;
use vstd::prelude::*;
use vstd::string::StringSliceAdditionalSpecFns;

verus! {

#[derive(Debug, Clone, Copy, PartialEq, Eq, Structural)]
pub enum ConnState {
    /// Reading bytes until a request is complete.
    AwaitingRequest,
    /// A request was handed out; its response is pending.
    Matched,
    /// The connection is over.
    Closed,
}

/// What the connection asks of its driver.
#[derive(Debug)]
pub enum Step {
    /// Read more bytes into the buffer.
    ReadMore,
    /// Route this request and answer it.
    Dispatch(Request),
    /// The peer closed between requests: stop without an error.
    Finish,
    /// The bytes are not a valid request: abort the connection.
    Fail,
}

/// Whether headers ask for the connection to close.
pub open spec fn asks_close(hs: Seq<(Seq<char>, Seq<u8>)>) -> bool {
    has_header_value(hs, "connection"@, "close".spec_bytes())
}

/// Whether the connection stays open after this exchange.
pub open spec fn keeps_alive(req: RequestView, resp: ResponseView) -> bool {
    !asks_close(req.headers) && !asks_close(resp.headers)
}

/// The state of one connection and the bytes read but not yet decoded.
pub struct Connection {
    pub buf: BytesMut,
    pub codec: Http,
    pub state: ConnState,
}

impl Connection {
    pub fn new() -> (r: Self)
        ensures
            r.state == ConnState::AwaitingRequest,
            buffer_bytes(r.buf) == Seq::<u8>::empty(),
    {
        Connection { buf: BytesMut::new(), codec: Http::new(), state: ConnState::AwaitingRequest }
    }

    /// After a read of `n` bytes into the buffer: a read of nothing ends the
    /// connection; otherwise the buffer is decoded.
    pub fn on_read(&mut self, n: usize) -> (r: Step)
        requires
            old(self).state == ConnState::AwaitingRequest,
        ensures
            n == 0 ==> (r is Finish && final(self).state == ConnState::Closed),
            n != 0 ==> match decode_request(buffer_bytes(old(self).buf)) {
                Ok(None) => {
                    &&& r is ReadMore
                    &&& final(self).state == ConnState::AwaitingRequest
                    &&& buffer_bytes(final(self).buf) == buffer_bytes(old(self).buf)
                },
                Err(()) => r is Fail && final(self).state == ConnState::Closed,
                Ok(Some(v)) => {
                    &&& r matches Step::Dispatch(req) && req@ == v
                    &&& final(self).state == ConnState::Matched
                    &&& buffer_bytes(final(self).buf) == Seq::<u8>::empty()
                },
            },
    {
        if n == 0 {
            self.state = ConnState::Closed;
            return Step::Finish;
        }
        match self.codec.decode(&mut self.buf) {
            Ok(None) => Step::ReadMore,
            Err(()) => {
                self.state = ConnState::Closed;
                Step::Fail
            },
            Ok(Some(req)) => {
                self.state = ConnState::Matched;
                Step::Dispatch(req)
            },
        }
    }

    /// After the response to `req` was written: a `Connection: close`
    /// header on either ends the connection, else it waits for the next
    /// request. Returns whether it stays open.
    pub fn on_response(&mut self, req: &Request, resp: &Response) -> (keep: bool)
        requires
            old(self).state == ConnState::Matched,
        ensures
            keep == keeps_alive(req@, resp@),
            final(self).state == if keep {
                ConnState::AwaitingRequest
            } else {
                ConnState::Closed
            },
            buffer_bytes(final(self).buf) == buffer_bytes(old(self).buf),
    {
        let close = has_header(req.headers.as_slice(), "connection", "close") || has_header(
            resp.headers.as_slice(),
            "connection",
            "close",
        );
        self.state = if close {
            ConnState::Closed
        } else {
            ConnState::AwaitingRequest
        };
        !close
    }

    /// After a WebSocket session: the connection is not kept.
    pub fn on_session_end(&mut self)
        ensures
            final(self).state == ConnState::Closed,
    {
        self.state = ConnState::Closed;
    }
}

/// The default fallback answer: 404 with a short HTML body.
pub fn not_found_response() -> (r: Response)
    ensures
        r@ == (ResponseView {
            status: 404,
            headers: seq![("Content-Type"@, "text/html".spec_bytes())],
            body: Some("404 Not Found".spec_bytes()),
        }),
{
    let r = Response::new(404, Body::from_text("404 Not Found")).header("Content-Type", "text/html");
    assert(r@.headers =~= seq![("Content-Type"@, "text/html".spec_bytes())]);
    r
}

/// The best-effort answer to a connection that failed: 408 and no body.
pub fn timeout_response() -> (r: Response)
    ensures
        r@ == (ResponseView { status: 408, headers: Seq::empty(), body: None }),
{
    Response::new(408, Body::empty())
}

/// The event-loop token of connection number `id`; token zero is the
/// listener's.
pub fn token_id(id: usize) -> (r: usize)
    requires
        id < usize::MAX,
    ensures
        r == id + 1,
{
    id + 1
}

/// The connection number of an event-loop token other than the listener's.
pub fn conn_id(id: usize) -> (r: usize)
    requires
        id >= 1,
    ensures
        r == id - 1,
{
    id - 1
}

} // verus!
