//! HTTP/1.1: request heads parsed from a buffer, responses written to one.

use crate::body::{body_bytes, Body};
use crate::buffer::{buffer_bytes, buffer_slice, copy_bytes};
use bytes::BytesMut;
use vstd::prelude::*;
use vstd::string::StringSliceAdditionalSpecFns;
use vstd::utf8::encode_utf8;

verus! {

/// One header line: its name and its raw value.
#[derive(Debug)]
pub struct Header {
    pub name: String,
    pub value: Vec<u8>,
}

pub open spec fn headers_view(hs: Seq<Header>) -> Seq<(Seq<char>, Seq<u8>)> {
    hs.map_values(|h: Header| (h.name@, h.value@))
}

/// A request head as the parser found it: method, path, minor version,
/// headers, and the length of the head in bytes.
pub type HeadView = (Seq<char>, Seq<char>, u8, Seq<(Seq<char>, Seq<u8>)>, nat);

/// What httparse makes of a buffer: `None` for malformed input,
/// `Some(None)` while the head is incomplete, else the head.
pub uninterp spec fn request_head(buf: Seq<u8>) -> Option<Option<HeadView>>;

pub struct RequestHead {
    pub method: String,
    pub path: String,
    pub version: u8,
    pub headers: Vec<Header>,
    pub len: usize,
}

pub enum HeadParse {
    Invalid,
    Partial,
    Complete(RequestHead),
}

impl View for HeadParse {
    type V = Option<Option<HeadView>>;

    open spec fn view(&self) -> Option<Option<HeadView>> {
        match self {
            HeadParse::Invalid => None,
            HeadParse::Partial => Some(None),
            HeadParse::Complete(h) => Some(
                Some((h.method@, h.path@, h.version, headers_view(h.headers@), h.len as nat)),
            ),
        }
    }
}

/// Relies on httparse's `Request::parse`, with room for 32 headers: it
/// reports a complete head with its length in bytes, an incomplete one, or
/// an error; a complete head has its method, path and version set.
#[verifier::external_body]
fn parse_head(buf: &[u8]) -> (r: HeadParse)
    ensures
        r@ == request_head(buf@),
        r matches HeadParse::Complete(h) ==> h.len <= buf@.len(),
{
    let mut parsed = [httparse::EMPTY_HEADER; 32];
    let mut req = httparse::Request::new(&mut parsed);
    match req.parse(buf) {
        Ok(httparse::Status::Complete(len)) => HeadParse::Complete(RequestHead {
            method: req.method.unwrap_or_default().to_string(),
            path: req.path.unwrap_or_default().to_string(),
            version: req.version.unwrap_or_default(),
            headers: req.headers.iter().map(|h| Header { name: h.name.to_string(), value: h.value.to_vec() }).collect(),
            len,
        }),
        Ok(httparse::Status::Partial) => HeadParse::Partial,
        Err(_) => HeadParse::Invalid,
    }
}

/// An HTTP request.
#[derive(Debug)]
pub struct Request {
    pub method: String,
    pub path: String,
    pub headers: Vec<Header>,
    pub body: Body,
}

/// What a request is: method, path, headers and body.
pub struct RequestView {
    pub method: Seq<char>,
    pub path: Seq<char>,
    pub headers: Seq<(Seq<char>, Seq<u8>)>,
    pub body: Option<Seq<u8>>,
}

impl View for Request {
    type V = RequestView;

    open spec fn view(&self) -> RequestView {
        RequestView {
            method: self.method@,
            path: self.path@,
            headers: headers_view(self.headers@),
            body: self.body@,
        }
    }
}

/// The body of a request: the bytes after the head, if there are any.
pub open spec fn trailing_body(rest: Seq<u8>) -> Option<Seq<u8>> {
    if rest.len() == 0 {
        None
    } else {
        Some(rest)
    }
}

/// What decoding makes of the buffered bytes `b`: `Ok(None)` while they
/// are empty or hold an incomplete head; an error for a head that httparse
/// refuses or whose version is not 1.1; else the request, whose body is
/// what follows the head.
pub open spec fn decode_request(b: Seq<u8>) -> Result<Option<RequestView>, ()> {
    if b.len() == 0 {
        Ok(None)
    } else {
        match request_head(b) {
            None => Err(()),
            Some(None) => Ok(None),
            Some(Some(h)) => if h.2 != 1 {
                Err(())
            } else {
                Ok(
                    Some(
                        RequestView {
                            method: h.0,
                            path: h.1,
                            headers: h.3,
                            body: trailing_body(b.skip(h.4 as int)),
                        },
                    ),
                )
            },
        }
    }
}

/// The HTTP/1.1 codec.
pub struct Http {}

impl Http {
    pub fn new() -> (r: Self) {
        Http {}
    }

    /// Decodes one request from `src`. An empty or incomplete buffer gives
    /// `Ok(None)`; a head that httparse refuses, or one of another version
    /// than 1.1, is an error; both leave the buffer as it was. A request
    /// takes the whole buffer: the bytes after its head are its body.
    pub fn decode(&mut self, src: &mut BytesMut) -> (r: Result<Option<Request>, ()>)
        ensures
            match decode_request(buffer_bytes(*old(src))) {
                Ok(None) => r == Ok::<Option<Request>, ()>(None) && buffer_bytes(*final(src))
                    == buffer_bytes(*old(src)),
                Err(()) => r == Err::<Option<Request>, ()>(()) && buffer_bytes(*final(src))
                    == buffer_bytes(*old(src)),
                Ok(Some(v)) => (r matches Ok(Some(req)) && req@ == v) && buffer_bytes(*final(src))
                    == Seq::<u8>::empty(),
            },
    {
        let b = buffer_slice(src);
        if b.len() == 0 {
            return Ok(None);
        }
        let head = match parse_head(b) {
            HeadParse::Invalid => return Err(()),
            HeadParse::Partial => return Ok(None),
            HeadParse::Complete(h) => h,
        };
        if head.version != 1 {
            return Err(());
        }
        let RequestHead { method, path, version, headers, len } = head;
        let _ = src.split_to(len);
        let rest = buffer_slice(src);
        let body = if rest.len() == 0 {
            Body::empty()
        } else {
            Body::from_vec(copy_bytes(rest))
        };
        src.clear();
        Ok(Some(Request { method, path, headers, body }))
    }
}


/// An HTTP response.
#[derive(Debug)]
pub struct Response {
    pub status: u16,
    pub headers: Vec<Header>,
    pub body: Body,
}

/// What a response is: status code, headers and body.
pub struct ResponseView {
    pub status: u16,
    pub headers: Seq<(Seq<char>, Seq<u8>)>,
    pub body: Option<Seq<u8>>,
}

impl View for Response {
    type V = ResponseView;

    open spec fn view(&self) -> ResponseView {
        ResponseView { status: self.status, headers: headers_view(self.headers@), body: self.body@ }
    }
}

impl Response {
    /// A response with the given status code, no headers and `body`.
    pub fn new(status: u16, body: Body) -> (r: Self)
        requires
            100 <= status <= 999,
        ensures
            r@ == (ResponseView { status, headers: Seq::empty(), body: body@ }),
    {
        let r = Response { status, headers: Vec::new(), body };
        assert(headers_view(r.headers@) =~= Seq::<(Seq<char>, Seq<u8>)>::empty());
        r
    }

    /// Adds a header line after the existing ones.
    pub fn header(self, name: &str, value: &str) -> (r: Self)
        ensures
            r@ == (ResponseView {
                status: self@.status,
                headers: self@.headers.push((name@, value.spec_bytes())),
                body: self@.body,
            }),
    {
        let Response { status, mut headers, body } = self;
        let ghost before = headers@;
        let h = Header { name: String::from_str(name), value: copy_bytes(value.as_bytes()) };
        headers.push(h);
        assert(headers_view(headers@) =~= headers_view(before).push((name@, value.spec_bytes())));
        Response { status, headers, body }
    }
}

/// What http's `StatusCode` prints for a code: the code and its reason.
pub uninterp spec fn status_display(code: u16) -> Seq<char>;

/// Relies on http's `StatusCode::from_u16`, which accepts 100 to 999, and
/// on `StatusCode`'s `Display`.
#[verifier::external_body]
fn status_text(code: u16) -> (r: String)
    requires
        100 <= code <= 999,
    ensures
        r@ == status_display(code),
{
    match http::StatusCode::from_u16(code) {
        Ok(s) => s.to_string(),
        Err(_) => String::new(),
    }
}

pub open spec fn crlf() -> Seq<u8> {
    seq![13u8, 10u8]
}

/// The decimal digits of `n`, in ASCII.
pub open spec fn decimal(n: nat) -> Seq<u8>
    decreases n,
{
    if n < 10 {
        seq![(48 + n) as u8]
    } else {
        decimal(n / 10).push((48 + n % 10) as u8)
    }
}

/// Header lines: name, `: `, value, CR LF, in order.
pub open spec fn header_lines(hs: Seq<(Seq<char>, Seq<u8>)>) -> Seq<u8>
    decreases hs.len(),
{
    if hs.len() == 0 {
        Seq::empty()
    } else {
        header_lines(hs.drop_last()) + encode_utf8(hs.last().0) + ": ".spec_bytes() + hs.last().1
            + crlf()
    }
}

/// A response on the wire: the status line, a `content-length` line when
/// there is a body, the header lines, a blank line and the body.
pub open spec fn response_bytes(r: ResponseView) -> Seq<u8> {
    "HTTP/1.1 ".spec_bytes() + encode_utf8(status_display(r.status)) + crlf() + (match r.body {
        None => Seq::empty(),
        Some(b) => "content-length: ".spec_bytes() + decimal(b.len()) + crlf(),
    }) + header_lines(r.headers) + crlf() + body_bytes(r.body)
}

/// Appends the UTF-8 bytes of `s`.
fn put_text(out: &mut Vec<u8>, s: &str)
    ensures
        final(out)@ == old(out)@ + s.spec_bytes(),
{
    put_bytes(out, s.as_bytes());
}

/// Appends `b`.
fn put_bytes(out: &mut Vec<u8>, b: &[u8])
    ensures
        final(out)@ == old(out)@ + b@,
{
    let mut i: usize = 0;
    while i < b.len()
        invariant
            i <= b@.len(),
            out@ == old(out)@ + b@.subrange(0, i as int),
        decreases b@.len() - i,
    {
        out.push(b[i]);
        assert(out@ =~= old(out)@ + b@.subrange(0, i + 1));
        i = i + 1;
    }
    assert(b@.subrange(0, b@.len() as int) =~= b@);
}

/// Appends the decimal digits of `n`.
fn put_decimal(out: &mut Vec<u8>, n: usize)
    ensures
        final(out)@ == old(out)@ + decimal(n as nat),
    decreases n,
{
    if n < 10 {
        out.push(48 + n as u8);
        assert(final(out)@ =~= old(out)@ + decimal(n as nat));
    } else {
        put_decimal(out, n / 10);
        out.push(48 + (n % 10) as u8);
        assert(final(out)@ =~= old(out)@ + decimal(n as nat));
    }
}

impl Http {
    /// Encodes `item`, appending to `dest`.
    pub fn encode(&mut self, item: Response, dest: &mut BytesMut) -> (r: Result<(), ()>)
        requires
            100 <= item.status <= 999,
        ensures
            r is Ok,
            buffer_bytes(*final(dest)) == buffer_bytes(*old(dest)) + response_bytes(item@),
    {
        let mut out: Vec<u8> = Vec::new();
        put_text(&mut out, "HTTP/1.1 ");
        let status = status_text(item.status);
        put_text(&mut out, status.as_str());
        out.push(13);
        out.push(10);
        let ghost line = out@;
        match &item.body.kind {
            crate::body::Kind::Empty => {},
            crate::body::Kind::Bytes(xs) => {
                put_text(&mut out, "content-length: ");
                put_decimal(&mut out, xs.len());
                out.push(13);
                out.push(10);
            },
        }
        let ghost len_line = match item@.body {
            None => Seq::<u8>::empty(),
            Some(b) => "content-length: ".spec_bytes() + decimal(b.len()) + crlf(),
        };
        assert(out@ =~= line + len_line);
        let ghost start = out@;
        let mut i: usize = 0;
        while i < item.headers.len()
            invariant
                i <= item.headers@.len(),
                out@ == start + header_lines(headers_view(item.headers@).subrange(0, i as int)),
            decreases item.headers@.len() - i,
        {
            let ghost prev = out@;
            let h = &item.headers[i];
            put_text(&mut out, h.name.as_str());
            put_text(&mut out, ": ");
            put_bytes(&mut out, h.value.as_slice());
            out.push(13);
            out.push(10);
            proof {
                let hs = headers_view(item.headers@).subrange(0, i + 1);
                assert(hs.drop_last() =~= headers_view(item.headers@).subrange(0, i as int));
                assert(out@ =~= start + header_lines(hs));
            }
            i = i + 1;
        }
        assert(headers_view(item.headers@).subrange(0, item.headers@.len() as int) =~= headers_view(item.headers@));
        out.push(13);
        out.push(10);
        let ghost before_body = out@;
        match &item.body.kind {
            crate::body::Kind::Empty => {},
            crate::body::Kind::Bytes(xs) => put_bytes(&mut out, xs.as_slice()),
        }
        assert(out@ =~= response_bytes(item@));
        dest.extend_from_slice(out.as_slice());
        Ok(())
    }
}


/// Two characters that are equal up to ASCII case.
pub open spec fn same_letter(a: char, b: char) -> bool {
    a == b || ('A' <= a <= 'Z' && b as u32 == a as u32 + 32) || ('A' <= b <= 'Z' && a as u32
        == b as u32 + 32)
}

/// Header names compare without regard to ASCII case.
pub open spec fn same_name(a: Seq<char>, b: Seq<char>) -> bool {
    a.len() == b.len() && forall|i: int| 0 <= i < a.len() ==> same_letter(a[i], b[i])
}

/// The value of the first header called `name`.
pub open spec fn find_header(hs: Seq<(Seq<char>, Seq<u8>)>, name: Seq<char>) -> Option<Seq<u8>>
    decreases hs.len(),
{
    if hs.len() == 0 {
        None
    } else if same_name(hs[0].0, name) {
        Some(hs[0].1)
    } else {
        find_header(hs.skip(1), name)
    }
}

/// Whether a header called `name` has exactly the value `value`.
pub open spec fn has_header_value(hs: Seq<(Seq<char>, Seq<u8>)>, name: Seq<char>, value: Seq<u8>) -> bool {
    find_header(hs, name) == Some(value)
}

fn same_letter_exec(a: char, b: char) -> (r: bool)
    ensures
        r == same_letter(a, b),
{
    let x = a as u32;
    let y = b as u32;
    x == y || (65 <= x && x <= 90 && y == x + 32) || (65 <= y && y <= 90 && x == y + 32)
}

fn same_name_exec(a: &str, b: &str) -> (r: bool)
    ensures
        r == same_name(a@, b@),
{
    let n = a.unicode_len();
    if n != b.unicode_len() {
        return false;
    }
    let mut i: usize = 0;
    while i < n
        invariant
            n == a@.len() && n == b@.len(),
            i <= n,
            forall|j: int| 0 <= j < i ==> same_letter(a@[j], b@[j]),
        decreases n - i,
    {
        if !same_letter_exec(a.get_char(i), b.get_char(i)) {
            return false;
        }
        i = i + 1;
    }
    true
}

/// The value of the first header called `name`, whatever the case of
/// the letters.
pub fn header_value<'a>(headers: &'a [Header], name: &str) -> (r: Option<&'a [u8]>)
    ensures
        match find_header(headers_view(headers@), name@) {
            None => r is None,
            Some(v) => r matches Some(x) && x@ == v,
        },
{
    let ghost hs = headers_view(headers@);
    let mut i: usize = 0;
    assert(hs.skip(0) =~= hs);
    while i < headers.len()
        invariant
            hs == headers_view(headers@),
            i <= headers@.len(),
            find_header(hs, name@) == find_header(hs.skip(i as int), name@),
        decreases headers@.len() - i,
    {
        assert(hs.skip(i as int).skip(1) =~= hs.skip(i + 1));
        if same_name_exec(headers[i].name.as_str(), name) {
            return Some(headers[i].value.as_slice());
        }
        i = i + 1;
    }
    None
}

/// Whether two byte strings are equal.
pub fn bytes_eq(a: &[u8], b: &[u8]) -> (r: bool)
    ensures
        r == (a@ == b@),
{
    if a.len() != b.len() {
        return false;
    }
    let mut i: usize = 0;
    while i < a.len()
        invariant
            a@.len() == b@.len(),
            i <= a@.len(),
            forall|j: int| 0 <= j < i ==> a@[j] == b@[j],
        decreases a@.len() - i,
    {
        if a[i] != b[i] {
            return false;
        }
        i = i + 1;
    }
    assert(a@ =~= b@);
    true
}

/// Whether the first header called `name` has exactly the value `value`.
pub fn has_header(headers: &[Header], name: &str, value: &str) -> (r: bool)
    ensures
        r == has_header_value(headers_view(headers@), name@, value.spec_bytes()),
{
    match header_value(headers, name) {
        None => false,
        Some(v) => bytes_eq(v, value.as_bytes()),
    }
}

} // verus!
