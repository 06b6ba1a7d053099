//! The HTTP to WebSocket upgrade handshake.

use crate::body::Body;
use crate::http_codec::{find_header, header_value, Request, Response, ResponseView};
use sha::sha1::Sha1;
use sha::utils::{Digest, DigestExt};
use vstd::prelude::*;
use vstd::string::StringSliceAdditionalSpecFns;
use vstd::utf8::encode_utf8;

verus! {

/// The GUID that RFC 6455 appends to the client's key.
pub const WS_KEY: &'static str = "258EAFA5-E914-47DA-95CA-C5AB0DC85B11";

/// The SHA-1 digest of a byte string.
pub uninterp spec fn sha1_of(b: Seq<u8>) -> Seq<u8>;

/// The standard base64 alphabet.
pub open spec fn b64(v: int) -> char {
    "ABCDEFGHIJKLMNOPQRSTUVWXYZabcdefghijklmnopqrstuvwxyz0123456789+/"@[v]
}

/// The standard base64 text of a byte string, padded with `=`: each group of
/// three bytes gives four characters of six bits each.
pub open spec fn base64_of(b: Seq<u8>) -> Seq<char>
    decreases b.len(),
{
    if b.len() == 0 {
        Seq::empty()
    } else if b.len() == 1 {
        let x = b[0] as int;
        seq![b64(x / 4), b64((x % 4) * 16), '=', '=']
    } else if b.len() == 2 {
        let x = b[0] as int;
        let y = b[1] as int;
        seq![b64(x / 4), b64((x % 4) * 16 + y / 16), b64((y % 16) * 4), '=']
    } else {
        let x = b[0] as int;
        let y = b[1] as int;
        let z = b[2] as int;
        seq![b64(x / 4), b64((x % 4) * 16 + y / 16), b64((y % 16) * 4 + z / 64), b64(z % 64)]
            + base64_of(b.skip(3))
    }
}

/// Relies on the sha crate's `Sha1` with `Digest::digest` and
/// `DigestExt::to_bytes`: the 20-byte digest of the message.
#[verifier::external_body]
fn sha1_digest(msg: &[u8]) -> (r: Vec<u8>)
    ensures
        r@ == sha1_of(msg@),
        r@.len() == 20,
{
    Sha1::default().digest(msg).to_bytes()
}

/// Relies on base64's `encode`, which uses the standard alphabet with
/// padding.
#[verifier::external_body]
fn base64_encode(b: &[u8]) -> (r: String)
    ensures
        r@ == base64_of(b@),
{
    base64::encode(b)
}

/// The `Sec-WebSocket-Accept` value for a client's `Sec-WebSocket-Key`.
pub open spec fn accept_value(key: Seq<u8>) -> Seq<char> {
    base64_of(sha1_of(key + WS_KEY.spec_bytes()))
}

/// Why an upgrade failed.
#[derive(Debug, Clone, Copy, PartialEq, Eq, Structural)]
pub enum WsUpgradeError {
    UpgradeFailed,
}

impl WsUpgradeError {
    pub fn message(&self) -> (r: &'static str) {
        match self {
            WsUpgradeError::UpgradeFailed => "websocket upgrade failed",
        }
    }
}

/// The 101 response that accepts an upgrade, with the accept value.
pub open spec fn switching_view(accept: Seq<char>) -> ResponseView {
    ResponseView {
        status: 101,
        headers: seq![
            ("upgrade"@, "websocket".spec_bytes()),
            ("connection"@, "Upgrade".spec_bytes()),
            ("sec-websocket-accept"@, encode_utf8(accept)),
        ],
        body: None,
    }
}

/// The 401 response that refuses an upgrade.
pub open spec fn refusal_view() -> ResponseView {
    ResponseView {
        status: 401,
        headers: seq![("content-type"@, "text/plain".spec_bytes())],
        body: Some("400 Bad Request".spec_bytes()),
    }
}

/// Whether a request carries what an upgrade needs.
pub open spec fn upgradable(req: crate::http_codec::RequestView) -> bool {
    find_header(req.headers, "connection"@).is_some() && find_header(
        req.headers,
        "sec-websocket-key"@,
    ).is_some()
}

pub struct WsUpgrader;

impl WsUpgrader {
    /// The accept value: the key and the GUID, digested and base64-encoded.
    pub fn accept_key(key: &[u8]) -> (r: String)
        ensures
            r@ == accept_value(key@),
    {
        let mut input: Vec<u8> = crate::buffer::copy_bytes(key);
        let ghost k = input@;
        let guid = WS_KEY.as_bytes();
        let mut i: usize = 0;
        while i < guid.len()
            invariant
                i <= guid@.len(),
                input@ == k + guid@.subrange(0, i as int),
            decreases guid@.len() - i,
        {
            input.push(guid[i]);
            assert(input@ =~= k + guid@.subrange(0, i + 1));
            i = i + 1;
        }
        assert(guid@.subrange(0, guid@.len() as int) =~= guid@);
        let digest = sha1_digest(input.as_slice());
        base64_encode(digest.as_slice())
    }

    /// The response that accepts an upgrade with the given accept value.
    pub fn switching_protocols(accept: &str) -> (r: Response)
        ensures
            r@ == switching_view(accept@),
    {
        let r = Response::new(101, Body::empty()).header("upgrade", "websocket").header(
            "connection",
            "Upgrade",
        ).header("sec-websocket-accept", accept);
        assert(r@.headers =~= switching_view(accept@).headers);
        r
    }

    /// The response that refuses an upgrade.
    pub fn refusal() -> (r: Response)
        ensures
            r@ == refusal_view(),
    {
        Response::new(401, Body::from_text("400 Bad Request")).header("content-type", "text/plain")
    }

    /// Answers an upgrade request: the 101 response with the accept value
    /// computed from the request's key when it has both a `Connection` and a
    /// `Sec-WebSocket-Key` header, else the 401 response to send before the
    /// connection is given up.
    pub fn handshake(req: &Request) -> (r: Result<Response, Response>)
        ensures
            upgradable(req@) ==> (r matches Ok(resp) && resp@ == switching_view(
                accept_value(find_header(req@.headers, "sec-websocket-key"@).unwrap()),
            )),
            !upgradable(req@) ==> (r matches Err(resp) && resp@ == refusal_view()),
    {
        let has_connection = header_value(req.headers.as_slice(), "connection").is_some();
        let key = header_value(req.headers.as_slice(), "sec-websocket-key");
        match key {
            Some(k) if has_connection => {
                let accept = Self::accept_key(k);
                Ok(Self::switching_protocols(accept.as_str()))
            },
            _ => Err(Self::refusal()),
        }
    }
}

} // verus!
