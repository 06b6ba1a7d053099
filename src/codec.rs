//! The encode and decode capabilities that the wire codecs share.

use crate::http_codec::{Http, Request, Response};
use crate::websocket::{Opcode, Ws, WsFrame};
use bytes::BytesMut;
use vstd::prelude::*;

verus! {

/// Serialises items by appending to a buffer.
pub trait Encoder<I> {
    type Error;

    fn encode(&mut self, item: I, dest: &mut BytesMut) -> Result<(), Self::Error>;
}

/// Parses one item from the front of a buffer: `Ok(None)` while more bytes
/// are needed.
pub trait Decoder {
    type Item;

    type Error;

    fn decode(&mut self, src: &mut BytesMut) -> Result<Option<Self::Item>, Self::Error>;
}

/// A codec both encodes `I` and decodes.
pub trait Codec<I>: Encoder<I> + Decoder {

}

impl Decoder for Ws {
    type Item = WsFrame;

    type Error = ();

    /// A decoder whose message in progress claims the Continuation opcode
    /// is refused.
    fn decode(&mut self, src: &mut BytesMut) -> Result<Option<WsFrame>, ()> {
        let broken = match &self.partial {
            Some(p) => matches!(p.0, Opcode::CONTINUATION),
            None => false,
        };
        if broken {
            return Err(());
        }
        Ws::decode(self, src)
    }
}

impl Encoder<WsFrame> for Ws {
    type Error = ();

    fn encode(&mut self, item: WsFrame, dest: &mut BytesMut) -> Result<(), ()> {
        Ws::encode(self, item, dest)
    }
}

impl Codec<WsFrame> for Ws {

}

impl Decoder for Http {
    type Item = Request;

    type Error = ();

    fn decode(&mut self, src: &mut BytesMut) -> Result<Option<Request>, ()> {
        Http::decode(self, src)
    }
}

impl Encoder<Response> for Http {
    type Error = ();

    /// A response whose status is not a three-digit code is refused.
    fn encode(&mut self, item: Response, dest: &mut BytesMut) -> Result<(), ()> {
        if item.status < 100 || item.status > 999 {
            return Err(());
        }
        Http::encode(self, item, dest)
    }
}

impl Codec<Response> for Http {

}

} // verus!
