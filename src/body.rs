//! The body of a request or a response.

use crate::buffer::buffer_bytes;
use bytes::BytesMut;
use vstd::prelude::*;
use vstd::string::StringSliceAdditionalSpecFns;

verus! {

/// What a body holds: nothing, or bytes that it owns.
#[derive(Debug)]
pub enum Kind {
    Empty,
    Bytes(Vec<u8>),
}

#[derive(Debug)]
pub struct Body {
    pub kind: Kind,
}

impl View for Body {
    /// `None` for an empty body, else the owned bytes.
    type V = Option<Seq<u8>>;

    open spec fn view(&self) -> Option<Seq<u8>> {
        match &self.kind {
            Kind::Empty => None,
            Kind::Bytes(xs) => Some(xs@),
        }
    }
}

/// The bytes of a body, empty for an empty body.
pub open spec fn body_bytes(b: Option<Seq<u8>>) -> Seq<u8> {
    match b {
        None => Seq::empty(),
        Some(xs) => xs,
    }
}

/// Appends `xs` to the buffer.
pub fn put_slice(dest: &mut BytesMut, xs: &[u8])
    ensures
        buffer_bytes(*final(dest)) == buffer_bytes(*old(dest)) + xs@,
{
    dest.extend_from_slice(xs);
}

impl Body {
    pub fn empty() -> (r: Self)
        ensures
            r@ == None::<Seq<u8>>,
    {
        Body { kind: Kind::Empty }
    }

    /// A body that owns a copy of what the buffer holds.
    pub fn from(bytes: &BytesMut) -> (r: Self)
        ensures
            r@ == Some(buffer_bytes(*bytes)),
    {
        let s = crate::buffer::buffer_slice(bytes);
        Body { kind: Kind::Bytes(crate::buffer::copy_bytes(s)) }
    }

    pub fn from_vec(xs: Vec<u8>) -> (r: Self)
        ensures
            r@ == Some(xs@),
    {
        Body { kind: Kind::Bytes(xs) }
    }

    /// A body holding the bytes of a text.
    pub fn from_text(s: &str) -> (r: Self)
        ensures
            r@ == Some(s.spec_bytes()),
    {
        let b = s.as_bytes();
        Body { kind: Kind::Bytes(crate::buffer::copy_bytes(b)) }
    }

    /// Appends the body's bytes to `dest`.
    pub fn as_bytes(&self, dest: &mut BytesMut)
        ensures
            buffer_bytes(*final(dest)) == buffer_bytes(*old(dest)) + body_bytes(self@),
    {
        match &self.kind {
            Kind::Empty => {
                assert(buffer_bytes(*old(dest)) + body_bytes(self@) =~= buffer_bytes(*old(dest)));
            },
            Kind::Bytes(xs) => put_slice(dest, xs.as_slice()),
        }
    }

    pub fn len(&self) -> (r: usize)
        ensures
            r == body_bytes(self@).len(),
    {
        match &self.kind {
            Kind::Empty => 0,
            Kind::Bytes(xs) => xs.len(),
        }
    }

    /// Appends the body's bytes to `dest` and returns how many there were.
    pub fn bytes(&self, dest: &mut BytesMut) -> (r: usize)
        ensures
            buffer_bytes(*final(dest)) == buffer_bytes(*old(dest)) + body_bytes(self@),
            r == body_bytes(self@).len(),
    {
        self.as_bytes(dest);
        self.len()
    }

    /// A copy of the body's bytes.
    pub fn to_vec(&self) -> (r: Vec<u8>)
        ensures
            r@ == body_bytes(self@),
    {
        match &self.kind {
            Kind::Empty => Vec::new(),
            Kind::Bytes(xs) => xs.clone(),
        }
    }
}

} // verus!
