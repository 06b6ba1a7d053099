//! The growable byte buffer that the codecs read from and append to.

use bytes::BytesMut;
use vstd::prelude::*;

verus! {

#[verifier::external_type_specification]
#[verifier::external_body]
pub struct ExBytesMut(BytesMut);

/// The bytes that a buffer holds, front to back.
pub uninterp spec fn buffer_bytes(b: BytesMut) -> Seq<u8>;

/// Relies on `BytesMut::new`: a new buffer is empty.
pub assume_specification[ BytesMut::new ]() -> (r: BytesMut)
    ensures
        buffer_bytes(r) == Seq::<u8>::empty(),
;

/// Relies on `BytesMut::clear`: every byte is removed.
pub assume_specification[ BytesMut::clear ](b: &mut BytesMut)
    ensures
        buffer_bytes(*final(b)) == Seq::<u8>::empty(),
;

/// Relies on `BytesMut::extend_from_slice`: the slice is appended at the back.
pub assume_specification[ BytesMut::extend_from_slice ](b: &mut BytesMut, extend: &[u8])
    ensures
        buffer_bytes(*final(b)) == buffer_bytes(*old(b)) + extend@,
;

/// Relies on `BytesMut::split_to`: the first `at` bytes move to the returned
/// buffer and the rest stay. It panics when `at` exceeds the length.
pub assume_specification[ BytesMut::split_to ](b: &mut BytesMut, at: usize) -> (r: BytesMut)
    requires
        at <= buffer_bytes(*old(b)).len(),
    ensures
        buffer_bytes(r) == buffer_bytes(*old(b)).subrange(0, at as int),
        buffer_bytes(*final(b)) == buffer_bytes(*old(b)).subrange(at as int, buffer_bytes(*old(b)).len() as int),
;

/// Relies on `BytesMut`'s dereference to `[u8]`: the slice shows the bytes held.
#[verifier::external_body]
pub fn buffer_slice(b: &BytesMut) -> (r: &[u8])
    ensures
        r@ == buffer_bytes(*b),
{
    &b[..]
}

/// A vector holding a copy of the slice.
pub fn copy_bytes(xs: &[u8]) -> (r: Vec<u8>)
    ensures
        r@ == xs@,
{
    let mut r: Vec<u8> = Vec::with_capacity(xs.len());
    let mut i: usize = 0;
    while i < xs.len()
        invariant
            i <= xs@.len(),
            r@ == xs@.subrange(0, i as int),
        decreases xs@.len() - i,
    {
        r.push(xs[i]);
        i = i + 1;
    }
    assert(r@ =~= xs@);
    r
}

} // verus!
