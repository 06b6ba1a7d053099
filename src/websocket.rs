//! WebSocket frames: their wire layout, a decoder that reassembles
//! fragmented messages, and an encoder.

use crate::body::{body_bytes, Body};
use crate::buffer::{buffer_bytes, buffer_slice};
use bytes::BytesMut;
use rand::RngCore;
use vstd::prelude::*;

verus! {

pub const FIN: u8 = 0x80;

pub const MASK: u8 = 0x80;

/// The frame types this codec recognises.
#[derive(Debug, Clone, Copy, PartialEq, Eq, Structural)]
pub enum Opcode {
    CONTINUATION,
    TEXT,
    BINARY,
    CLOSE,
    PING,
    PONG,
}

impl Opcode {
    /// The opcode's number on the wire.
    pub open spec fn spec_value(self) -> u8 {
        match self {
            Opcode::CONTINUATION => 0x0,
            Opcode::TEXT => 0x1,
            Opcode::BINARY => 0x2,
            Opcode::CLOSE => 0x8,
            Opcode::PING => 0x9,
            Opcode::PONG => 0xA,
        }
    }

    /// The opcode with wire number `v`, if there is one.
    pub open spec fn spec_from(v: u8) -> Option<Opcode> {
        if v == 0x0 {
            Some(Opcode::CONTINUATION)
        } else if v == 0x1 {
            Some(Opcode::TEXT)
        } else if v == 0x2 {
            Some(Opcode::BINARY)
        } else if v == 0x8 {
            Some(Opcode::CLOSE)
        } else if v == 0x9 {
            Some(Opcode::PING)
        } else if v == 0xA {
            Some(Opcode::PONG)
        } else {
            None
        }
    }

    pub fn value(&self) -> (r: u8)
        ensures
            r == self.spec_value(),
    {
        match self {
            Opcode::CONTINUATION => 0x0,
            Opcode::TEXT => 0x1,
            Opcode::BINARY => 0x2,
            Opcode::CLOSE => 0x8,
            Opcode::PING => 0x9,
            Opcode::PONG => 0xA,
        }
    }

    pub fn from_u8(v: u8) -> (r: Option<Opcode>)
        ensures
            r == Opcode::spec_from(v),
    {
        if v == 0x0 {
            Some(Opcode::CONTINUATION)
        } else if v == 0x1 {
            Some(Opcode::TEXT)
        } else if v == 0x2 {
            Some(Opcode::BINARY)
        } else if v == 0x8 {
            Some(Opcode::CLOSE)
        } else if v == 0x9 {
            Some(Opcode::PING)
        } else if v == 0xA {
            Some(Opcode::PONG)
        } else {
            None
        }
    }
}

/// A complete WebSocket message.
#[derive(Debug)]
pub struct WsFrame {
    pub opcode: Opcode,
    pub masked: bool,
    pub data: Vec<u8>,
}

/// What a frame is: its opcode, whether it was masked, and its payload.
pub struct FrameView {
    pub opcode: Opcode,
    pub masked: bool,
    pub data: Seq<u8>,
}

impl View for WsFrame {
    type V = FrameView;

    open spec fn view(&self) -> FrameView {
        FrameView { opcode: self.opcode, masked: self.masked, data: self.data@ }
    }
}

impl WsFrame {
    pub fn builder() -> (r: WsFrameBuilder)
        ensures
            !r.masked,
    {
        WsFrameBuilder::new()
    }

    pub fn opcode(&self) -> (r: &Opcode)
        ensures
            *r == self.opcode,
    {
        &self.opcode
    }

    pub fn masked(&self) -> (r: bool)
        ensures
            r == self.masked,
    {
        self.masked
    }

    pub fn len(&self) -> (r: usize)
        ensures
            r == self.data@.len(),
    {
        self.data.len()
    }

    pub fn data(&self) -> (r: &[u8])
        ensures
            r@ == self.data@,
    {
        self.data.as_slice()
    }

    pub fn into_parts(self) -> (r: (Opcode, bool, Vec<u8>))
        ensures
            r.0 == self.opcode,
            r.1 == self.masked,
            r.2@ == self.data@,
    {
        (self.opcode, self.masked, self.data)
    }
}

/// Builds frames; `masked` asks for the payload to be masked when encoded.
pub struct WsFrameBuilder {
    pub masked: bool,
}

impl WsFrameBuilder {
    pub fn new() -> (r: Self)
        ensures
            !r.masked,
    {
        Self { masked: false }
    }

    pub fn masked(self) -> (r: Self)
        ensures
            r.masked,
    {
        Self { masked: true }
    }

    /// A Close frame, always sent without a payload.
    pub fn close(self) -> (r: WsFrame)
        ensures
            r@ == (FrameView { opcode: Opcode::CLOSE, masked: false, data: Seq::empty() }),
    {
        WsFrame { opcode: Opcode::CLOSE, masked: false, data: Vec::new() }
    }

    pub fn continuation(self, fragment: Body) -> (r: WsFrame)
        ensures
            r@ == (FrameView {
                opcode: Opcode::CONTINUATION,
                masked: self.masked,
                data: body_bytes(fragment@),
            }),
    {
        Self::body(Opcode::CONTINUATION, self.masked, Some(fragment))
    }

    pub fn binary(self, fragment: Body) -> (r: WsFrame)
        ensures
            r@ == (FrameView { opcode: Opcode::BINARY, masked: self.masked, data: body_bytes(fragment@) }),
    {
        Self::body(Opcode::BINARY, self.masked, Some(fragment))
    }

    pub fn text(self, fragment: Body) -> (r: WsFrame)
        ensures
            r@ == (FrameView { opcode: Opcode::TEXT, masked: self.masked, data: body_bytes(fragment@) }),
    {
        Self::body(Opcode::TEXT, self.masked, Some(fragment))
    }

    pub fn ping(self) -> (r: WsFrame)
        ensures
            r@ == (FrameView { opcode: Opcode::PING, masked: false, data: Seq::empty() }),
    {
        Self::body(Opcode::PING, false, None)
    }

    pub fn pong(self) -> (r: WsFrame)
        ensures
            r@ == (FrameView { opcode: Opcode::PONG, masked: false, data: Seq::empty() }),
    {
        Self::body(Opcode::PONG, false, None)
    }

    fn body(opcode: Opcode, masked: bool, body: Option<Body>) -> (r: WsFrame)
        ensures
            r@ == (FrameView {
                opcode,
                masked,
                data: match body {
                    Some(b) => body_bytes(b@),
                    None => Seq::empty(),
                },
            }),
    {
        let data = match &body {
            Some(xs) => xs.to_vec(),
            None => Vec::new(),
        };
        WsFrame { opcode, masked, data }
    }
}

// ---------------------------------------------------------------------------
// Wire layout
// ---------------------------------------------------------------------------

pub open spec fn pow256(n: nat) -> nat
    decreases n,
{
    if n == 0 {
        1
    } else {
        256 * pow256((n - 1) as nat)
    }
}

/// The number that bytes spell in network (big-endian) order.
pub open spec fn be_value(b: Seq<u8>) -> nat
    decreases b.len(),
{
    if b.len() == 0 {
        0
    } else {
        be_value(b.drop_last()) * 256 + b.last() as nat
    }
}

/// The last `n` big-endian bytes of `v`.
pub open spec fn be_bytes(v: nat, n: nat) -> Seq<u8>
    decreases n,
{
    if n == 0 {
        Seq::empty()
    } else {
        be_bytes(v / 256, (n - 1) as nat).push((v % 256) as u8)
    }
}

/// Payload bytes XORed with the four-byte key, byte `i` with `key[i % 4]`.
pub open spec fn mask_with(p: Seq<u8>, key: Seq<u8>) -> Seq<u8> {
    Seq::new(p.len(), |i: int| p[i] ^ key[i % 4])
}

/// The second byte of a frame and the extended length after it.
pub open spec fn length_bytes(masked: bool, n: nat) -> Seq<u8> {
    let m: u8 = if masked { 0x80 } else { 0 };
    if n <= 125 {
        seq![(m + n) as u8]
    } else if n <= 65535 {
        seq![(m + 126) as u8] + be_bytes(n, 2)
    } else {
        seq![(m + 127) as u8] + be_bytes(n, 8)
    }
}

/// A whole frame on the wire. `key` is used only when `masked`.
pub open spec fn frame_bytes(fin: bool, op: Opcode, masked: bool, key: Seq<u8>, payload: Seq<u8>) -> Seq<u8> {
    let first: u8 = ((if fin { 0x80u8 } else { 0u8 }) + op.spec_value()) as u8;
    seq![first] + length_bytes(masked, payload.len()) + (if masked {
        key + mask_with(payload, key)
    } else {
        payload
    })
}

/// The header fields of a frame whose header is wholly in `b`.
pub struct FrameHead {
    pub fin: bool,
    pub code: u8,
    pub masked: bool,
    /// Declared payload length.
    pub len: nat,
    /// Where the payload starts.
    pub start: nat,
    pub key: Seq<u8>,
}

pub open spec fn ext_len(ind: u8) -> nat {
    if ind <= 125 {
        0
    } else if ind == 126 {
        2
    } else {
        8
    }
}

/// The frame header at the front of `b`; `None` while some of it is missing.
pub open spec fn frame_head(b: Seq<u8>) -> Option<FrameHead> {
    if b.len() < 2 {
        None
    } else {
        let ind = (b[1] % 128) as u8;
        let masked = b[1] >= 128;
        let ext = ext_len(ind);
        let start = 2 + ext + if masked { 4nat } else { 0nat };
        if b.len() < start {
            None
        } else {
            Some(
                FrameHead {
                    fin: b[0] >= 128,
                    code: (b[0] % 128) as u8,
                    masked,
                    len: if ind <= 125 { ind as nat } else { be_value(b.subrange(2, 2 + ext as int)) },
                    start: start as nat,
                    key: if masked { b.subrange(2 + ext as int, 2 + ext as int + 4) } else { Seq::empty() },
                },
            )
        }
    }
}

/// What one call of the decoder makes of the buffered bytes.
pub enum DecodeOutcome {
    /// More bytes are needed; nothing is consumed.
    Incomplete,
    /// The bytes break the protocol.
    Invalid,
    /// A non-final fragment was consumed; the message so far.
    Fragment { opcode: Opcode, data: Seq<u8>, used: nat },
    /// The final fragment was consumed; the whole message.
    Message { frame: FrameView, used: nat },
}

/// The decoder's step on the buffered bytes `b`, given the message in
/// progress (`pending`).
pub open spec fn decode_step(pending: Option<(Opcode, Seq<u8>)>, b: Seq<u8>) -> DecodeOutcome {
    if b.len() < 6 {
        DecodeOutcome::Incomplete
    } else {
        match Opcode::spec_from((b[0] % 128) as u8) {
            None => DecodeOutcome::Invalid,
            Some(op) => {
                if pending.is_some() != (op == Opcode::CONTINUATION) {
                    DecodeOutcome::Invalid
                } else {
                    match frame_head(b) {
                        None => DecodeOutcome::Incomplete,
                        Some(h) => {
                            if b.len() < h.start + h.len {
                                DecodeOutcome::Incomplete
                            } else {
                                let raw = b.subrange(h.start as int, (h.start + h.len) as int);
                                let payload = if h.masked { mask_with(raw, h.key) } else { raw };
                                let opcode = match pending {
                                    Some(p) => p.0,
                                    None => op,
                                };
                                let data = match pending {
                                    Some(p) => p.1 + payload,
                                    None => payload,
                                };
                                if h.fin {
                                    DecodeOutcome::Message {
                                        frame: FrameView { opcode, masked: h.masked, data },
                                        used: h.start + h.len,
                                    }
                                } else {
                                    DecodeOutcome::Fragment { opcode, data, used: h.start + h.len }
                                }
                            }
                        },
                    }
                }
            },
        }
    }
}


pub proof fn lemma_pow256_grows(i: nat, j: nat)
    requires
        i <= j,
    ensures
        pow256(i) <= pow256(j),
    decreases j - i,
{
    if i < j {
        lemma_pow256_grows(i, (j - 1) as nat);
        assert(pow256(j) == 256 * pow256((j - 1) as nat));
    }
}

pub proof fn lemma_pow256_8()
    ensures
        pow256(8) == 0x1_0000_0000_0000_0000,
{
    reveal_with_fuel(pow256, 9);
}

pub proof fn lemma_be_bytes_len(v: nat, n: nat)
    ensures
        be_bytes(v, n).len() == n,
    decreases n,
{
    if n > 0 {
        lemma_be_bytes_len(v / 256, (n - 1) as nat);
    }
}

/// Reading back the big-endian bytes of a number that fits gives the number.
pub proof fn lemma_be_round_trip(v: nat, n: nat)
    requires
        v < pow256(n),
    ensures
        be_value(be_bytes(v, n)) == v,
    decreases n,
{
    if n > 0 {
        let m = (n - 1) as nat;
        assert(v < 256 * pow256(m));
        assert(v / 256 < pow256(m)) by (nonlinear_arith)
            requires
                v < 256 * pow256(m),
        ;
        lemma_be_round_trip(v / 256, m);
        let s = be_bytes(v, n);
        assert(s.drop_last() =~= be_bytes(v / 256, m));
        assert(v == (v / 256) * 256 + v % 256) by (nonlinear_arith);
    }
}


/// Masking twice with the same key gives the payload back.
pub proof fn lemma_mask_twice(p: Seq<u8>, key: Seq<u8>)
    requires
        key.len() == 4,
    ensures
        mask_with(mask_with(p, key), key) == p,
{
    let q = mask_with(mask_with(p, key), key);
    assert forall|i: int| 0 <= i < p.len() implies q[i] == p[i] by {
        let x = p[i];
        let k = key[i % 4];
        assert((x ^ k) ^ k == x) by (bit_vector);
    }
    assert(q =~= p);
}

/// One masked frame, as the encoder lays it out (with the fin bit as given),
/// decodes to its payload appended to the message in progress, and the
/// decoder consumes exactly its bytes.
pub proof fn lemma_decode_masked_frame(
    pending: Option<(Opcode, Seq<u8>)>,
    fin: bool,
    op: Opcode,
    key: Seq<u8>,
    payload: Seq<u8>,
    rest: Seq<u8>,
)
    requires
        pending.is_some() == (op == Opcode::CONTINUATION),
        key.len() == 4,
        payload.len() < pow256(8),
    ensures
        ({
            let f = frame_bytes(fin, op, true, key, payload);
            let opcode = match pending {
                Some(p) => p.0,
                None => op,
            };
            let data = match pending {
                Some(p) => p.1 + payload,
                None => payload,
            };
            &&& (f + rest).skip(f.len() as int) == rest
            &&& decode_step(pending, f + rest) == if fin {
                DecodeOutcome::Message { frame: FrameView { opcode, masked: true, data }, used: f.len() }
            } else {
                DecodeOutcome::Fragment { opcode, data, used: f.len() }
            }
        }),
{
    let f = frame_bytes(fin, op, true, key, payload);
    let b = f + rest;
    let n = payload.len();
    let v = op.spec_value();
    let first: u8 = ((if fin { 0x80u8 } else { 0u8 }) + v) as u8;
    let lb = length_bytes(true, n);
    let masked_part = key + mask_with(payload, key);
    assert(f =~= seq![first] + lb + masked_part);
    let ext: nat = if n <= 125 { 0 } else if n <= 65535 { 2 } else { 8 };
    lemma_be_bytes_len(n, 2);
    lemma_be_bytes_len(n, 8);
    assert(lb.len() == 1 + ext);
    assert(b[0] == first);
    assert(b[0] % 128 == v);
    assert(b[0] >= 128 <==> fin);
    assert(Opcode::spec_from(v) == Some(op));
    let ind: u8 = if n <= 125 { n as u8 } else if n <= 65535 { 126u8 } else { 127u8 };
    assert(b[1] == lb[0]);
    assert(lb[0] == 0x80 + ind);
    assert(b[1] % 128 == ind);
    assert(ext_len(ind) == ext);
    let start = 2 + ext + 4;
    assert(b.len() >= start + n);
    if n > 125 {
        assert(b.subrange(2, 2 + ext as int) =~= be_bytes(n, ext));
        if n <= 65535 {
            reveal_with_fuel(pow256, 3);
            lemma_be_round_trip(n, 2);
        } else {
            lemma_be_round_trip(n, 8);
        }
    }
    let h = frame_head(b).unwrap();
    assert(h.len == n);
    assert(h.start == start);
    assert(h.key =~= key);
    assert(b.subrange(start as int, (start + n) as int) =~= mask_with(payload, key));
    lemma_mask_twice(payload, key);
    assert(f.len() == start + n);
    assert((f + rest).skip(f.len() as int) =~= rest);
}

/// Encoding a Text or Binary frame with masking and decoding the bytes, with
/// no message in progress, gives back the opcode and the payload, and
/// consumes exactly the encoded bytes.
pub proof fn lemma_masked_round_trip(op: Opcode, key: Seq<u8>, payload: Seq<u8>, rest: Seq<u8>)
    requires
        op == Opcode::TEXT || op == Opcode::BINARY,
        key.len() == 4,
        payload.len() < pow256(8),
    ensures
        ({
            let frame = FrameView { opcode: op, masked: true, data: payload };
            let wire = encoded(frame, key);
            decode_step(None, wire + rest) == DecodeOutcome::Message { frame, used: wire.len() }
        }),
{
    lemma_decode_masked_frame(None, true, op, key, payload, rest);
}

/// A Text message sent as a non-final Text fragment followed by a final
/// Continuation fragment decodes, over two calls, to one Text message whose
/// payload is the two payloads joined.
pub proof fn lemma_fragmented_text(key_a: Seq<u8>, part_a: Seq<u8>, key_b: Seq<u8>, part_b: Seq<u8>)
    requires
        key_a.len() == 4,
        key_b.len() == 4,
        part_a.len() < pow256(8),
        part_b.len() < pow256(8),
    ensures
        ({
            let first = frame_bytes(false, Opcode::TEXT, true, key_a, part_a);
            let second = frame_bytes(true, Opcode::CONTINUATION, true, key_b, part_b);
            &&& decode_step(None, first + second) == DecodeOutcome::Fragment {
                opcode: Opcode::TEXT,
                data: part_a,
                used: first.len(),
            }
            &&& (first + second).skip(first.len() as int) == second
            &&& decode_step(Some((Opcode::TEXT, part_a)), second) == DecodeOutcome::Message {
                frame: FrameView { opcode: Opcode::TEXT, masked: true, data: part_a + part_b },
                used: second.len(),
            }
        }),
{
    let second = frame_bytes(true, Opcode::CONTINUATION, true, key_b, part_b);
    lemma_decode_masked_frame(None, false, Opcode::TEXT, key_a, part_a, second);
    lemma_decode_masked_frame(Some((Opcode::TEXT, part_a)), true, Opcode::CONTINUATION, key_b, part_b, Seq::empty());
    assert(second + Seq::<u8>::empty() =~= second);
}

/// The number spelled by `n` bytes of `b` from `start`, in network order.
pub fn read_be(b: &[u8], start: usize, n: usize) -> (r: u64)
    requires
        n <= 8,
        start + n <= b@.len(),
    ensures
        r == be_value(b@.subrange(start as int, start + n)),
{
    let total = b.len();
    let mut acc: u64 = 0;
    let mut i: usize = 0;
    while i < n
        invariant
            total == b@.len(),
            i <= n <= 8,
            start + n <= b@.len(),
            acc == be_value(b@.subrange(start as int, start + i)),
            acc < pow256(i as nat),
        decreases n - i,
    {
        proof {
            let s = b@.subrange(start as int, start + i + 1);
            assert(s.drop_last() =~= b@.subrange(start as int, start + i));
            lemma_pow256_grows((i + 1) as nat, 8);
            lemma_pow256_8();
            assert(pow256((i + 1) as nat) == 256 * pow256(i as nat));
            let x = b@[start + i];
            assert(acc * 256 + x < pow256((i + 1) as nat)) by (nonlinear_arith)
                requires
                    acc < pow256(i as nat),
                    x < 256,
                    pow256((i + 1) as nat) == 256 * pow256(i as nat),
            ;
        }
        acc = acc * 256 + b[start + i] as u64;
        i = i + 1;
    }
    acc
}

/// Appends the last `n` big-endian bytes of `v`.
pub fn push_be(out: &mut Vec<u8>, v: u64, n: usize)
    ensures
        final(out)@ == old(out)@ + be_bytes(v as nat, n as nat),
    decreases n,
{
    if n == 0 {
        assert(old(out)@ + be_bytes(v as nat, 0) =~= old(out)@);
    } else {
        push_be(out, v / 256, n - 1);
        out.push((v % 256) as u8);
        assert(final(out)@ =~= old(out)@ + be_bytes(v as nat, n as nat));
    }
}

/// Appends the length byte, with the mask bit, and the extended length, in
/// the smallest of the three forms that holds `length`.
pub fn mask_length(dest: &mut BytesMut, mask_bit: u8, length: usize)
    requires
        mask_bit == 0 || mask_bit == MASK,
    ensures
        buffer_bytes(*final(dest)) == buffer_bytes(*old(dest)) + length_bytes(mask_bit == MASK, length as nat),
{
    let mut out: Vec<u8> = Vec::new();
    if length <= 125 {
        out.push(mask_bit + length as u8);
    } else if length <= 65535 {
        out.push(mask_bit + 126);
        push_be(&mut out, length as u64, 2);
    } else {
        out.push(mask_bit + 127);
        push_be(&mut out, length as u64, 8);
    }
    assert(out@ =~= length_bytes(mask_bit == MASK, length as nat));
    dest.extend_from_slice(out.as_slice());
}

/// Relies on rand's `thread_rng` and `RngCore::fill_bytes`: four random bytes.
#[verifier::external_body]
fn random_mask_key() -> (r: Vec<u8>)
    ensures
        r@.len() == 4,
{
    let mut key = [0u8; 4];
    rand::thread_rng().fill_bytes(&mut key);
    key.to_vec()
}

/// The bytes that encoding a frame with mask key `key` appends.
pub open spec fn encoded(f: FrameView, key: Seq<u8>) -> Seq<u8> {
    match f.opcode {
        Opcode::TEXT | Opcode::BINARY => frame_bytes(true, f.opcode, f.masked, key, f.data),
        Opcode::CONTINUATION => Seq::empty(),
        _ => seq![(0x80u8 + f.opcode.spec_value()) as u8, 0u8],
    }
}

/// WebSocket codec; between calls of `decode` it holds the message whose
/// fragments have come in so far.
pub struct Ws {
    pub partial: Option<(Opcode, Vec<u8>)>,
}

impl View for Ws {
    type V = Option<(Opcode, Seq<u8>)>;

    open spec fn view(&self) -> Option<(Opcode, Seq<u8>)> {
        match &self.partial {
            Some(p) => Some((p.0, p.1@)),
            None => None,
        }
    }
}

impl Ws {
    /// A message in progress never has the Continuation opcode.
    pub open spec fn wf(&self) -> bool {
        self@ matches Some(p) ==> p.0 != Opcode::CONTINUATION
    }

    pub fn new() -> (r: Self)
        ensures
            r@ == None::<(Opcode, Seq<u8>)>,
            r.wf(),
    {
        Ws { partial: None }
    }

    /// Decodes the frame at the front of `src`, consuming exactly its bytes.
    pub fn decode(&mut self, src: &mut BytesMut) -> (r: Result<Option<WsFrame>, ()>)
        requires
            old(self).wf(),
        ensures
            final(self).wf(),
            r matches Ok(Some(f)) ==> f.opcode != Opcode::CONTINUATION,
            match decode_step(old(self)@, buffer_bytes(*old(src))) {
                DecodeOutcome::Incomplete => {
                    &&& r == Ok::<Option<WsFrame>, ()>(None)
                    &&& final(self)@ == old(self)@
                    &&& buffer_bytes(*final(src)) == buffer_bytes(*old(src))
                },
                DecodeOutcome::Invalid => {
                    &&& r == Err::<Option<WsFrame>, ()>(())
                    &&& final(self)@ == old(self)@
                    &&& buffer_bytes(*final(src)) == buffer_bytes(*old(src))
                },
                DecodeOutcome::Fragment { opcode, data, used } => {
                    &&& r == Ok::<Option<WsFrame>, ()>(None)
                    &&& final(self)@ == Some((opcode, data))
                    &&& buffer_bytes(*final(src)) == buffer_bytes(*old(src)).skip(used as int)
                },
                DecodeOutcome::Message { frame, used } => {
                    &&& r matches Ok(Some(f)) && f@ == frame
                    &&& final(self)@ == None::<(Opcode, Seq<u8>)>
                    &&& buffer_bytes(*final(src)) == buffer_bytes(*old(src)).skip(used as int)
                },
            },
    {
        let b = buffer_slice(src);
        let n = b.len();
        if n < 6 {
            return Ok(None);
        }
        let b0 = b[0];
        let b1 = b[1];
        let code = b0 & 0x7f;
        assert(b0 & 0x7f == b0 % 128) by (bit_vector);
        let op = match Opcode::from_u8(code) {
            Some(o) => o,
            None => return Err(()),
        };
        let in_progress = self.partial.is_some();
        let is_continuation = op == Opcode::CONTINUATION;
        if in_progress != is_continuation {
            return Err(());
        }
        let fin = b0 >= FIN;
        let masked = b1 >= MASK;
        let ind = b1 & 0x7f;
        assert(b1 & 0x7f == b1 % 128) by (bit_vector);
        let ext: usize = if ind <= 125 {
            0
        } else if ind == 126 {
            2
        } else {
            8
        };
        let key_len: usize = if masked { 4 } else { 0 };
        let start = 2 + ext + key_len;
        if n < start {
            return Ok(None);
        }
        let len: u64 = if ind <= 125 { ind as u64 } else { read_be(b, 2, ext) };
        let avail = n - start;
        if (avail as u64) < len {
            return Ok(None);
        }
        let len = len as usize;
        let end = start + len;
        let ghost h = frame_head(b@).unwrap();
        assert(h.start == start && h.len == len && h.masked == masked && h.fin == fin);
        let ghost raw = b@.subrange(start as int, end as int);
        let mut payload: Vec<u8> = Vec::new();
        let mut i: usize = 0;
        while i < len
            invariant
                i <= len,
                end == start + len,
                end <= b@.len(),
                start == 2 + ext + key_len,
                raw == b@.subrange(start as int, end as int),
                h.key == if masked { b@.subrange(2 + ext as int, 2 + ext as int + 4) } else { Seq::empty() },
                key_len == if masked { 4usize } else { 0usize },
                payload@ == (if masked { mask_with(raw, h.key) } else { raw }).subrange(0, i as int),
            decreases len - i,
        {
            let x = b[start + i];
            let y = if masked { x ^ b[2 + ext + i % 4] } else { x };
            payload.push(y);
            proof {
                let full = if masked { mask_with(raw, h.key) } else { raw };
                assert(payload@ =~= full.subrange(0, i + 1));
            }
            i = i + 1;
        }
        proof {
            let full = if masked { mask_with(raw, h.key) } else { raw };
            assert(payload@ =~= full);
        }
        let (opcode, data) = match self.partial.take() {
            Some(p) => {
                let (o, mut d) = p;
                d.append(&mut payload);
                (o, d)
            },
            None => (op, payload),
        };
        let _ = src.split_to(end);
        assert(buffer_bytes(*src) =~= buffer_bytes(*old(src)).skip(end as int));
        if fin {
            Ok(Some(WsFrame { opcode, masked, data }))
        } else {
            self.partial = Some((opcode, data));
            Ok(None)
        }
    }

    /// Encodes `item` with the given mask key (used only for a masked Text or
    /// Binary frame), appending to `dest`.
    pub fn encode_with_key(item: &WsFrame, key: &[u8], dest: &mut BytesMut)
        requires
            key@.len() == 4,
        ensures
            buffer_bytes(*final(dest)) == buffer_bytes(*old(dest)) + encoded(item@, key@),
    {
        match item.opcode {
            Opcode::BINARY | Opcode::TEXT => {
                let fin_opcode = FIN | item.opcode.value();
                assert(FIN | item.opcode.spec_value() == 0x80u8 + item.opcode.spec_value()) by {
                    let v = item.opcode.spec_value();
                    assert(v < 128);
                    assert(v < 128 ==> 0x80u8 | v == 0x80u8 + v) by (bit_vector);
                };
                let mask_bit: u8 = if item.masked { MASK } else { 0 };
                let mut out: Vec<u8> = Vec::new();
                out.push(fin_opcode);
                dest.extend_from_slice(out.as_slice());
                mask_length(dest, mask_bit, item.data.len());
                let mut body: Vec<u8> = Vec::new();
                if item.masked {
                    let mut j: usize = 0;
                    while j < 4
                        invariant
                            j <= 4,
                            key@.len() == 4,
                            body@ == key@.subrange(0, j as int),
                        decreases 4 - j,
                    {
                        body.push(key[j]);
                        proof {
                            assert(body@ =~= key@.subrange(0, j + 1));
                        }
                        j = j + 1;
                    }
                }
                let ghost prefix = body@;
                let mut i: usize = 0;
                while i < item.data.len()
                    invariant
                        i <= item.data@.len(),
                        key@.len() == 4,
                        body@ == prefix + (if item.masked {
                            mask_with(item.data@, key@)
                        } else {
                            item.data@
                        }).subrange(0, i as int),
                    decreases item.data@.len() - i,
                {
                    let x = item.data[i];
                    let y = if item.masked { x ^ key[i % 4] } else { x };
                    body.push(y);
                    proof {
                        let full = if item.masked { mask_with(item.data@, key@) } else { item.data@ };
                        assert(body@ =~= prefix + full.subrange(0, i + 1));
                    }
                    i = i + 1;
                }
                proof {
                    let full = if item.masked { mask_with(item.data@, key@) } else { item.data@ };
                    assert(full.subrange(0, item.data@.len() as int) =~= full);
                    if item.masked {
                        assert(prefix =~= key@);
                    } else {
                        assert(prefix =~= Seq::<u8>::empty());
                    }
                }
                dest.extend_from_slice(body.as_slice());
                assert(buffer_bytes(*final(dest)) =~= buffer_bytes(*old(dest)) + encoded(item@, key@));
            },
            Opcode::CLOSE | Opcode::PING | Opcode::PONG => {
                let fin_opcode = FIN | item.opcode.value();
                assert(FIN | item.opcode.spec_value() == 0x80u8 + item.opcode.spec_value()) by {
                    let v = item.opcode.spec_value();
                    assert(v < 128);
                    assert(v < 128 ==> 0x80u8 | v == 0x80u8 + v) by (bit_vector);
                };
                let mut out: Vec<u8> = Vec::new();
                out.push(fin_opcode);
                out.push(0);
                assert(out@ =~= encoded(item@, key@));
                dest.extend_from_slice(out.as_slice());
            },
            Opcode::CONTINUATION => {
                assert(buffer_bytes(*old(dest)) + encoded(item@, key@) =~= buffer_bytes(*old(dest)));
            },
        }
    }

    /// Encodes `item`, appending to `dest`; a masked frame gets a fresh
    /// random mask key.
    pub fn encode(&mut self, item: WsFrame, dest: &mut BytesMut) -> (r: Result<(), ()>)
        ensures
            r is Ok,
            final(self)@ == old(self)@,
            exists|key: Seq<u8>|
                key.len() == 4 && buffer_bytes(*final(dest)) == buffer_bytes(*old(dest)) + encoded(item@, key),
    {
        let key = random_mask_key();
        Self::encode_with_key(&item, key.as_slice(), dest);
        Ok(())
    }
}

} // verus!
