use bytes::BytesMut;
use wireroute::body::Body;
use wireroute::websocket::{mask_length, read_be, Opcode, Ws, WsFrame, WsFrameBuilder};

fn masked_frame(first: u8, key: [u8; 4], payload: &[u8]) -> Vec<u8> {
    let mut out = vec![first];
    let n = payload.len();
    if n <= 125 {
        out.push(0x80 | n as u8);
    } else if n <= 65535 {
        out.push(0x80 | 126);
        out.extend_from_slice(&(n as u16).to_be_bytes());
    } else {
        out.push(0x80 | 127);
        out.extend_from_slice(&(n as u64).to_be_bytes());
    }
    out.extend_from_slice(&key);
    for (i, b) in payload.iter().enumerate() {
        out.push(b ^ key[i % 4]);
    }
    out
}

fn encode(frame: WsFrame) -> BytesMut {
    let mut ws = Ws::new();
    let mut out = BytesMut::new();
    ws.encode(frame, &mut out).unwrap();
    out
}

#[test]
fn masked_text_round_trip() {
    let frame = WsFrameBuilder::new().masked().text(Body::from_text("hello, world"));
    let mut buf = encode(frame);
    assert_eq!(buf[0], 0x81);
    assert_eq!(buf[1], 0x80 | 12);
    assert_eq!(buf.len(), 2 + 4 + 12);
    let mut ws = Ws::new();
    let got = ws.decode(&mut buf).unwrap().unwrap();
    assert_eq!(*got.opcode(), Opcode::TEXT);
    assert!(got.masked());
    assert_eq!(got.data(), b"hello, world");
    assert_eq!(buf.len(), 0);
}

#[test]
fn masked_binary_round_trip() {
    let payload: Vec<u8> = (0..300u32).map(|i| (i * 7) as u8).collect();
    let frame = WsFrameBuilder::new().masked().binary(Body::from_vec(payload.clone()));
    let mut buf = encode(frame);
    let mut ws = Ws::new();
    let got = ws.decode(&mut buf).unwrap().unwrap();
    assert_eq!(*got.opcode(), Opcode::BINARY);
    assert_eq!(got.data(), &payload[..]);
}

#[test]
fn fragmented_text_is_reassembled() {
    let mut buf = BytesMut::new();
    buf.extend_from_slice(&masked_frame(0x01, [1, 2, 3, 4], b"Hel"));
    buf.extend_from_slice(&masked_frame(0x80, [9, 8, 7, 6], b"lo"));
    let mut ws = Ws::new();
    assert_eq!(ws.decode(&mut buf).unwrap().map(|f| f.len()), None);
    let got = ws.decode(&mut buf).unwrap().unwrap();
    assert_eq!(*got.opcode(), Opcode::TEXT);
    assert_eq!(got.data(), b"Hello");
    assert_eq!(buf.len(), 0);
}

#[test]
fn fragments_fed_one_read_at_a_time() {
    let mut ws = Ws::new();
    let mut buf = BytesMut::new();
    buf.extend_from_slice(&masked_frame(0x01, [5, 5, 5, 5], b"ab"));
    assert!(ws.decode(&mut buf).unwrap().is_none());
    assert_eq!(buf.len(), 0);
    buf.extend_from_slice(&masked_frame(0x80, [0, 0, 0, 1], b"cd"));
    let got = ws.decode(&mut buf).unwrap().unwrap();
    assert_eq!(got.data(), b"abcd");
}

#[test]
fn length_tiers_at_their_boundaries() {
    for (n, second, header) in [(125usize, 0x80 | 125u8, 6usize), (126, 0x80 | 126, 8), (65536, 0x80 | 127, 14)] {
        let payload = vec![0x5au8; n];
        let frame = WsFrameBuilder::new().masked().binary(Body::from_vec(payload.clone()));
        let mut buf = encode(frame);
        assert_eq!(buf[1], second);
        assert_eq!(buf.len(), header + n);
        let mut ws = Ws::new();
        let got = ws.decode(&mut buf).unwrap().unwrap();
        assert_eq!(got.len(), n);
        assert_eq!(got.data(), &payload[..]);
    }
}

#[test]
fn length_bytes_of_each_tier() {
    let mut out = BytesMut::new();
    mask_length(&mut out, 0, 125);
    assert_eq!(&out[..], &[125]);
    let mut out = BytesMut::new();
    mask_length(&mut out, 0x80, 126);
    assert_eq!(&out[..], &[0x80 | 126, 0, 126]);
    let mut out = BytesMut::new();
    mask_length(&mut out, 0, 65536);
    assert_eq!(&out[..], &[127, 0, 0, 0, 0, 0, 1, 0, 0]);
}

#[test]
fn big_endian_reads() {
    assert_eq!(read_be(&[1, 2], 0, 2), 258);
    assert_eq!(read_be(&[9, 0, 0, 0, 0, 0, 1, 0, 0], 1, 8), 65536);
}

#[test]
fn unmasked_frame_keeps_payload() {
    let frame = WsFrameBuilder::new().text(Body::from_text("plain text"));
    let mut buf = encode(frame);
    assert_eq!(buf[1], 10);
    let mut ws = Ws::new();
    let got = ws.decode(&mut buf).unwrap().unwrap();
    assert!(!got.masked());
    assert_eq!(got.data(), b"plain text");
}

#[test]
fn control_frames_have_no_payload() {
    assert_eq!(&encode(WsFrame::builder().close())[..], &[0x88, 0]);
    assert_eq!(&encode(WsFrame::builder().ping())[..], &[0x89, 0]);
    assert_eq!(&encode(WsFrame::builder().pong())[..], &[0x8A, 0]);
}

#[test]
fn short_buffer_is_incomplete() {
    let mut ws = Ws::new();
    let mut buf = BytesMut::from(&[0x81u8, 0x82, 1, 2, 3][..]);
    assert!(ws.decode(&mut buf).unwrap().is_none());
    assert_eq!(buf.len(), 5);
}

#[test]
fn missing_payload_bytes_leave_buffer_alone() {
    let bytes = masked_frame(0x81, [1, 2, 3, 4], b"hello");
    let mut buf = BytesMut::from(&bytes[..bytes.len() - 1]);
    let mut ws = Ws::new();
    assert!(ws.decode(&mut buf).unwrap().is_none());
    assert_eq!(buf.len(), bytes.len() - 1);
}

#[test]
fn unknown_opcode_is_an_error() {
    let mut ws = Ws::new();
    let mut buf = BytesMut::from(&masked_frame(0x83, [0; 4], b"x")[..]);
    assert!(ws.decode(&mut buf).is_err());
}

#[test]
fn interleaved_opcode_is_an_error() {
    let mut ws = Ws::new();
    let mut buf = BytesMut::from(&masked_frame(0x01, [0; 4], b"x")[..]);
    assert!(ws.decode(&mut buf).unwrap().is_none());
    let mut buf = BytesMut::from(&masked_frame(0x81, [0; 4], b"y")[..]);
    assert!(ws.decode(&mut buf).is_err());
}

#[test]
fn continuation_without_start_is_an_error() {
    let mut ws = Ws::new();
    let mut buf = BytesMut::from(&masked_frame(0x80, [0; 4], b"x")[..]);
    assert!(ws.decode(&mut buf).is_err());
}

#[test]
fn trailing_frame_stays_buffered() {
    let mut bytes = masked_frame(0x81, [1, 1, 1, 1], b"one");
    bytes.extend_from_slice(&masked_frame(0x82, [2, 2, 2, 2], b"two"));
    let mut buf = BytesMut::from(&bytes[..]);
    let mut ws = Ws::new();
    assert_eq!(ws.decode(&mut buf).unwrap().unwrap().data(), b"one");
    let second = ws.decode(&mut buf).unwrap().unwrap();
    assert_eq!(*second.opcode(), Opcode::BINARY);
    assert_eq!(second.data(), b"two");
}

#[test]
fn opcode_numbers() {
    assert_eq!(Opcode::from_u8(0xA), Some(Opcode::PONG));
    assert_eq!(Opcode::from_u8(3), None);
    assert_eq!(Opcode::CLOSE.value(), 8);
}
