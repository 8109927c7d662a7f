use mini_kv::conn::{EofOutcome, FrameStep, ReadBuffer};
use mini_kv::decode::{try_decode, DecodeOutcome};
use mini_kv::frame::{encode, EncodeError, WireFrame};

fn enc(f: &WireFrame) -> Vec<u8> {
    encode(f).expect("frame should encode")
}

fn decode_all(bytes: &Vec<u8>) -> (WireFrame, usize) {
    match try_decode(bytes) {
        DecodeOutcome::Complete(f, n) => (f, n),
        other => panic!("expected a complete frame, got {:?}", other),
    }
}

#[test]
fn encodings_match_wire_format() {
    assert_eq!(enc(&WireFrame::Simple(b"OK".to_vec())), b"+OK\r\n".to_vec());
    assert_eq!(enc(&WireFrame::Error(b"oops".to_vec())), b"-oops\r\n".to_vec());
    assert_eq!(enc(&WireFrame::Integer(42)), b":42\r\n".to_vec());
    assert_eq!(enc(&WireFrame::Integer(-7)), b":-7\r\n".to_vec());
    assert_eq!(enc(&WireFrame::Null), b"$-1\r\n".to_vec());
    assert_eq!(enc(&WireFrame::Bulk(b"world".to_vec())), b"$5\r\nworld\r\n".to_vec());
    let set_cmd = WireFrame::Array(vec![
        WireFrame::Simple(b"set".to_vec()),
        WireFrame::Bulk(b"hello".to_vec()),
        WireFrame::Bulk(b"world".to_vec()),
    ]);
    assert_eq!(
        enc(&set_cmd),
        b"*3\r\n+set\r\n$5\r\nhello\r\n$5\r\nworld\r\n".to_vec()
    );
}

#[test]
fn round_trip_every_variant() {
    let frames = vec![
        WireFrame::Simple(b"OK".to_vec()),
        WireFrame::Simple(Vec::new()),
        WireFrame::Error(b"ERR something".to_vec()),
        WireFrame::Integer(0),
        WireFrame::Integer(1),
        WireFrame::Integer(-1),
        WireFrame::Integer(i64::MAX),
        WireFrame::Integer(i64::MIN),
        WireFrame::Null,
        WireFrame::Bulk(Vec::new()),
        WireFrame::Bulk(b"world".to_vec()),
        WireFrame::Bulk(b"with\r\nmarks\r\ninside".to_vec()),
        WireFrame::Array(Vec::new()),
        WireFrame::Array(vec![
            WireFrame::Simple(b"get".to_vec()),
            WireFrame::Bulk(b"hello".to_vec()),
        ]),
        WireFrame::Array(vec![
            WireFrame::Simple(b"x".to_vec()),
            WireFrame::Error(b"e".to_vec()),
            WireFrame::Integer(-100),
            WireFrame::Null,
            WireFrame::Bulk(b"\r\n\r\n".to_vec()),
        ]),
    ];
    for f in frames {
        let bytes = enc(&f);
        let (g, n) = decode_all(&bytes);
        assert_eq!(g, f);
        assert_eq!(n, bytes.len());
    }
}

#[test]
fn incremental_feed_single_bytes() {
    let frames = vec![
        WireFrame::Simple(b"OK".to_vec()),
        WireFrame::Integer(-345),
        WireFrame::Null,
        WireFrame::Bulk(b"pay\r\nload".to_vec()),
        WireFrame::Array(vec![
            WireFrame::Simple(b"set".to_vec()),
            WireFrame::Bulk(b"k".to_vec()),
            WireFrame::Bulk(b"v".to_vec()),
        ]),
    ];
    for f in frames {
        let bytes = enc(&f);
        // every strict prefix is incomplete
        for cut in 0..bytes.len() {
            let prefix = bytes[..cut].to_vec();
            assert_eq!(try_decode(&prefix), DecodeOutcome::Incomplete);
        }
        // the full encoding is complete with zero leftover
        let (g, n) = decode_all(&bytes);
        assert_eq!(g, f);
        assert_eq!(n, bytes.len());

        // the same, delivered byte by byte through the read buffer
        let mut rb = ReadBuffer::new();
        for (i, b) in bytes.iter().enumerate() {
            if i + 1 < bytes.len() {
                rb.feed(&[*b]);
                match rb.try_next() {
                    FrameStep::NeedMore => {},
                    _ => panic!("prefix of length {} should be incomplete", i + 1),
                }
            } else {
                rb.feed(&[*b]);
                match rb.try_next() {
                    FrameStep::Frame(g) => assert_eq!(g, f),
                    _ => panic!("full encoding should yield the frame"),
                }
            }
        }
        assert_eq!(rb.on_eof(), EofOutcome::CleanClose);
    }
}

#[test]
fn leftover_bytes_stay_buffered() {
    let first = WireFrame::Simple(b"one".to_vec());
    let second = WireFrame::Bulk(b"two".to_vec());
    let mut bytes = enc(&first);
    bytes.extend_from_slice(&enc(&second));
    let mut rb = ReadBuffer::new();
    rb.feed(&bytes);
    match rb.try_next() {
        FrameStep::Frame(g) => assert_eq!(g, first),
        _ => panic!("first frame should be complete"),
    }
    match rb.try_next() {
        FrameStep::Frame(g) => assert_eq!(g, second),
        _ => panic!("second frame should be complete"),
    }
    assert_eq!(rb.on_eof(), EofOutcome::CleanClose);
}

#[test]
fn malformed_inputs_are_rejected() {
    let cases: Vec<&[u8]> = vec![
        b"$abc\r\n",          // non-numeric bulk length header
        b"$007\r\nabcdefg\r\n", // leading zeros are not canonical
        b"$5x\r\n",           // junk after the digits
        b":-0\r\n",           // negative zero
        b":007\r\n",          // leading zeros
        b":12a\r\n",          // junk inside the digits
        b"+text\nmore\r\n",   // lone LF inside a status text
        b"+text\rmore\r\n",   // CR not followed by LF
        b"?what\r\n",         // unknown tag
        b"*1\r\n*1\r\n+a\r\n", // nested Array on the wire
        b"*x\r\n",            // non-numeric element count
        b"$3\r\nabcXY",       // payload not closed by CRLF
    ];
    for c in cases {
        let bytes = c.to_vec();
        assert_eq!(
            try_decode(&bytes),
            DecodeOutcome::Malformed,
            "input {:?} should be malformed",
            c
        );
    }
}

#[test]
fn malformed_input_poisons_the_connection() {
    let mut rb = ReadBuffer::new();
    rb.feed(b"$abc\r\n");
    match rb.try_next() {
        FrameStep::Corrupt => {},
        _ => panic!("non-numeric bulk length should be malformed"),
    }
    // nothing was consumed; the connection stays unusable
    match rb.try_next() {
        FrameStep::Corrupt => {},
        _ => panic!("the buffer must be left untouched after a failure"),
    }
    assert_eq!(rb.on_eof(), EofOutcome::ResetByPeer);
}

#[test]
fn eof_mid_frame_is_a_reset() {
    let mut rb = ReadBuffer::new();
    assert_eq!(rb.on_eof(), EofOutcome::CleanClose);
    rb.feed(b"$5\r\nwor");
    match rb.try_next() {
        FrameStep::NeedMore => {},
        _ => panic!("half a bulk frame should be incomplete"),
    }
    assert_eq!(rb.on_eof(), EofOutcome::ResetByPeer);
}

#[test]
fn nested_array_fails_encoding() {
    let inner = WireFrame::Array(vec![WireFrame::Simple(b"a".to_vec())]);
    let outer = WireFrame::Array(vec![WireFrame::Simple(b"b".to_vec()), inner]);
    assert_eq!(encode(&outer), Err(EncodeError::NestedArray));
}

#[test]
fn empty_buffer_is_incomplete() {
    let empty: Vec<u8> = Vec::new();
    assert_eq!(try_decode(&empty), DecodeOutcome::Incomplete);
}
