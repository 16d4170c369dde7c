use shardkv::buffer::FrameBuffer;
use shardkv::decode::FrameError;
use shardkv::frame::Frame;

fn roundtrip(f: Frame) -> Frame {
    let bytes = f.encode();
    let mut buf = FrameBuffer::new();
    buf.extend(&bytes);
    let got = buf.parse_frame().unwrap().expect("frame should be complete");
    assert!(buf.is_empty(), "all bytes should be consumed");
    got
}

#[test]
fn test_write_read_simple_frame() {
    let frame = Frame::Simple("OK".to_string());
    let mut buf = FrameBuffer::new();
    buf.extend(&frame.encode());
    let received = buf.parse_frame().unwrap();
    match received {
        Some(Frame::Simple(s)) => assert_eq!(s, "OK"),
        _ => panic!("Expected Simple frame"),
    }
}

#[test]
fn test_write_read_bulk_frame() {
    let data = b"hello world".to_vec();
    let frame = Frame::Bulk(data.clone());
    let mut buf = FrameBuffer::new();
    buf.extend(&frame.encode());
    let received = buf.parse_frame().unwrap();
    match received {
        Some(Frame::Bulk(bytes)) => assert_eq!(bytes, data),
        _ => panic!("Expected Bulk frame"),
    }
}

#[test]
fn test_write_read_array_frame() {
    let frame = Frame::Array(vec![
        Frame::Simple("SET".to_string()),
        Frame::Bulk(b"key".to_vec()),
        Frame::Bulk(b"value".to_vec()),
    ]);
    let mut buf = FrameBuffer::new();
    buf.extend(&frame.encode());
    let received = buf.parse_frame().unwrap();
    match received {
        Some(Frame::Array(items)) => {
            assert_eq!(items.len(), 3);
            match &items[0] {
                Frame::Simple(s) => assert_eq!(s, "SET"),
                _ => panic!("Expected Simple frame"),
            }
        },
        _ => panic!("Expected Array frame"),
    }
}

#[test]
fn test_roundtrip_each_variant() {
    assert_eq!(roundtrip(Frame::Simple("PONG".to_string())), Frame::Simple("PONG".to_string()));
    assert_eq!(
        roundtrip(Frame::Error("ERR oops".to_string())),
        Frame::Error("ERR oops".to_string())
    );
    assert_eq!(roundtrip(Frame::Integer(0)), Frame::Integer(0));
    assert_eq!(roundtrip(Frame::Integer(-1)), Frame::Integer(-1));
    assert_eq!(roundtrip(Frame::Integer(i64::MAX)), Frame::Integer(i64::MAX));
    assert_eq!(roundtrip(Frame::Integer(i64::MIN)), Frame::Integer(i64::MIN));
    assert_eq!(roundtrip(Frame::Null), Frame::Null);
    assert_eq!(roundtrip(Frame::Bulk(vec![])), Frame::Bulk(vec![]));
}

#[test]
fn test_roundtrip_bulk_with_crlf_bytes() {
    let payload = b"a\r\nb\r\0c\nd".to_vec();
    assert_eq!(roundtrip(Frame::Bulk(payload.clone())), Frame::Bulk(payload));
}

fn nested_sample() -> Frame {
    let inner = Frame::Array(vec![Frame::Integer(7), Frame::Null]);
    let outer = Frame::Array(vec![
        Frame::Bulk(b"x".to_vec()),
        inner,
        Frame::Array(vec![]),
        Frame::Simple("deep".to_string()),
    ]);
    Frame::Array(vec![outer])
}

#[test]
fn test_roundtrip_nested_arrays() {
    let back = roundtrip(nested_sample());
    assert_eq!(back, nested_sample());
}

#[test]
fn test_exact_wire_bytes() {
    assert_eq!(Frame::Simple("OK".to_string()).encode(), b"+OK\r\n".to_vec());
    assert_eq!(Frame::Error("ERR".to_string()).encode(), b"-ERR\r\n".to_vec());
    assert_eq!(Frame::Integer(1234).encode(), b":1234\r\n".to_vec());
    assert_eq!(Frame::Integer(-56).encode(), b":-56\r\n".to_vec());
    assert_eq!(Frame::Null.encode(), b"$-1\r\n".to_vec());
    assert_eq!(Frame::Bulk(b"hi".to_vec()).encode(), b"$2\r\nhi\r\n".to_vec());
    assert_eq!(
        Frame::Array(vec![Frame::Bulk(b"GET".to_vec()), Frame::Bulk(b"k".to_vec())]).encode(),
        b"*2\r\n$3\r\nGET\r\n$1\r\nk\r\n".to_vec()
    );
}

#[test]
fn test_incremental_delivery() {
    let frame = Frame::Array(vec![
        Frame::Bulk(b"SET".to_vec()),
        Frame::Bulk(b"key with \r\n inside".to_vec()),
        Frame::Integer(-42),
    ]);
    let bytes = frame.encode();
    // Feed the bytes in chunks of every size from 1 up to the whole frame:
    // every strict prefix must report "incomplete", never an error or a
    // wrong frame, and the final chunk must complete the same frame.
    for chunk in 1..=bytes.len() {
        let mut buf = FrameBuffer::new();
        let mut fed = 0;
        let mut done = None;
        while fed < bytes.len() {
            let end = usize::min(fed + chunk, bytes.len());
            buf.extend(&bytes[fed..end]);
            fed = end;
            match buf.parse_frame().unwrap() {
                Some(f) => {
                    assert_eq!(fed, bytes.len(), "no strict prefix may complete");
                    done = Some(f);
                },
                None => assert!(fed < bytes.len(), "the full bytes must complete"),
            }
        }
        assert_eq!(done.unwrap(), frame);
    }
}

#[test]
fn test_two_frames_back_to_back() {
    let a = Frame::Simple("one".to_string());
    let b = Frame::Integer(2);
    let mut bytes = a.encode();
    bytes.extend_from_slice(&b.encode());
    let mut buf = FrameBuffer::new();
    buf.extend(&bytes);
    assert_eq!(buf.parse_frame().unwrap(), Some(a));
    assert_eq!(buf.parse_frame().unwrap(), Some(b));
    assert!(buf.is_empty());
    assert_eq!(buf.parse_frame().unwrap(), None);
}

#[test]
fn test_malformed_type_byte() {
    let mut buf = FrameBuffer::new();
    buf.extend(b"!boom\r\n");
    assert_eq!(buf.parse_frame(), Err(FrameError::Protocol));
}

#[test]
fn test_malformed_bulk_length() {
    let mut buf = FrameBuffer::new();
    buf.extend(b"$12x\r\nabc\r\n");
    assert_eq!(buf.parse_frame(), Err(FrameError::Protocol));
}

#[test]
fn test_malformed_bulk_trailer() {
    let mut buf = FrameBuffer::new();
    buf.extend(b"$2\r\nabcd\r\n");
    assert_eq!(buf.parse_frame(), Err(FrameError::Protocol));
}

#[test]
fn test_malformed_integer() {
    let mut buf = FrameBuffer::new();
    buf.extend(b":12a\r\n");
    assert_eq!(buf.parse_frame(), Err(FrameError::Protocol));
    let mut buf = FrameBuffer::new();
    buf.extend(b":9223372036854775808\r\n");
    assert_eq!(buf.parse_frame(), Err(FrameError::Protocol));
}

#[test]
fn test_truncated_bulk_reports_incomplete() {
    // A bulk frame that declares more bytes than will ever arrive: the
    // buffer keeps asking for more; when the peer then closes with bytes
    // still buffered, the session layer reports a reset instead of hanging.
    let mut buf = FrameBuffer::new();
    buf.extend(b"$100\r\nonly a few bytes");
    assert_eq!(buf.parse_frame().unwrap(), None);
    assert!(!buf.is_empty());
}

#[test]
fn test_check_reports_frame_length() {
    let frame = Frame::Array(vec![Frame::Bulk(b"GET".to_vec()), Frame::Bulk(b"k".to_vec())]);
    let mut bytes = frame.encode();
    let frame_len = bytes.len();
    bytes.extend_from_slice(b"+trailing\r\n");
    assert_eq!(Frame::check(&bytes), Ok(frame_len));
    let (parsed, consumed) = Frame::parse(&bytes).unwrap();
    assert_eq!(parsed, frame);
    assert_eq!(consumed, frame_len);
}

#[test]
fn test_check_incomplete_and_malformed() {
    assert_eq!(Frame::check(&b"*2\r\n$3\r\nGE".to_vec()), Err(FrameError::Incomplete));
    assert_eq!(Frame::check(&b"*1\r\n?\r\n".to_vec()), Err(FrameError::Protocol));
}

#[test]
fn test_simple_frame_rejects_invalid_utf8() {
    // The content of a simple or error frame is text; bytes that are no
    // UTF-8 are a protocol error, both for the scan and for the parse.
    let bytes = b"+\xff\xfe\r\n".to_vec();
    assert_eq!(Frame::check(&bytes), Err(FrameError::Protocol));
    assert!(Frame::parse(&bytes).is_err());
}

#[test]
fn test_simple_frame_utf8_text() {
    let text = "héllo wörld";
    let mut bytes = vec![b'+'];
    bytes.extend_from_slice(text.as_bytes());
    bytes.extend_from_slice(b"\r\n");
    let (parsed, consumed) = Frame::parse(&bytes).unwrap();
    assert_eq!(parsed, Frame::Simple(text.to_string()));
    assert_eq!(consumed, bytes.len());
}
