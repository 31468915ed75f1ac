use bytes::Bytes;
use uranus::{parse_decimal, write_scalar, Cursor, Frame, FrameError, ReadBuffer, ReadError};

fn decode(bytes: &[u8]) -> Result<Option<Frame>, FrameError> {
    let mut cursor = Cursor::new(bytes);
    Frame::parse(&mut cursor)
}

fn text(s: &str) -> Frame {
    Frame::Text(s.to_string())
}

#[test]
fn lib_test_array_frame() {
    let literal_frame = b"*2\r\n+SET\r\n+123\r\n";
    let mut cursor = Cursor::new(literal_frame);
    let parsed_frame = Frame::parse(&mut cursor).unwrap().unwrap();
    let arr_frames = Frame::Array(vec![
        Frame::Text("SET".to_string()),
        Frame::Text("123".to_string()),
    ]);
    assert_eq!(parsed_frame, arr_frames)
}

#[test]
fn encode_array_of_texts() {
    let frame = Frame::Array(vec![text("SET"), text("123")]);
    let bytes = frame.encode().unwrap();
    assert_eq!(bytes, b"*2\r\n+SET\r\n+123\r\n".to_vec());
    assert_eq!(decode(&bytes).unwrap().unwrap(), frame);
}

#[test]
fn encode_each_scalar() {
    assert_eq!(text("hi").encode().unwrap(), b"+hi\r\n".to_vec());
    assert_eq!(Frame::Error("bad".to_string()).encode().unwrap(), b"-bad\r\n".to_vec());
    let bin = Frame::Binary(Bytes::from_static(b"a\r\nb"));
    assert_eq!(bin.encode().unwrap(), b"$4\r\na\r\nb\r\n".to_vec());
    let empty = Frame::Binary(Bytes::new());
    assert_eq!(empty.encode().unwrap(), b"$0\r\n\r\n".to_vec());
    assert_eq!(Frame::Array(vec![]).encode().unwrap(), b"*0\r\n".to_vec());
}

#[test]
fn long_binary_length_is_decimal() {
    let data = vec![7u8; 1234];
    let frame = Frame::Binary(Bytes::from(data.clone()));
    let bytes = frame.encode().unwrap();
    assert_eq!(&bytes[..7], b"$1234\r\n");
    assert_eq!(bytes.len(), 7 + 1234 + 2);
    assert_eq!(decode(&bytes).unwrap().unwrap(), frame);
}

#[test]
fn round_trip_of_every_kind() {
    let frames = vec![
        text(""),
        text("héllo wörld"),
        text("a\rb\nc\r"),
        Frame::Error("ERR wrong".to_string()),
        Frame::Binary(Bytes::from_static(&[0, 255, 13, 10, 36])),
        Frame::Array(vec![
            text("x"),
            Frame::Error("e".to_string()),
            Frame::Binary(Bytes::from_static(b"\r\n")),
        ]),
    ];
    for f in frames {
        let bytes = f.encode().unwrap();
        let mut cursor = Cursor::new(&bytes);
        let back = Frame::parse(&mut cursor).unwrap().unwrap();
        assert_eq!(back, f);
        assert_eq!(cursor.position(), bytes.len());
    }
}

#[test]
fn text_with_crlf_does_not_round_trip() {
    let f = text("a\r\nb");
    let bytes = f.encode().unwrap();
    assert_eq!(bytes, b"+a\r\nb\r\n".to_vec());
    assert_eq!(decode(&bytes).unwrap().unwrap(), text("a"));
}

#[test]
fn nested_array_is_refused_both_ways() {
    let nested = Frame::Array(vec![text("a"), Frame::Array(vec![])]);
    assert_eq!(nested.encode(), Err(FrameError::Recursive));
    assert_eq!(decode(b"*1\r\n*0\r\n"), Err(FrameError::Recursive));
    let mut cursor = Cursor::new(b"*1\r\n*0\r\n");
    assert_eq!(Frame::check(&mut cursor), Err(FrameError::Recursive));
}

#[test]
fn null_has_no_wire_form() {
    assert_eq!(Frame::Null.encode(), Err(FrameError::Unsupported));
    assert_eq!(Frame::Array(vec![text("a"), Frame::Null]).encode(), Err(FrameError::Unsupported));
    let mut out = Vec::new();
    assert_eq!(write_scalar(&Frame::Null, &mut out), Err(FrameError::Unsupported));
    assert!(out.is_empty());
}

#[test]
fn first_bad_element_decides_encode_error() {
    let f = Frame::Array(vec![Frame::Null, Frame::Array(vec![])]);
    assert_eq!(f.encode(), Err(FrameError::Unsupported));
    let g = Frame::Array(vec![Frame::Array(vec![]), Frame::Null]);
    assert_eq!(g.encode(), Err(FrameError::Recursive));
}

#[test]
fn write_scalar_appends() {
    let mut out = b"xy".to_vec();
    write_scalar(&text("ok"), &mut out).unwrap();
    assert_eq!(out, b"xy+ok\r\n".to_vec());
    assert_eq!(write_scalar(&Frame::Array(vec![]), &mut out), Err(FrameError::Recursive));
    assert_eq!(out, b"xy+ok\r\n".to_vec());
}

#[test]
fn no_bytes_is_no_frame() {
    assert_eq!(decode(b""), Ok(None));
    let mut cursor = Cursor::new(b"");
    assert_eq!(Frame::check(&mut cursor), Ok(None));
}

#[test]
fn truncated_frames_are_incomplete() {
    assert_eq!(decode(b"+SE"), Err(FrameError::Incomplete));
    assert_eq!(decode(b"$5\r\nabc"), Err(FrameError::Incomplete));
    assert_eq!(decode(b"$5"), Err(FrameError::Incomplete));
    assert_eq!(decode(b"*2\r\n+SET\r\n"), Err(FrameError::Incomplete));
    assert_eq!(decode(b"*2\r\n+SET\r\n+1"), Err(FrameError::Incomplete));
}

#[test]
fn malformed_frames_are_errors() {
    assert_eq!(decode(b"?x\r\n"), Err(FrameError::UnknownType));
    assert_eq!(decode(b"$x\r\n"), Err(FrameError::InvalidLength));
    assert_eq!(decode(b"$\r\n"), Err(FrameError::InvalidLength));
    assert_eq!(decode(b"*-1\r\n"), Err(FrameError::InvalidLength));
    assert_eq!(decode(b"+\xff\r\n"), Err(FrameError::InvalidUtf8));
    assert_eq!(decode(b"-\xc3\r\n"), Err(FrameError::InvalidUtf8));
    assert_eq!(decode(b"$3\r\nabcXY"), Err(FrameError::MissingCrlf));
}

#[test]
fn check_and_parse_agree_on_length() {
    let bytes = b"*2\r\n$3\r\nabc\r\n-no\r\n+next\r\n";
    let mut a = Cursor::new(bytes);
    assert_eq!(Frame::check(&mut a), Ok(Some(())));
    let mut b = Cursor::new(bytes);
    let f = Frame::parse(&mut b).unwrap().unwrap();
    assert_eq!(a.position(), b.position());
    assert_eq!(a.position(), 18);
    assert_eq!(
        f,
        Frame::Array(vec![Frame::Binary(Bytes::from_static(b"abc")), Frame::Error("no".to_string())])
    );
    assert_eq!(Frame::parse(&mut b), Ok(Some(text("next"))));
    assert_eq!(Frame::parse(&mut b), Ok(None));
}

#[test]
fn decimals() {
    assert_eq!(parse_decimal(b"0"), Ok(0));
    assert_eq!(parse_decimal(b"007"), Ok(7));
    assert_eq!(parse_decimal(b"18446744073709551615"), Ok(u64::MAX));
    assert_eq!(parse_decimal(b"18446744073709551616"), Err(FrameError::InvalidLength));
    assert_eq!(parse_decimal(b"99999999999999999999x"), Err(FrameError::InvalidLength));
    assert_eq!(parse_decimal(b"+5"), Err(FrameError::InvalidLength));
    assert_eq!(parse_decimal(b""), Err(FrameError::InvalidLength));
}

#[test]
fn split_delivery_at_every_point() {
    let frame = Frame::Array(vec![
        text("set"),
        text("key"),
        Frame::Binary(Bytes::from_static(b"v\r\nal")),
    ]);
    let bytes = frame.encode().unwrap();
    for k in 0..=bytes.len() {
        let mut reader = ReadBuffer::new();
        reader.receive(&bytes[..k]);
        if k < bytes.len() {
            assert_eq!(reader.parse_frame(), Ok(None));
        }
        reader.receive(&bytes[k..]);
        let got = reader.parse_frame().unwrap().unwrap();
        assert_eq!(got, frame);
        assert!(reader.is_empty());
    }
}

#[test]
fn pipelined_frames_stay_buffered() {
    let mut reader = ReadBuffer::new();
    reader.receive(b"+one\r\n+two\r\n+thr");
    assert_eq!(reader.parse_frame(), Ok(Some(text("one"))));
    assert_eq!(reader.parse_frame(), Ok(Some(text("two"))));
    assert_eq!(reader.parse_frame(), Ok(None));
    reader.receive(b"ee\r\n");
    assert_eq!(reader.parse_frame(), Ok(Some(text("three"))));
    assert_eq!(reader.parse_frame(), Ok(None));
}

#[test]
fn protocol_error_keeps_buffer() {
    let mut reader = ReadBuffer::new();
    reader.receive(b"!oops\r\n");
    assert_eq!(reader.parse_frame(), Err(FrameError::UnknownType));
    assert!(!reader.is_empty());
}

#[test]
fn close_with_nothing_buffered_is_clean() {
    let reader = ReadBuffer::new();
    assert_eq!(reader.end_of_stream(), Ok(None));
}

#[test]
fn close_mid_frame_is_reset() {
    let mut reader = ReadBuffer::new();
    reader.receive(b"$10\r\nabc");
    assert_eq!(reader.parse_frame(), Ok(None));
    assert_eq!(reader.end_of_stream(), Err(ReadError::ConnectionReset));
}

#[test]
fn display_strings() {
    assert_eq!(text("hi").to_display_string(), "hi");
    assert_eq!(Frame::Error("no".to_string()).to_display_string(), "error: no");
    assert_eq!(Frame::Binary(Bytes::from_static(&[0x0a, 0xff, 0x00])).to_display_string(), "0aff00");
    assert_eq!(Frame::Null.to_display_string(), "(nil)");
    let arr = Frame::Array(vec![text("a"), Frame::Null, Frame::Array(vec![text("b"), text("c")])]);
    assert_eq!(arr.to_display_string(), "a (nil) b c");
    assert_eq!(Frame::Array(vec![]).to_display_string(), "");
}
