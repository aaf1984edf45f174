//! The frame codec on the wire: decoding, encoding, and round trips.

use mini_redis::connection::{advance_buffer, parse_frame, write_frame};
use mini_redis::frame::{get_decimal, get_line, get_u8, parse_decimal, peek_u8, skip, Frame,
    FrameError};

fn encode(f: &Frame) -> Vec<u8> {
    let mut out: Vec<u8> = Vec::new();
    write_frame(&mut out, f);
    out
}

fn decode_all(bytes: &[u8]) -> (Frame, usize) {
    let buf = bytes.to_vec();
    match parse_frame(&buf) {
        Ok(Some((f, len))) => (f, len),
        other => panic!("expected a whole frame, got {:?}", other),
    }
}

#[test]
fn simple_frame_decodes() {
    let (f, len) = decode_all(b"+PONG\r\n");
    assert_eq!(f, Frame::Simple(b"PONG".to_vec()));
    assert_eq!(len, 7);
}

#[test]
fn error_frame_decodes() {
    let (f, _) = decode_all(b"-oops\r\n");
    assert_eq!(f, Frame::Error(b"oops".to_vec()));
}

#[test]
fn integer_frame_decodes() {
    let (f, _) = decode_all(b":123\r\n");
    assert_eq!(f, Frame::Integer(123));
}

#[test]
fn bulk_frame_decodes() {
    let (f, len) = decode_all(b"$5\r\nworld\r\n");
    assert_eq!(f, Frame::Bulk(b"world".to_vec()));
    assert_eq!(len, 11);
}

#[test]
fn null_frame_decodes() {
    let (f, len) = decode_all(b"$-1\r\n");
    assert_eq!(f, Frame::Null);
    assert_eq!(len, 5);
}

#[test]
fn array_frame_decodes() {
    let (f, _) = decode_all(b"*2\r\n$4\r\nping\r\n$3\r\nhey\r\n");
    assert_eq!(
        f,
        Frame::Array(vec![Frame::Bulk(b"ping".to_vec()), Frame::Bulk(b"hey".to_vec())])
    );
}

#[test]
fn bulk_payload_may_contain_crlf() {
    let (f, _) = decode_all(b"$6\r\na\r\nb\r\n\r\n");
    assert_eq!(f, Frame::Bulk(b"a\r\nb\r\n".to_vec()));
}

#[test]
fn incomplete_buffer_asks_for_more() {
    let buf = b"*2\r\n$3\r\nge".to_vec();
    assert_eq!(parse_frame(&buf), Ok(None));
    let buf = b"".to_vec();
    assert_eq!(parse_frame(&buf), Ok(None));
}

#[test]
fn invalid_type_byte_is_fatal() {
    let buf = b"x\r\n".to_vec();
    assert!(matches!(parse_frame(&buf), Err(FrameError::Other(_))));
}

#[test]
fn bad_decimal_length_is_fatal() {
    let buf = b"$abc\r\n".to_vec();
    assert!(matches!(parse_frame(&buf), Err(FrameError::Other(_))));
}

#[test]
fn encoder_output_decodes_back() {
    // the round-trip law on concrete values, one frame per variant
    let frames = vec![
        Frame::Simple(b"OK".to_vec()),
        Frame::Error(b"ERR bad".to_vec()),
        Frame::Integer(0),
        Frame::Integer(18446744073709551615),
        Frame::Bulk(b"".to_vec()),
        Frame::Bulk(b"with\r\ninside".to_vec()),
        Frame::Null,
        Frame::Array(vec![
            Frame::Bulk(b"subscribe".to_vec()),
            Frame::Bulk(b"hello".to_vec()),
            Frame::Integer(1),
        ]),
        Frame::Array(vec![]),
    ];
    for f in frames {
        let bytes = encode(&f);
        let (g, len) = decode_all(&bytes);
        assert_eq!(g, f);
        assert_eq!(len, bytes.len());
    }
}

#[test]
fn trailing_bytes_stay_in_buffer() {
    let mut buf = b"+OK\r\n:42\r\n".to_vec();
    let (f, len) = {
        match parse_frame(&buf) {
            Ok(Some(x)) => x,
            other => panic!("unexpected {:?}", other),
        }
    };
    assert_eq!(f, Frame::Simple(b"OK".to_vec()));
    advance_buffer(&mut buf, len);
    assert_eq!(buf, b":42\r\n".to_vec());
    let (g, _) = decode_all(&buf);
    assert_eq!(g, Frame::Integer(42));
}

#[test]
fn decimal_reading() {
    assert_eq!(parse_decimal(&b"123".to_vec()), Some(123));
    assert_eq!(parse_decimal(&b"0042".to_vec()), Some(42));
    assert_eq!(parse_decimal(&b"12a".to_vec()), Some(12));
    assert_eq!(parse_decimal(&b"".to_vec()), None);
    assert_eq!(parse_decimal(&b"abc".to_vec()), None);
    assert_eq!(parse_decimal(&b"18446744073709551615".to_vec()), Some(u64::MAX));
    assert_eq!(parse_decimal(&b"18446744073709551616".to_vec()), None);
}

#[test]
fn cursor_helpers_walk_the_buffer() {
    let buf = b":42\r\nrest".to_vec();
    assert_eq!(peek_u8(&buf, 0), Ok(58));
    assert_eq!(get_u8(&buf, 0), Ok((58, 1)));
    assert_eq!(get_decimal(&buf, 1), Ok((42, 5)));
    assert_eq!(get_line(&buf, 1), Ok((3, 5)));
    assert_eq!(skip(&buf, 5, 4), Ok(9));
    assert!(skip(&buf, 5, 5).is_err());
    assert!(peek_u8(&buf, 9).is_err());
    // the two decoder passes: check sizes the frame, parse builds it
    let end = Frame::check(&buf, 0).expect("a whole frame is buffered");
    assert_eq!(end, 5);
    let (f, len) = Frame::parse(&buf, 0);
    assert_eq!(f, Frame::Integer(42));
    assert_eq!(len, 5);
}
