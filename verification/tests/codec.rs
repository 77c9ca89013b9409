//! The frame codec at the byte level: decoding, strictness, and round trips.

use mini_redis::frame::extract_frame;
use mini_redis::frame::get_line;
use mini_redis::frame::get_u8;
use mini_redis::frame::peek_u8;
use mini_redis::frame::skip;
use mini_redis::frame::write_decimal;
use mini_redis::frame::write_frame;
use mini_redis::frame::Error;
use mini_redis::frame::Extracted;
use mini_redis::frame::Frame;

fn encode(f: &Frame) -> Vec<u8> {
    let mut out: Vec<u8> = Vec::new();
    write_frame(&mut out, f);
    out
}

fn decode_all(input: &[u8]) -> Frame {
    match extract_frame(input) {
        Extracted::Complete(f, n) => {
            assert_eq!(n, input.len());
            f
        }
        _ => panic!("expected one complete frame"),
    }
}

fn is_incomplete(input: &[u8]) -> bool {
    matches!(extract_frame(input), Extracted::Incomplete)
}

fn is_malformed(input: &[u8]) -> bool {
    matches!(extract_frame(input), Extracted::Malformed)
}

#[test]
fn encode_simple_error_integer_null() {
    assert_eq!(encode(&Frame::Simple(b"OK".to_vec())), b"+OK\r\n");
    assert_eq!(encode(&Frame::Error(b"oops".to_vec())), b"-oops\r\n");
    assert_eq!(encode(&Frame::Integer(0)), b":0\r\n");
    assert_eq!(encode(&Frame::Integer(18446744073709551615)), b":18446744073709551615\r\n");
    assert_eq!(encode(&Frame::Null), b"$-1\r\n");
}

#[test]
fn encode_bulk_and_array() {
    let bulk = Frame::Bulk(bytes::Bytes::from(b"hello".to_vec()));
    assert_eq!(encode(&bulk), b"$5\r\nhello\r\n");
    let arr = Frame::Array(vec![
        Frame::Bulk(bytes::Bytes::from(b"get".to_vec())),
        Frame::Bulk(bytes::Bytes::from(b"hello".to_vec())),
    ]);
    assert_eq!(encode(&arr), b"*2\r\n$3\r\nget\r\n$5\r\nhello\r\n");
}

#[test]
fn write_decimal_digits() {
    let mut out: Vec<u8> = Vec::new();
    write_decimal(&mut out, 10570);
    assert_eq!(out, b"10570\r\n");
}

#[test]
fn decode_round_trips_every_shape() {
    for wire in [
        &b"+PONG\r\n"[..],
        b"-ERR x\r\n",
        b":42\r\n",
        b"$0\r\n\r\n",
        b"$5\r\nworld\r\n",
        b"$-1\r\n",
        b"*0\r\n",
        b"*2\r\n$3\r\nfoo\r\n:7\r\n",
    ] {
        let frame = decode_all(wire);
        assert_eq!(encode(&frame), wire);
    }
}

#[test]
fn decode_nested_array() {
    // The server never emits nested arrays but must decode them.
    let wire = b"*2\r\n*1\r\n:1\r\n$1\r\nx\r\n";
    match decode_all(wire) {
        Frame::Array(elems) => {
            assert_eq!(elems.len(), 2);
            assert!(matches!(elems[0], Frame::Array(_)));
        }
        _ => panic!("expected an array"),
    }
}

#[test]
fn partial_frames_are_incomplete() {
    assert!(is_incomplete(b""));
    assert!(is_incomplete(b"+OK"));
    assert!(is_incomplete(b":12"));
    assert!(is_incomplete(b"$5\r\nwor"));
    assert!(is_incomplete(b"$5\r\nworld"));
    assert!(is_incomplete(b"*2\r\n$3\r\nget\r\n"));
    // A bulk whose declared length exceeds the buffered bytes waits for more.
    assert!(is_incomplete(b"$10\r\nabc"));
    // A partial null is still awaited.
    assert!(is_incomplete(b"$-"));
    assert!(is_incomplete(b"$-1\r"));
}

#[test]
fn malformed_frames_are_fatal() {
    // An unknown leading byte.
    assert!(is_malformed(b"%3\r\n"));
    // Signs and leading zeros are not strict decimals.
    assert!(is_malformed(b":+1\r\n"));
    assert!(is_malformed(b":007\r\n"));
    assert!(is_malformed(b":-1\r\n"));
    // Decimal overflow of a u64.
    assert!(is_malformed(b":18446744073709551616\r\n"));
    // A complete $- line other than -1 is fatal, not retried.
    assert!(is_malformed(b"$-2\r\n"));
    assert!(is_malformed(b"$-12\r\n"));
    // The bulk payload must be closed by CRLF.
    assert!(is_malformed(b"$3\r\nabcXY"));
}

#[test]
fn trailing_bytes_stay_buffered() {
    let wire = b"+OK\r\n:1\r\n";
    match extract_frame(wire) {
        Extracted::Complete(f, n) => {
            assert_eq!(n, 5);
            assert_eq!(encode(&f), b"+OK\r\n");
        }
        _ => panic!("expected one complete frame"),
    }
}

#[test]
fn cursor_helpers() {
    let src = b"ab\r\ncd";
    let mut pos: usize = 0;
    assert!(matches!(peek_u8(src, pos), Ok(97)));
    assert!(matches!(get_u8(src, &mut pos), Ok(97)));
    assert_eq!(pos, 1);
    assert!(matches!(skip(src, &mut pos, 1), Ok(())));
    assert_eq!(pos, 2);
    pos = 0;
    let line = get_line(src, &mut pos).unwrap();
    assert_eq!(line, b"ab");
    assert_eq!(pos, 4);
    // No further CRLF: incomplete.
    assert!(matches!(get_line(src, &mut pos), Err(Error::Incomplete)));
}
