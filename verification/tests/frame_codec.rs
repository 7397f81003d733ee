use mini_redis::connection::{Connection, ConnectionError};
use mini_redis::decimal::{parse_u64, push_decimal};
use mini_redis::frame::{parse_frame, write_frame, FrameError};
use mini_redis::Frame;

fn encode(frame: &Frame) -> Vec<u8> {
    let mut out = Vec::new();
    write_frame(frame, &mut out);
    out
}

#[test]
fn encodes_each_kind_of_frame() {
    assert_eq!(encode(&Frame::Simple("OK".to_string())), b"+OK\r\n".to_vec());
    assert_eq!(encode(&Frame::Error("ERR bad".to_string())), b"-ERR bad\r\n".to_vec());
    assert_eq!(encode(&Frame::Integer(42)), b":42\r\n".to_vec());
    assert_eq!(encode(&Frame::Integer(0)), b":0\r\n".to_vec());
    assert_eq!(encode(&Frame::Bulk(b"hello".to_vec())), b"$5\r\nhello\r\n".to_vec());
    assert_eq!(encode(&Frame::Bulk(Vec::new())), b"$0\r\n\r\n".to_vec());
    assert_eq!(encode(&Frame::Null), b"$-1\r\n".to_vec());
    let array = Frame::Array(vec![Frame::Bulk(b"get".to_vec()), Frame::Bulk(b"foo".to_vec())]);
    assert_eq!(encode(&array), b"*2\r\n$3\r\nget\r\n$3\r\nfoo\r\n".to_vec());
}

#[test]
fn encodes_nested_arrays() {
    let nested = Frame::Array(vec![Frame::Array(vec![Frame::Integer(1)]), Frame::Null]);
    assert_eq!(encode(&nested), b"*2\r\n*1\r\n:1\r\n$-1\r\n".to_vec());
}

#[test]
fn decodes_what_was_encoded() {
    let frames = vec![
        Frame::Simple("PONG".to_string()),
        Frame::Error("ERR unknown command 'x'".to_string()),
        Frame::Integer(u64::MAX),
        Frame::Bulk(b"a\r\nb".to_vec()),
        Frame::Null,
        Frame::Array(vec![]),
        Frame::Array(vec![
            Frame::Bulk(b"subscribe".to_vec()),
            Frame::Simple("caf\u{e9}".to_string()),
            Frame::Array(vec![Frame::Integer(7), Frame::Null]),
        ]),
    ];
    for frame in frames {
        let mut bytes = encode(&frame);
        let n = bytes.len();
        bytes.extend_from_slice(b"+next\r\n");
        assert_eq!(parse_frame(&bytes), Ok((frame, n)));
    }
}

#[test]
fn reports_incomplete_input() {
    for partial in [&b""[..], b"+OK", b"+OK\r", b":12", b"$5\r\nhel", b"$5\r\nhello", b"$5\r\nhello\r", b"*2\r\n:1\r\n", b"*1\r\n"] {
        assert_eq!(parse_frame(partial), Err(FrameError::Incomplete), "{:?}", partial);
    }
}

#[test]
fn rejects_invalid_input() {
    for bad in [
        &b"?x\r\n"[..],
        b":012\r\n",
        b":-1\r\n",
        b":\r\n",
        b":18446744073709551616\r\n",
        b"$2\r\nabcd\r\n",
        b"$-2\r\n",
        b"+\xff\r\n",
        b"*x\r\n",
        b"*1\r\n!\r\n",
    ] {
        assert_eq!(parse_frame(bad), Err(FrameError::Invalid), "{:?}", bad);
    }
}

#[test]
fn simple_string_ends_at_first_crlf() {
    assert_eq!(parse_frame(b"+a\rb\r\n"), Ok((Frame::Simple("a\rb".to_string()), 6)));
}

#[test]
fn decimal_numerals() {
    let mut out = Vec::new();
    push_decimal(1234567890, &mut out);
    assert_eq!(out, b"1234567890".to_vec());
    let mut zero = b"x".to_vec();
    push_decimal(0, &mut zero);
    assert_eq!(zero, b"x0".to_vec());
    assert_eq!(parse_u64(b"18446744073709551615", 0, 20), Some(u64::MAX));
    assert_eq!(parse_u64(b"18446744073709551616", 0, 20), None);
    assert_eq!(parse_u64(b"[42]", 1, 3), Some(42));
    assert_eq!(parse_u64(b"007", 0, 3), None);
    assert_eq!(parse_u64(b"0", 0, 1), Some(0));
    assert_eq!(parse_u64(b"1a", 0, 2), None);
    assert_eq!(parse_u64(b"", 0, 0), None);
}

#[test]
fn connection_buffers_until_a_frame_is_complete() {
    let mut conn = Connection::new();
    assert_eq!(conn.end_of_input(), Ok(None));
    conn.receive(b"$5\r\nhel");
    assert_eq!(conn.parse_frame(), Ok(None));
    assert_eq!(conn.end_of_input(), Err(ConnectionError::ResetByPeer));
    conn.receive(b"lo\r\n:3\r\n");
    assert_eq!(conn.parse_frame(), Ok(Some(Frame::Bulk(b"hello".to_vec()))));
    assert_eq!(conn.parse_frame(), Ok(Some(Frame::Integer(3))));
    assert_eq!(conn.parse_frame(), Ok(None));
    assert_eq!(conn.end_of_input(), Ok(None));
}

#[test]
fn connection_reports_invalid_bytes() {
    let mut conn = Connection::new();
    conn.receive(b"hello\r\n");
    assert_eq!(conn.parse_frame(), Err(ConnectionError::InvalidFrame));
}

#[test]
fn connection_frame_bytes_read_back() {
    let frame = Frame::Array(vec![Frame::Bulk(b"set".to_vec()), Frame::Integer(10)]);
    let bytes = Connection::frame_bytes(&frame);
    let mut conn = Connection::new();
    conn.receive(&bytes);
    assert_eq!(conn.parse_frame(), Ok(Some(frame)));
    assert_eq!(conn.end_of_input(), Ok(None));
}
