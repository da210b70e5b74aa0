use rutis::frame::{Frame, FrameError};
use rutis::connection::{Connection, ConnError};

fn parse_all(bytes: &[u8]) -> (Result<Frame, FrameError>, usize) {
    let mut pos: usize = 0;
    let r = Frame::parse(bytes, &mut pos);
    (r, pos)
}

#[test]
fn literal_scenario_decode() {
    let (r, pos) = parse_all(b"+PONG\r\n");
    assert_eq!(r, Ok(Frame::SimpleString(String::from("PONG"))));
    assert_eq!(pos, 7);
}

#[test]
fn literal_scenario_encode() {
    let f = Frame::SimpleString(String::from("PONG"));
    assert_eq!(f.encode(), b"+PONG\r\n".to_vec());
}

#[test]
fn incomplete_is_idempotent() {
    let buf = b"+OK\r".to_vec();
    let (r1, p1) = parse_all(&buf);
    assert_eq!(r1, Err(FrameError::Incomplete));
    assert_eq!(p1, 0);
    assert_eq!(buf, b"+OK\r".to_vec());
    let (r2, p2) = parse_all(&buf);
    assert_eq!(r2, Err(FrameError::Incomplete));
    assert_eq!(p2, 0);
}

#[test]
fn lone_cr_is_not_a_terminator() {
    let (r, _) = parse_all(b"+OK\r");
    assert_eq!(r, Err(FrameError::Incomplete));
    let (r2, pos2) = parse_all(b"+OK\r\n");
    assert_eq!(r2, Ok(Frame::SimpleString(String::from("OK"))));
    assert_eq!(pos2, 5);
}

#[test]
fn error_frame_round_trip() {
    let f = Frame::Error(String::from("ERR unknown"));
    let enc = f.encode();
    assert_eq!(enc, b"-ERR unknown\r\n".to_vec());
    let (r, pos) = parse_all(&enc);
    assert_eq!(r, Ok(f));
    assert_eq!(pos, enc.len());
}

#[test]
fn integer_round_trip() {
    for v in [0i64, 7, 123, -45, i64::MAX, i64::MIN] {
        let f = Frame::Integer(v);
        let enc = f.encode();
        let (r, pos) = parse_all(&enc);
        assert_eq!(r, Ok(Frame::Integer(v)));
        assert_eq!(pos, enc.len());
    }
}

#[test]
fn integer_exact_bytes() {
    assert_eq!(Frame::Integer(123).encode(), b":123\r\n".to_vec());
    assert_eq!(Frame::Integer(-45).encode(), b":-45\r\n".to_vec());
    assert_eq!(Frame::Integer(0).encode(), b":0\r\n".to_vec());
    assert_eq!(
        Frame::Integer(i64::MIN).encode(),
        b":-9223372036854775808\r\n".to_vec()
    );
}

#[test]
fn integer_parse_accepts_leading_zeros() {
    let (r, pos) = parse_all(b":007\r\n");
    assert_eq!(r, Ok(Frame::Integer(7)));
    assert_eq!(pos, 6);
}

#[test]
fn integer_parse_rejects_garbage() {
    let (r, _) = parse_all(b":abc\r\n");
    assert_eq!(r, Err(FrameError::Protocol));
    let (r2, _) = parse_all(b":\r\n");
    assert_eq!(r2, Err(FrameError::Protocol));
    let (r3, _) = parse_all(b":-\r\n");
    assert_eq!(r3, Err(FrameError::Protocol));
    let (r4, _) = parse_all(b":1-2\r\n");
    assert_eq!(r4, Err(FrameError::Protocol));
}

#[test]
fn integer_parse_rejects_out_of_range() {
    let (r, _) = parse_all(b":9223372036854775808\r\n");
    assert_eq!(r, Err(FrameError::Protocol));
    let (r2, _) = parse_all(b":-9223372036854775809\r\n");
    assert_eq!(r2, Err(FrameError::Protocol));
    let (r3, _) = parse_all(b":9223372036854775807\r\n");
    assert_eq!(r3, Ok(Frame::Integer(i64::MAX)));
}

#[test]
fn bulk_string_round_trip() {
    let f = Frame::BulkString(b"hello".to_vec());
    let enc = f.encode();
    assert_eq!(enc, b"$5\r\nhello\r\n".to_vec());
    let (r, pos) = parse_all(&enc);
    assert_eq!(r, Ok(f));
    assert_eq!(pos, enc.len());
}

#[test]
fn bulk_string_may_contain_crlf() {
    let f = Frame::BulkString(b"a\r\nb".to_vec());
    let enc = f.encode();
    assert_eq!(enc, b"$4\r\na\r\nb\r\n".to_vec());
    let (r, pos) = parse_all(&enc);
    assert_eq!(r, Ok(f));
    assert_eq!(pos, enc.len());
}

#[test]
fn empty_bulk_string() {
    let f = Frame::BulkString(Vec::new());
    let enc = f.encode();
    assert_eq!(enc, b"$0\r\n\r\n".to_vec());
    let (r, pos) = parse_all(&enc);
    assert_eq!(r, Ok(f));
    assert_eq!(pos, 6);
}

#[test]
fn bulk_string_incomplete() {
    let (r, _) = parse_all(b"$5\r\nab");
    assert_eq!(r, Err(FrameError::Incomplete));
    let (r2, _) = parse_all(b"$5\r\nhello");
    assert_eq!(r2, Err(FrameError::Incomplete));
    let (r3, _) = parse_all(b"$5\r\nhello\r");
    assert_eq!(r3, Err(FrameError::Incomplete));
}

#[test]
fn bulk_string_bad_trailer() {
    let (r, _) = parse_all(b"$2\r\nabXY");
    assert_eq!(r, Err(FrameError::Protocol));
}

#[test]
fn null_round_trip() {
    let enc = Frame::Null.encode();
    assert_eq!(enc, b"$-1\r\n".to_vec());
    let (r, pos) = parse_all(&enc);
    assert_eq!(r, Ok(Frame::Null));
    assert_eq!(pos, 5);
}

#[test]
fn negative_length_is_null() {
    let (r, pos) = parse_all(b"$-1\r\n");
    assert_eq!(r, Ok(Frame::Null));
    assert_eq!(pos, 5);
    let (r2, pos2) = parse_all(b"*-1\r\n");
    assert_eq!(r2, Ok(Frame::Null));
    assert_eq!(pos2, 5);
    let (r3, _) = parse_all(b"$-7\r\n");
    assert_eq!(r3, Ok(Frame::Null));
}

#[test]
fn array_round_trip() {
    let f = Frame::Array(vec![
        Frame::SimpleString(String::from("a")),
        Frame::Integer(5),
    ]);
    let enc = f.encode();
    assert_eq!(enc, b"*2\r\n+a\r\n:5\r\n".to_vec());
    let (r, pos) = parse_all(&enc);
    assert_eq!(r, Ok(f));
    assert_eq!(pos, enc.len());
}

#[test]
fn nested_array_round_trip() {
    let f = Frame::Array(vec![
        Frame::Array(vec![Frame::Integer(1), Frame::Integer(2)]),
        Frame::BulkString(b"xy".to_vec()),
        Frame::Null,
    ]);
    let enc = f.encode();
    let (r, pos) = parse_all(&enc);
    assert_eq!(r, Ok(f));
    assert_eq!(pos, enc.len());
}

#[test]
fn empty_array_round_trip() {
    let f = Frame::Array(Vec::new());
    let enc = f.encode();
    assert_eq!(enc, b"*0\r\n".to_vec());
    let (r, pos) = parse_all(&enc);
    assert_eq!(r, Ok(f));
    assert_eq!(pos, 4);
}

#[test]
fn array_incomplete_element() {
    let (r, _) = parse_all(b"*2\r\n+a\r\n");
    assert_eq!(r, Err(FrameError::Incomplete));
    let (r2, _) = parse_all(b"*1\r\n+a\r");
    assert_eq!(r2, Err(FrameError::Incomplete));
}

#[test]
fn array_malformed_element() {
    let (r, _) = parse_all(b"*1\r\n?a\r\n");
    assert_eq!(r, Err(FrameError::Protocol));
}

#[test]
fn length_line_must_be_an_integer() {
    let (r, _) = parse_all(b"$+1\r\nx\r\n");
    assert_eq!(r, Err(FrameError::Protocol));
    let (r2, _) = parse_all(b"$two\r\n");
    assert_eq!(r2, Err(FrameError::Protocol));
    let (r3, _) = parse_all(b"*99999999999999999999\r\n");
    assert_eq!(r3, Err(FrameError::Protocol));
}

#[test]
fn integer_line_rejects_spaces() {
    let (r, _) = parse_all(b":5 \r\n");
    assert_eq!(r, Err(FrameError::Protocol));
    let (r2, _) = parse_all(b": 5\r\n");
    assert_eq!(r2, Err(FrameError::Protocol));
}

#[test]
fn unknown_marker_is_protocol_error() {
    let (r, _) = parse_all(b"?x\r\n");
    assert_eq!(r, Err(FrameError::Protocol));
}

#[test]
fn invalid_utf8_text_is_protocol_error() {
    let (r, _) = parse_all(b"+\xff\xfe\r\n");
    assert_eq!(r, Err(FrameError::Protocol));
}

#[test]
fn utf8_text_round_trip() {
    let f = Frame::SimpleString(String::from("caf\u{e9} \u{4e16}\u{754c}"));
    let enc = f.encode();
    let (r, pos) = parse_all(&enc);
    assert_eq!(r, Ok(f));
    assert_eq!(pos, enc.len());
}

#[test]
fn empty_buffer_is_incomplete() {
    let (r, pos) = parse_all(b"");
    assert_eq!(r, Err(FrameError::Incomplete));
    assert_eq!(pos, 0);
}

#[test]
fn parse_stops_at_frame_boundary() {
    let (r, pos) = parse_all(b"+one\r\n+two\r\n");
    assert_eq!(r, Ok(Frame::SimpleString(String::from("one"))));
    assert_eq!(pos, 6);
}

#[test]
fn connection_streaming_split_equals_whole() {
    let whole = Frame::BulkString(b"abc".to_vec()).encode();
    for cut in 0..whole.len() {
        let mut conn = Connection::new();
        conn.feed(&whole[..cut]);
        if cut < whole.len() {
            assert_eq!(conn.parse_frame(), Ok(None));
        }
        conn.feed(&whole[cut..]);
        assert_eq!(
            conn.parse_frame(),
            Ok(Some(Frame::BulkString(b"abc".to_vec())))
        );
    }
    let mut conn = Connection::new();
    conn.feed(&whole);
    assert_eq!(
        conn.parse_frame(),
        Ok(Some(Frame::BulkString(b"abc".to_vec())))
    );
}

#[test]
fn connection_consumes_only_one_frame() {
    let mut conn = Connection::new();
    conn.feed(b"+a\r\n:9\r\n");
    assert_eq!(
        conn.parse_frame(),
        Ok(Some(Frame::SimpleString(String::from("a"))))
    );
    assert_eq!(conn.parse_frame(), Ok(Some(Frame::Integer(9))));
    assert_eq!(conn.parse_frame(), Ok(None));
}

#[test]
fn connection_protocol_error_surfaces() {
    let mut conn = Connection::new();
    conn.feed(b"!bad\r\n");
    assert_eq!(conn.parse_frame(), Err(ConnError::Protocol));
}

#[test]
fn peer_close_with_empty_buffer_is_clean() {
    let conn = Connection::new();
    assert_eq!(conn.on_peer_close(), Ok(()));
}

#[test]
fn peer_close_mid_frame_is_reset() {
    let mut conn = Connection::new();
    conn.feed(b"+par");
    assert_eq!(conn.parse_frame(), Ok(None));
    assert_eq!(conn.on_peer_close(), Err(ConnError::Reset));
}

#[test]
fn write_frame_queues_and_take_send_drains() {
    let mut conn = Connection::new();
    conn.write_frame(&Frame::SimpleString(String::from("OK")));
    conn.write_frame(&Frame::Integer(3));
    let out = conn.take_send();
    assert_eq!(out, b"+OK\r\n:3\r\n".to_vec());
    assert_eq!(conn.take_send(), Vec::<u8>::new());
}
