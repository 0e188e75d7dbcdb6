use simple_redis::decode::{decode, Decoded, ProtocolError};
use simple_redis::encode::encode;
use simple_redis::frame::Frame;
use simple_redis::table::TableBuilder;

/// The signed literal the encoder renders a double as: scientific notation
/// with explicit signs outside `1e-8 ..= 1e8`, fixed-point otherwise.
fn double_frame(x: f64) -> Frame {
    let text = if x.abs() > 1e8 || x.abs() < 1e-8 {
        format!("{:+e}", x)
    } else if x < 0.0 {
        format!("{}", x)
    } else {
        format!("+{}", x)
    };
    Frame::Double(text.into_bytes())
}

#[test]
fn test_simple_string_encode() {
    let frame = Frame::SimpleString(b"OK".to_vec());
    assert_eq!(encode(&frame), b"+OK\r\n");
}

#[test]
fn test_simple_error_encode() {
    let frame = Frame::SimpleError(b"ERR message".to_vec());
    assert_eq!(encode(&frame), b"-ERR message\r\n");
}

#[test]
fn test_integer_encode() {
    let frame = Frame::Integer(100);
    assert_eq!(encode(&frame), b":+100\r\n");

    let frame = Frame::Integer(-100);
    assert_eq!(encode(&frame), b":-100\r\n");
}

#[test]
fn test_bulk_string_encode() {
    let frame = Frame::BulkString(b"foobar".to_vec());
    assert_eq!(encode(&frame), b"$6\r\nfoobar\r\n");
}

#[test]
fn test_null_bulk_string_encode() {
    let frame = Frame::NullBulkString;
    assert_eq!(encode(&frame), b"$-1\r\n");
}

#[test]
fn test_array_encode() {
    let frame = Frame::Array(vec![
        Frame::SimpleString(b"foo".to_vec()),
        Frame::SimpleString(b"bar".to_vec()),
        Frame::BulkString(b"foobar".to_vec()),
    ]);
    assert_eq!(encode(&frame), b"*3\r\n+foo\r\n+bar\r\n$6\r\nfoobar\r\n");
}

#[test]
fn test_null_array_encode() {
    let frame = Frame::NullArray;
    assert_eq!(encode(&frame), b"*-1\r\n");
}

#[test]
fn test_null_encode() {
    let frame = Frame::Null;
    assert_eq!(encode(&frame), b"_\r\n");
}

#[test]
fn test_bool_encode() {
    let frame = Frame::Boolean(true);
    assert_eq!(encode(&frame), b"#t\r\n");

    let frame = Frame::Boolean(false);
    assert_eq!(encode(&frame), b"#f\r\n");
}

#[test]
fn test_double_encode() {
    let frame = double_frame(3.44);
    assert_eq!(encode(&frame), b",+3.44\r\n");

    let frame = double_frame(-3.44);
    assert_eq!(encode(&frame), b",-3.44\r\n");

    let frame = double_frame(1.23456e+8);
    assert_eq!(encode(&frame), b",+1.23456e8\r\n");

    let frame = double_frame(-1.23456e-9);
    assert_eq!(encode(&frame), b",-1.23456e-9\r\n");
}

#[test]
fn test_map_encode() {
    let mut map = TableBuilder::new();
    map.insert(b"foo".to_vec(), Frame::SimpleString(b"bar".to_vec()));
    map.insert(b"bar".to_vec(), double_frame(-1234.678));

    let frame = map.into_frame();
    assert_eq!(encode(&frame), b"%2\r\n+bar\r\n,-1234.678\r\n+foo\r\n+bar\r\n");
}

#[test]
fn test_set_encode() {
    let frame = Frame::Distinct(vec![
        Frame::SimpleString(b"foo".to_vec()),
        Frame::BulkString(b"foobar".to_vec()),
    ]);
    assert_eq!(encode(&frame), b"~2\r\n+foo\r\n$6\r\nfoobar\r\n");
}

#[test]
fn test_round_trip_nested() {
    let mut map = TableBuilder::new();
    map.insert(b"hello".to_vec(), Frame::BulkString(b"world".to_vec()));
    let frame = Frame::Array(vec![
        Frame::SimpleString(b"ok".to_vec()),
        Frame::Integer(-42),
        Frame::BulkString(b"bin\r\n\x00ary".to_vec()),
        Frame::NullBulkString,
        Frame::Boolean(false),
        Frame::Null,
        Frame::NullArray,
        double_frame(2.5),
        map.into_frame(),
        Frame::Distinct(vec![Frame::Integer(7)]),
    ]);
    let bytes = encode(&frame);
    match decode(&bytes) {
        Decoded::Complete(back, used) => {
            assert_eq!(back, frame);
            assert_eq!(used, bytes.len());
        }
        other => panic!("expected a complete frame, got {:?}", other),
    }
}

#[test]
fn test_every_strict_prefix_is_incomplete() {
    let frame = Frame::Array(vec![
        Frame::BulkString(b"abc".to_vec()),
        Frame::Integer(10),
        Frame::SimpleString(b"x".to_vec()),
    ]);
    let bytes = encode(&frame);
    for k in 0..bytes.len() {
        let prefix = bytes[..k].to_vec();
        assert_eq!(decode(&prefix), Decoded::Incomplete, "prefix length {}", k);
    }
    assert_eq!(
        decode(&bytes),
        Decoded::Complete(frame, bytes.len())
    );
}

#[test]
fn test_incremental_append_then_complete() {
    let frame = Frame::BulkString(b"stream".to_vec());
    let bytes = encode(&frame);
    let mut buf: Vec<u8> = Vec::new();
    for chunk in bytes.chunks(3) {
        assert_eq!(decode(&buf), Decoded::Incomplete);
        buf.extend_from_slice(chunk);
    }
    assert_eq!(decode(&buf), Decoded::Complete(frame, bytes.len()));
}

#[test]
fn test_double_decode_keeps_literal() {
    let buf = b",+3.44\r\n".to_vec();
    assert_eq!(
        decode(&buf),
        Decoded::Complete(Frame::Double(b"+3.44".to_vec()), 8)
    );
}

#[test]
fn test_decode_protocol_errors() {
    let buf = b"x\r\n".to_vec();
    assert_eq!(decode(&buf), Decoded::Fail(ProtocolError::BadTag));

    let buf = b":12a\r\n".to_vec();
    assert_eq!(decode(&buf), Decoded::Fail(ProtocolError::BadInteger));

    let buf = b":99999999999999999999\r\n".to_vec();
    assert_eq!(decode(&buf), Decoded::Fail(ProtocolError::BadInteger));

    let buf = b"#x\r\n".to_vec();
    assert_eq!(decode(&buf), Decoded::Fail(ProtocolError::BadBoolean));

    let buf = b",abc\r\n".to_vec();
    assert_eq!(decode(&buf), Decoded::Fail(ProtocolError::BadDouble));

    let buf = b"_x\r\n".to_vec();
    assert_eq!(decode(&buf), Decoded::Fail(ProtocolError::BadNull));

    let buf = b"$x\r\n\r\n".to_vec();
    assert_eq!(decode(&buf), Decoded::Fail(ProtocolError::BadLength));

    let buf = b"$2\r\nabXY".to_vec();
    assert_eq!(decode(&buf), Decoded::Fail(ProtocolError::BadFraming));

    let buf = b"~-1\r\n".to_vec();
    assert_eq!(decode(&buf), Decoded::Fail(ProtocolError::BadLength));

    let buf = b"%1\r\n:+1\r\n+v\r\n".to_vec();
    assert_eq!(decode(&buf), Decoded::Fail(ProtocolError::BadTableKey));
}

#[test]
fn test_decode_null_variants() {
    let buf = b"$-1\r\n".to_vec();
    assert_eq!(decode(&buf), Decoded::Complete(Frame::NullBulkString, 5));

    let buf = b"*-1\r\n".to_vec();
    assert_eq!(decode(&buf), Decoded::Complete(Frame::NullArray, 5));

    let buf = b"_\r\n".to_vec();
    assert_eq!(decode(&buf), Decoded::Complete(Frame::Null, 3));
}

#[test]
fn test_decode_leaves_trailing_bytes() {
    let buf = b"+pong\r\n:+1\r\n".to_vec();
    assert_eq!(
        decode(&buf),
        Decoded::Complete(Frame::SimpleString(b"pong".to_vec()), 7)
    );
}
