use simple_redis::backend::{ok_frame, Backend};
use simple_redis::cmd::{Command, CommandError, HGet, HGetAll, HSet};
use simple_redis::decode::{decode, Decoded};
use simple_redis::frame::Frame;
use simple_redis::table::TableBuilder;

fn decode_one(bytes: &[u8]) -> Frame {
    let buf = bytes.to_vec();
    match decode(&buf) {
        Decoded::Complete(frame, used) => {
            assert_eq!(used, buf.len());
            frame
        }
        other => panic!("expected a complete frame, got {:?}", other),
    }
}

#[test]
fn test_hget_from_resp_array() {
    let frame = decode_one(b"*3\r\n$4\r\nhget\r\n$3\r\nkey\r\n$5\r\nfield\r\n");
    let result = HGet::try_parse(&frame).unwrap();
    assert_eq!(result.key, b"key".to_vec());
    assert_eq!(result.field, b"field".to_vec());
}

#[test]
fn test_hgetall_from_resp_array() {
    let frame = decode_one(b"*2\r\n$7\r\nhgetall\r\n$3\r\nkey\r\n");
    let result = HGetAll::try_parse(&frame).unwrap();
    assert_eq!(result.key, b"key".to_vec());
}

#[test]
fn test_hset_from_resp_array() {
    let frame = decode_one(b"*4\r\n$4\r\nhset\r\n$3\r\nkey\r\n$5\r\nfield\r\n$5\r\nvalue\r\n");
    let result = HSet::try_parse(&frame).unwrap();
    assert_eq!(result.key, b"key".to_vec());
    assert_eq!(result.field, b"field".to_vec());
    assert_eq!(result.value, Frame::BulkString(b"value".to_vec()));
}

#[test]
fn test_hset_hget_hgetall_command() {
    let mut backend = Backend::new();
    let cmd = HSet {
        key: b"k1".to_vec(),
        field: b"f1".to_vec(),
        value: Frame::BulkString(b"hhhhhh".to_vec()),
    };

    let result = cmd.execute(&mut backend);
    assert_eq!(result, ok_frame());

    let cmd = HSet {
        key: b"k1".to_vec(),
        field: b"f2".to_vec(),
        value: Frame::BulkString(b"iiiiii".to_vec()),
    };
    cmd.execute(&mut backend);

    let cmd = HGet {
        key: b"k1".to_vec(),
        field: b"f1".to_vec(),
    };
    let result = cmd.execute(&backend);
    assert_eq!(result, Frame::BulkString(b"hhhhhh".to_vec()));

    let cmd = HGetAll {
        key: b"k1".to_vec(),
    };
    let result = cmd.execute(&backend);
    let mut excepted = TableBuilder::new();
    excepted.insert(b"f1".to_vec(), Frame::BulkString(b"hhhhhh".to_vec()));
    excepted.insert(b"f2".to_vec(), Frame::BulkString(b"iiiiii".to_vec()));
    assert_eq!(result, excepted.into_frame());
}

#[test]
fn test_command_dispatch_and_wire_replies() {
    let mut backend = Backend::new();

    let frame = decode_one(b"*4\r\n$4\r\nhset\r\n$2\r\nk1\r\n$2\r\nf1\r\n$6\r\nhhhhhh\r\n");
    let cmd = Command::try_parse(&frame).unwrap();
    let reply = cmd.execute(&mut backend);
    assert_eq!(simple_redis::encode::encode(&reply), b"+OK\r\n");

    let frame = decode_one(b"*3\r\n$4\r\nhget\r\n$2\r\nk1\r\n$2\r\nf1\r\n");
    let cmd = Command::try_parse(&frame).unwrap();
    let reply = cmd.execute(&mut backend);
    assert_eq!(reply, Frame::BulkString(b"hhhhhh".to_vec()));

    let frame = decode_one(b"*4\r\n$4\r\nhset\r\n$2\r\nk1\r\n$2\r\nf2\r\n$6\r\niiiiii\r\n");
    let cmd = Command::try_parse(&frame).unwrap();
    cmd.execute(&mut backend);

    let frame = decode_one(b"*2\r\n$7\r\nhgetall\r\n$2\r\nk1\r\n");
    let cmd = Command::try_parse(&frame).unwrap();
    let reply = cmd.execute(&mut backend);
    assert_eq!(
        simple_redis::encode::encode(&reply),
        b"%2\r\n+f1\r\n$6\r\nhhhhhh\r\n+f2\r\n$6\r\niiiiii\r\n"
    );
}

#[test]
fn test_command_names_fold_case() {
    let frame = decode_one(b"*3\r\n$4\r\nHGeT\r\n$3\r\nkey\r\n$5\r\nfield\r\n");
    let result = HGet::try_parse(&frame).unwrap();
    assert_eq!(result.key, b"key".to_vec());

    let cmd = Command::try_parse(&frame).unwrap();
    assert!(matches!(cmd, Command::HGet(_)));
}

#[test]
fn test_command_rejects_bad_shapes() {
    // wrong arity
    let frame = decode_one(b"*2\r\n$4\r\nhget\r\n$3\r\nkey\r\n");
    assert_eq!(HGet::try_parse(&frame), Err(CommandError::InvalidArgument));

    // unknown name
    let frame = decode_one(b"*1\r\n$4\r\nping\r\n");
    assert_eq!(
        Command::try_parse(&frame),
        Err(CommandError::InvalidArgument)
    );

    // element that is not a bulk string
    let frame = Frame::Array(vec![
        Frame::BulkString(b"hget".to_vec()),
        Frame::Integer(1),
        Frame::BulkString(b"f".to_vec()),
    ]);
    assert_eq!(HGet::try_parse(&frame), Err(CommandError::InvalidArgument));

    // not an array at all
    let frame = Frame::SimpleString(b"hget".to_vec());
    assert_eq!(HGet::try_parse(&frame), Err(CommandError::InvalidArgument));

    // key is not valid UTF-8 text
    let frame = Frame::Array(vec![
        Frame::BulkString(b"hget".to_vec()),
        Frame::BulkString(vec![0xff, 0xfe]),
        Frame::BulkString(b"f".to_vec()),
    ]);
    assert_eq!(HGet::try_parse(&frame), Err(CommandError::InvalidArgument));
}

#[test]
fn test_absent_key_and_field() {
    let mut backend = Backend::new();

    let cmd = HGet {
        key: b"missing".to_vec(),
        field: b"x".to_vec(),
    };
    assert_eq!(cmd.execute(&backend), Frame::Null);

    let cmd = HGetAll {
        key: b"missing".to_vec(),
    };
    assert_eq!(cmd.execute(&backend), Frame::Array(vec![]));

    // a present key with an absent sibling field still replies null
    let cmd = HSet {
        key: b"k".to_vec(),
        field: b"f".to_vec(),
        value: Frame::Integer(1),
    };
    cmd.execute(&mut backend);
    let cmd = HGet {
        key: b"k".to_vec(),
        field: b"other".to_vec(),
    };
    assert_eq!(cmd.execute(&backend), Frame::Null);
}

#[test]
fn test_flat_namespace_get_set() {
    let mut backend = Backend::new();
    assert_eq!(backend.get(&b"a".to_vec()), None);

    backend.set(b"a".to_vec(), Frame::Integer(5));
    assert_eq!(backend.get(&b"a".to_vec()), Some(Frame::Integer(5)));

    backend.set(b"a".to_vec(), Frame::SimpleString(b"x".to_vec()));
    assert_eq!(
        backend.get(&b"a".to_vec()),
        Some(Frame::SimpleString(b"x".to_vec()))
    );
}

#[test]
fn test_hset_overwrites_field() {
    let mut backend = Backend::new();
    let cmd = HSet {
        key: b"k".to_vec(),
        field: b"f".to_vec(),
        value: Frame::Integer(1),
    };
    cmd.execute(&mut backend);
    let cmd = HSet {
        key: b"k".to_vec(),
        field: b"f".to_vec(),
        value: Frame::Integer(2),
    };
    assert_eq!(cmd.execute(&mut backend), ok_frame());
    let cmd = HGet {
        key: b"k".to_vec(),
        field: b"f".to_vec(),
    };
    assert_eq!(cmd.execute(&backend), Frame::Integer(2));
}
