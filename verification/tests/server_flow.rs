//! End-to-end request/response checks: bytes in, command run against a
//! backend, bytes out; plus edge cases of the codec and command layer.

use simple_redis::read_frame;
use simple_redis::Backend;
use simple_redis::BulkString;
use simple_redis::Command;
use simple_redis::CommandError;
use simple_redis::HGetAll;
use simple_redis::RespArray;
use simple_redis::RespDecode;
use simple_redis::RespDouble;
use simple_redis::RespEncode;
use simple_redis::RespError;
use simple_redis::RespFrame;
use simple_redis::RespMap;
use simple_redis::RespNullArray;
use simple_redis::RespNullBulkString;
use simple_redis::SimpleString;

/// Decode one request, run it, and return the encoded reply.
fn roundtrip(backend: &mut Backend, request: &[u8]) -> Vec<u8> {
    let mut buf = request.to_vec();
    let frame = RespFrame::decode(&mut buf).unwrap();
    assert!(buf.is_empty());
    let cmd = Command::try_from(frame).unwrap();
    cmd.execute(backend).encode()
}

#[test]
fn test_get_miss_returns_null() {
    let mut backend = Backend::new();
    let reply = roundtrip(&mut backend, b"*2\r\n$3\r\nget\r\n$5\r\nhello\r\n");
    assert_eq!(reply, b"_\r\n".to_vec());
}

#[test]
fn test_set_then_get() {
    let mut backend = Backend::new();
    let reply = roundtrip(
        &mut backend,
        b"*3\r\n$3\r\nset\r\n$5\r\nhello\r\n$5\r\nworld\r\n",
    );
    assert_eq!(reply, b"+OK\r\n".to_vec());
    let reply = roundtrip(&mut backend, b"*2\r\n$3\r\nget\r\n$5\r\nhello\r\n");
    assert_eq!(reply, b"$5\r\nworld\r\n".to_vec());
}

#[test]
fn test_hset_then_hget() {
    let mut backend = Backend::new();
    let reply = roundtrip(
        &mut backend,
        b"*4\r\n$4\r\nHSET\r\n$5\r\nmykey\r\n$7\r\nmyfield\r\n$7\r\nmyvalue\r\n",
    );
    assert_eq!(reply, b"+OK\r\n".to_vec());
    let reply = roundtrip(
        &mut backend,
        b"*3\r\n$4\r\nHGET\r\n$5\r\nmykey\r\n$7\r\nmyfield\r\n",
    );
    assert_eq!(reply, b"$7\r\nmyvalue\r\n".to_vec());
}

#[test]
fn test_hgetall_sorted_bytes() {
    let mut backend = Backend::new();
    roundtrip(
        &mut backend,
        b"*4\r\n$4\r\nHSET\r\n$5\r\nmykey\r\n$7\r\nmyfield\r\n$7\r\nmyvalue\r\n",
    );
    roundtrip(
        &mut backend,
        b"*4\r\n$4\r\nHSET\r\n$5\r\nmykey\r\n$5\r\nhello\r\n$5\r\nworld\r\n",
    );
    let cmd = HGetAll {
        key: b"mykey".to_vec(),
        sort: true,
    };
    let reply = cmd.execute(&mut backend).encode();
    assert_eq!(
        reply,
        b"*4\r\n$5\r\nhello\r\n$5\r\nworld\r\n$7\r\nmyfield\r\n$7\r\nmyvalue\r\n".to_vec()
    );
}

#[test]
fn test_partial_set_then_complete() {
    let mut buf: Vec<u8> = b"*2\r\n$3\r\nset\r\n".to_vec();
    let before = buf.clone();
    let ret = RespFrame::decode(&mut buf);
    assert_eq!(ret.unwrap_err(), RespError::NotComplete);
    assert_eq!(buf, before);
    buf.extend_from_slice(b"$5\r\nhello\r\n");
    let frame = RespFrame::decode(&mut buf).unwrap();
    assert_eq!(
        frame,
        RespFrame::Array(RespArray::new(vec![
            RespFrame::BulkString(BulkString::new(b"set".to_vec())),
            RespFrame::BulkString(BulkString::new(b"hello".to_vec())),
        ]))
    );
}

#[test]
fn test_unknown_command_is_ok() {
    let mut backend = Backend::new();
    let reply = roundtrip(&mut backend, b"*1\r\n$4\r\nPING\r\n");
    assert_eq!(reply, b"+OK\r\n".to_vec());
}

#[test]
fn test_uppercase_command_name() {
    let mut backend = Backend::new();
    let reply = roundtrip(&mut backend, b"*2\r\n$3\r\nGET\r\n$5\r\nhello\r\n");
    assert_eq!(reply, b"_\r\n".to_vec());
}

#[test]
fn test_incremental_split_points() {
    let full = b"*3\r\n$3\r\nset\r\n$5\r\nhello\r\n$5\r\nworld\r\n";
    for k in 0..full.len() {
        let mut buf = full[..k].to_vec();
        let before = buf.clone();
        let ret = RespFrame::decode(&mut buf);
        assert_eq!(ret.unwrap_err(), RespError::NotComplete);
        assert_eq!(buf, before);
        buf.extend_from_slice(&full[k..]);
        let frame = RespFrame::decode(&mut buf).unwrap();
        assert!(buf.is_empty());
        let whole = RespFrame::decode(&mut full.to_vec()).unwrap();
        assert_eq!(frame, whole);
    }
}

#[test]
fn test_round_trip_frames() {
    let frames = vec![
        RespFrame::SimpleString(SimpleString::new(b"OK".to_vec())),
        RespFrame::Integer(0),
        RespFrame::Integer(i64::MIN),
        RespFrame::Integer(i64::MAX),
        RespFrame::BulkString(BulkString::new(Vec::new())),
        RespFrame::BulkString(BulkString::new(b"a\r\nb\x00c".to_vec())),
        RespFrame::NullBulkString(RespNullBulkString),
        RespFrame::NullArray(RespNullArray),
        RespFrame::Boolean(true),
        RespFrame::Double(RespDouble::new(b"-1.5e-3".to_vec()).unwrap()),
        RespFrame::Array(RespArray::new(vec![
            RespFrame::Integer(7),
            RespFrame::Array(RespArray::new(vec![RespFrame::Boolean(false)])),
        ])),
    ];
    for f in frames {
        let expected = f.clone();
        let mut buf = f.encode();
        let back = RespFrame::decode(&mut buf).unwrap();
        assert!(buf.is_empty());
        assert_eq!(back, expected);
    }
}

#[test]
fn test_map_round_trip() {
    let mut map = RespMap::new();
    map.insert(b"a".to_vec(), RespFrame::Integer(1));
    map.insert(b"b".to_vec(), RespFrame::Boolean(false));
    let expected = RespFrame::MapValue(map);
    let mut buf = expected.clone().encode();
    let back = RespFrame::decode(&mut buf).unwrap();
    assert_eq!(back, expected);
}

#[test]
fn test_map_last_write_wins() {
    let mut buf: Vec<u8> = b"%2\r\n+k\r\n:+1\r\n+k\r\n:+2\r\n".to_vec();
    let frame = RespMap::decode(&mut buf).unwrap();
    let mut expected = RespMap::new();
    expected.insert(b"k".to_vec(), RespFrame::Integer(2));
    assert_eq!(frame, expected);
}

#[test]
fn test_decode_errors() {
    let mut buf = b"^oops\r\n".to_vec();
    assert_eq!(
        RespFrame::decode(&mut buf).unwrap_err(),
        RespError::InvalidFrameType
    );

    let mut buf = b":abc\r\n".to_vec();
    assert_eq!(
        RespFrame::decode(&mut buf).unwrap_err(),
        RespError::ParseIntError
    );

    let mut buf = b":99999999999999999999\r\n".to_vec();
    assert_eq!(
        RespFrame::decode(&mut buf).unwrap_err(),
        RespError::ParseIntError
    );

    let mut buf = b"$five\r\nhello\r\n".to_vec();
    assert_eq!(
        RespFrame::decode(&mut buf).unwrap_err(),
        RespError::ParseIntError
    );

    let mut buf = b",notanumber\r\n".to_vec();
    assert_eq!(
        RespFrame::decode(&mut buf).unwrap_err(),
        RespError::ParseFloatError
    );

    let mut buf = b"#x\r\n".to_vec();
    assert_eq!(
        RespFrame::decode(&mut buf).unwrap_err(),
        RespError::InvalidFrameType
    );
}

#[test]
fn test_command_errors() {
    let frame = RespFrame::Integer(3);
    assert_eq!(
        Command::try_from(frame).unwrap_err(),
        CommandError::InvalidCommand
    );

    let mut buf = b"*1\r\n$3\r\nget\r\n".to_vec();
    let frame = RespFrame::decode(&mut buf).unwrap();
    assert_eq!(
        Command::try_from(frame).unwrap_err(),
        CommandError::InvalidCommandArguments
    );

    let mut buf = b"*2\r\n$3\r\nget\r\n:+1\r\n".to_vec();
    let frame = RespFrame::decode(&mut buf).unwrap();
    assert_eq!(
        Command::try_from(frame).unwrap_err(),
        CommandError::InvalidCommand
    );

    let mut buf = b"*2\r\n$3\r\nget\r\n$2\r\n\xff\xfe\r\n".to_vec();
    let frame = RespFrame::decode(&mut buf).unwrap();
    assert_eq!(
        Command::try_from(frame).unwrap_err(),
        CommandError::FromUtf8Error
    );
}

#[test]
fn test_expect_length_walks_children() {
    let buf = b"*2\r\n$3\r\nset\r\n$5\r\nhello\r\n";
    let r = read_frame(buf).unwrap();
    assert_eq!(r.1, buf.len());

    let partial = b"*2\r\n$3\r\nset\r\n$5\r\nhel";
    assert_eq!(read_frame(partial).unwrap_err(), RespError::NotComplete);
}

#[test]
fn test_empty_bulk_string() {
    let mut buf = b"$0\r\n\r\n".to_vec();
    let frame = RespFrame::decode(&mut buf).unwrap();
    assert_eq!(frame, RespFrame::BulkString(BulkString::new(Vec::new())));
}

#[test]
fn test_empty_array_needs_more_alone() {
    // An empty array closing the buffer is indistinguishable from an
    // unfinished null-array sentinel, so the decoder waits.
    let mut buf = b"*0\r\n".to_vec();
    assert_eq!(
        RespFrame::decode(&mut buf).unwrap_err(),
        RespError::NotComplete
    );
    // With anything after it, it decodes as the empty array.
    let mut buf = b"*0\r\n+x\r\n".to_vec();
    let frame = RespFrame::decode(&mut buf).unwrap();
    assert_eq!(frame, RespFrame::Array(RespArray::new(Vec::new())));
    assert_eq!(buf, b"+x\r\n".to_vec());
}

#[test]
fn test_double_grammar() {
    assert!(RespDouble::new(b"123".to_vec()).is_ok());
    assert!(RespDouble::new(b"-0.5".to_vec()).is_ok());
    assert!(RespDouble::new(b"+1.5E+10".to_vec()).is_ok());
    assert!(RespDouble::new(b"".to_vec()).is_err());
    assert!(RespDouble::new(b"1.".to_vec()).is_err());
    assert!(RespDouble::new(b"e5".to_vec()).is_err());
    assert!(RespDouble::new(b"1.2e".to_vec()).is_err());
    assert!(RespDouble::new(b"inf".to_vec()).is_err());
}

#[test]
fn test_backend_overwrite() {
    let mut backend = Backend::new();
    roundtrip(&mut backend, b"*3\r\n$3\r\nset\r\n$1\r\nk\r\n$1\r\na\r\n");
    roundtrip(&mut backend, b"*3\r\n$3\r\nset\r\n$1\r\nk\r\n$1\r\nb\r\n");
    let reply = roundtrip(&mut backend, b"*2\r\n$3\r\nget\r\n$1\r\nk\r\n");
    assert_eq!(reply, b"$1\r\nb\r\n".to_vec());
}

#[test]
fn test_nested_empty_array() {
    // An empty array at the very end of the buffer cannot be told from
    // an unfinished null-array sentinel, so the outer frame waits too.
    let mut buf = b"*1\r\n*0\r\n".to_vec();
    assert_eq!(
        RespFrame::decode(&mut buf).unwrap_err(),
        RespError::NotComplete
    );
    // Followed by a sibling, the empty array reads fine.
    let mut buf = b"*2\r\n*0\r\n:+1\r\n".to_vec();
    let frame = RespFrame::decode(&mut buf).unwrap();
    assert_eq!(
        frame,
        RespFrame::Array(RespArray::new(vec![
            RespFrame::Array(RespArray::new(Vec::new())),
            RespFrame::Integer(1),
        ]))
    );
}

#[test]
fn test_empty_map_and_set() {
    let mut buf = b"%0\r\n".to_vec();
    let frame = RespFrame::decode(&mut buf).unwrap();
    assert_eq!(frame, RespFrame::MapValue(RespMap::new()));

    let mut buf = b"~0\r\n".to_vec();
    let frame = RespFrame::decode(&mut buf).unwrap();
    assert_eq!(
        frame,
        RespFrame::SetValue(simple_redis::RespSet::new(Vec::new()))
    );
}

#[test]
fn test_handle_request_error_reply() {
    let mut backend = Backend::new();
    let mut buf = b"*1\r\n$3\r\nget\r\n".to_vec();
    let frame = RespFrame::decode(&mut buf).unwrap();
    let reply = simple_redis::handle_request(frame, &mut backend);
    assert_eq!(
        reply.encode(),
        b"-ERR invalid command arguments\r\n".to_vec()
    );

    let reply = simple_redis::handle_request(RespFrame::Integer(1), &mut backend);
    assert_eq!(reply.encode(), b"-ERR invalid command\r\n".to_vec());
}
