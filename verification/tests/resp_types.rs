use simple_redis::BulkString;
use simple_redis::RespArray;
use simple_redis::RespDecode;
use simple_redis::RespEncode;
use simple_redis::RespError;
use simple_redis::RespFrame;
use simple_redis::RespMap;
use simple_redis::RespNull;
use simple_redis::RespNullArray;
use simple_redis::RespNullBulkString;
use simple_redis::RespSet;
use simple_redis::SimpleError;
use simple_redis::SimpleString;

#[test]
fn array_test_array_encode() {
    let s: RespFrame = RespFrame::Array(RespArray::new(vec![
        RespFrame::SimpleString(SimpleString::new(b"set".to_vec())),
        RespFrame::SimpleString(SimpleString::new(b"hello".to_vec())),
        RespFrame::SimpleString(SimpleString::new(b"world".to_vec())),
    ]));
    assert_eq!(s.encode(), b"*3\r\n+set\r\n+hello\r\n+world\r\n");
}

#[test]
fn array_test_null_array_encode() {
    let s: RespFrame = RespFrame::NullArray(RespNullArray::new());
    assert_eq!(s.encode(), b"*-1\r\n");
}

#[test]
fn array_test_null_array_decode() {
    let mut buf: Vec<u8> = Vec::new();
    buf.extend_from_slice(b"*-1\r\n");

    let frame = RespNullArray::decode(&mut buf).unwrap();
    assert_eq!(frame, RespNullArray);
}

#[test]
fn array_test_array_decode() {
    let mut buf: Vec<u8> = Vec::new();
    buf.extend_from_slice(b"*2\r\n$3\r\nset\r\n$5\r\nhello\r\n");

    let frame = RespArray::decode(&mut buf).unwrap();
    assert_eq!(
        frame,
        RespArray::new(vec![
            RespFrame::BulkString(BulkString::new(b"set".to_vec())),
            RespFrame::BulkString(BulkString::new(b"hello".to_vec()))
        ])
    );

    buf.extend_from_slice(b"*2\r\n$3\r\nset\r\n");
    let ret = RespArray::decode(&mut buf);
    assert_eq!(ret.unwrap_err(), RespError::NotComplete);

    buf.extend_from_slice(b"$5\r\nhello\r\n");
    let frame = RespArray::decode(&mut buf).unwrap();
    assert_eq!(
        frame,
        RespArray::new(vec![
            RespFrame::BulkString(BulkString::new(b"set".to_vec())),
            RespFrame::BulkString(BulkString::new(b"hello".to_vec()))
        ])
    );
}

#[test]
fn bool_test_bool_encode() {
    let s: RespFrame = RespFrame::Boolean(true);
    assert_eq!(s.encode(), b"#t\r\n");

    let s: RespFrame = RespFrame::Boolean(false);
    assert_eq!(s.encode(), b"#f\r\n");
}

#[test]
fn bool_test_boolean_decode() {
    let mut buf: Vec<u8> = Vec::new();
    buf.extend_from_slice(b"#t\r\n");

    let frame = bool::decode(&mut buf).unwrap();
    assert!(frame);

    buf.extend_from_slice(b"#f\r\n");

    let frame = bool::decode(&mut buf).unwrap();
    assert!(!frame);

    buf.extend_from_slice(b"#f\r");
    let ret = bool::decode(&mut buf);
    assert_eq!(ret.unwrap_err(), RespError::NotComplete);

    buf.push(b'\n');
    let frame = bool::decode(&mut buf).unwrap();
    assert!(!frame);
}

#[test]
fn bulk_string_test_bulk_string_encode() {
    let s: RespFrame = RespFrame::BulkString(BulkString::new(b"hello".to_vec()));
    assert_eq!(s.encode(), b"$5\r\nhello\r\n");
}

#[test]
fn bulk_string_test_null_bulk_string_encode() {
    let s: RespFrame = RespFrame::NullBulkString(RespNullBulkString::new());
    assert_eq!(s.encode(), b"$-1\r\n");
}

#[test]
fn bulk_string_test_bulk_string_decode() {
    let mut buf: Vec<u8> = Vec::new();
    buf.extend_from_slice(b"$5\r\nhello\r\n");

    let frame = BulkString::decode(&mut buf).unwrap();
    assert_eq!(frame, BulkString::new(b"hello".to_vec()));

    buf.extend_from_slice(b"$5\r\nhello");
    let ret = BulkString::decode(&mut buf);
    assert_eq!(ret.unwrap_err(), RespError::NotComplete);

    buf.extend_from_slice(b"\r\n");
    let frame = BulkString::decode(&mut buf).unwrap();
    assert_eq!(frame, BulkString::new(b"hello".to_vec()));
}

#[test]
fn bulk_string_test_null_bulk_string_decode() {
    let mut buf: Vec<u8> = Vec::new();
    buf.extend_from_slice(b"$-1\r\n");

    let frame = RespNullBulkString::decode(&mut buf).unwrap();
    assert_eq!(frame, RespNullBulkString);
}

#[test]
fn integer_test_integer_encode() {
    let s: RespFrame = RespFrame::Integer(123);
    assert_eq!(s.encode(), b":+123\r\n");

    let s: RespFrame = RespFrame::Integer(-123);
    assert_eq!(s.encode(), b":-123\r\n");
}

#[test]
fn integer_test_integer_decode() {
    let mut buf: Vec<u8> = Vec::new();
    buf.extend_from_slice(b":+123\r\n");

    let frame = i64::decode(&mut buf).unwrap();
    assert_eq!(frame, 123);

    buf.extend_from_slice(b":-123\r\n");

    let frame = i64::decode(&mut buf).unwrap();
    assert_eq!(frame, -123);
}

#[test]
fn map_test_map_decode() {
    let mut buf: Vec<u8> = Vec::new();
    buf.extend_from_slice(b"%2\r\n+hello\r\n$5\r\nworld\r\n+foo\r\n$3\r\nbar\r\n");

    let frame = RespMap::decode(&mut buf).unwrap();

    let mut map = RespMap::new();
    map.insert(
        b"hello".to_vec(),
        RespFrame::BulkString(BulkString::new(b"world".to_vec())),
    );
    map.insert(
        b"foo".to_vec(),
        RespFrame::BulkString(BulkString::new(b"bar".to_vec())),
    );

    assert_eq!(frame, map);
}

#[test]
fn null_test_null_encode() {
    let s: RespFrame = RespFrame::Null(RespNull);
    assert_eq!(s.encode(), b"_\r\n");
}

#[test]
fn null_test_null_decode() {
    let mut buf: Vec<u8> = Vec::new();
    buf.extend_from_slice(b"_\r\n");

    let frame = RespNull::decode(&mut buf).unwrap();
    assert_eq!(frame, RespNull);
}

#[test]
fn set_test_set_encode() {
    let frame: RespFrame = RespFrame::SetValue(RespSet::new(vec![
        RespFrame::Array(RespArray::new(vec![
            RespFrame::Integer(1234),
            RespFrame::Boolean(true),
        ])),
        RespFrame::BulkString(BulkString::new(b"world".to_vec())),
    ]));

    assert_eq!(frame.encode(), b"~2\r\n*2\r\n:+1234\r\n#t\r\n$5\r\nworld\r\n");
}

#[test]
fn set_test_set_code() {
    let mut buf: Vec<u8> = Vec::new();
    buf.extend_from_slice(b"~2\r\n$3\r\nset\r\n$5\r\nhello\r\n");

    let frame = RespSet::decode(&mut buf).unwrap();

    assert_eq!(
        frame,
        RespSet::new(vec![
            RespFrame::BulkString(BulkString::new(b"set".to_vec())),
            RespFrame::BulkString(BulkString::new(b"hello".to_vec())),
        ])
    );
}

#[test]
fn simple_error_test_error_message_encode() {
    let s: RespFrame = RespFrame::Error(SimpleError::new(b"Error message".to_vec()));
    assert_eq!(s.encode(), b"-Error message\r\n");
}

#[test]
fn simple_error_test_simple_error_decode() {
    let mut buf: Vec<u8> = Vec::new();
    buf.extend_from_slice(b"-Error message\r\n");

    let frame = SimpleError::decode(&mut buf).unwrap();
    assert_eq!(frame, SimpleError::new(b"Error message".to_vec()));

    buf.extend_from_slice(b"-Error message\r");
    let ret = SimpleError::decode(&mut buf);
    assert_eq!(ret.unwrap_err(), RespError::NotComplete);

    buf.push(b'\n');
    let frame: SimpleError = SimpleError::decode(&mut buf).unwrap();
    assert_eq!(frame, SimpleError::new(b"Error message".to_vec()));
}

#[test]
fn simple_string_test_simple_string_encode() {
    let s: RespFrame = RespFrame::SimpleString(SimpleString::new(b"OK".to_vec()));
    assert_eq!(s.encode(), b"+OK\r\n");
}

#[test]
fn simple_string_test_simple_string_decode() {
    let mut buf: Vec<u8> = Vec::new();
    buf.extend_from_slice(b"+OK\r\n");

    let frame = SimpleString::decode(&mut buf).unwrap();
    assert_eq!(frame, SimpleString::new(b"OK".to_vec()));

    buf.extend_from_slice(b"+hello\r");

    let ret = SimpleString::decode(&mut buf);
    assert_eq!(ret.unwrap_err(), RespError::NotComplete);

    buf.push(b'\n');
    let frame = SimpleString::decode(&mut buf).unwrap();
    assert_eq!(frame, SimpleString::new(b"hello".to_vec()));
}
