use simple_redis::BulkString;
use simple_redis::RespArray;
use simple_redis::RespDouble;
use simple_redis::RespEncode;
use simple_redis::RespFrame;
use simple_redis::RespNull;
use simple_redis::RespNullArray;
use simple_redis::RespNullBulkString;
use simple_redis::RespSet;
use simple_redis::SimpleError;
use simple_redis::SimpleString;

#[test]
fn encode_test_simple_string_encode() {
    let s: RespFrame = RespFrame::SimpleString(SimpleString::new(b"OK".to_vec()));
    assert_eq!(s.encode(), b"+OK\r\n");
}

#[test]
fn encode_test_error_message_encode() {
    let s: RespFrame = RespFrame::Error(SimpleError::new(b"Error message".to_vec()));
    assert_eq!(s.encode(), b"-Error message\r\n");
}

#[test]
fn encode_test_integer_encode() {
    let s: RespFrame = RespFrame::Integer(123);
    assert_eq!(s.encode(), b":+123\r\n");

    let s: RespFrame = RespFrame::Integer(-123);
    assert_eq!(s.encode(), b":-123\r\n");
}

#[test]
fn encode_test_bulk_string_encode() {
    let s: RespFrame = RespFrame::BulkString(BulkString::new(b"hello".to_vec()));
    assert_eq!(s.encode(), b"$5\r\nhello\r\n");
}

#[test]
fn encode_test_null_bulk_string_encode() {
    let s: RespFrame = RespFrame::NullBulkString(RespNullBulkString::new());
    assert_eq!(s.encode(), b"$-1\r\n");
}

#[test]
fn encode_test_null_encode() {
    let s: RespFrame = RespFrame::Null(RespNull::new());
    assert_eq!(s.encode(), b"_\r\n");
}

#[test]
fn encode_test_array_encode() {
    let s: RespFrame = RespFrame::Array(RespArray::new(vec![
        RespFrame::SimpleString(SimpleString::new(b"set".to_vec())),
        RespFrame::SimpleString(SimpleString::new(b"hello".to_vec())),
        RespFrame::SimpleString(SimpleString::new(b"world".to_vec())),
    ]));
    assert_eq!(s.encode(), b"*3\r\n+set\r\n+hello\r\n+world\r\n");
}

#[test]
fn encode_test_null_array_encode() {
    let s: RespFrame = RespFrame::NullArray(RespNullArray::new());
    assert_eq!(s.encode(), b"*-1\r\n");
}

#[test]
fn encode_test_bool_encode() {
    let s: RespFrame = RespFrame::Boolean(true);
    assert_eq!(s.encode(), b"#t\r\n");

    let s: RespFrame = RespFrame::Boolean(false);
    assert_eq!(s.encode(), b"#f\r\n");
}

#[test]
fn test_double_encode() {
    let s: RespFrame = RespFrame::Double(RespDouble::new(b"+123.456".to_vec()).unwrap());
    assert_eq!(s.encode(), b",+123.456\r\n");

    let s: RespFrame = RespFrame::Double(RespDouble::new(b"-123.456".to_vec()).unwrap());
    assert_eq!(s.encode(), b",-123.456\r\n");

    let s: RespFrame = RespFrame::Double(RespDouble::new(b"+1.23456e8".to_vec()).unwrap());
    assert_eq!(s.encode(), b",+1.23456e8\r\n");

    let s: RespFrame = RespFrame::Double(RespDouble::new(b"-1.23456e-9".to_vec()).unwrap());
    assert_eq!(s.encode(), b",-1.23456e-9\r\n");
}

#[test]
fn encode_test_set_encode() {
    let frame: RespFrame = RespFrame::SetValue(RespSet::new(vec![
        RespFrame::Array(RespArray::new(vec![
            RespFrame::Integer(1234),
            RespFrame::Boolean(true),
        ])),
        RespFrame::BulkString(BulkString::new(b"world".to_vec())),
    ]));

    assert_eq!(frame.encode(), b"~2\r\n*2\r\n:+1234\r\n#t\r\n$5\r\nworld\r\n");
}
