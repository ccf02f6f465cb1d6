use simple_redis::Backend;
use simple_redis::BulkString;
use simple_redis::Get;
use simple_redis::HGet;
use simple_redis::HGetAll;
use simple_redis::HSet;
use simple_redis::RespArray;
use simple_redis::RespDecode;
use simple_redis::RespFrame;
use simple_redis::SetCmd;
use simple_redis::SimpleString;

fn resp_ok() -> RespFrame {
    RespFrame::SimpleString(SimpleString::new(b"OK".to_vec()))
}

#[test]
fn test_hget_from_resp_array() {
    let mut buf: Vec<u8> = Vec::new();
    buf.extend_from_slice(b"*3\r\n$4\r\nHGET\r\n$5\r\nmykey\r\n$7\r\nmyfield\r\n");

    let frame = RespArray::decode(&mut buf).unwrap();
    let result: HGet = HGet::try_from(frame).unwrap();
    assert_eq!(result.key, b"mykey".to_vec());
    assert_eq!(result.field, b"myfield".to_vec());
}

#[test]
fn test_hgetall_from_resp_array() {
    let mut buf: Vec<u8> = Vec::new();
    buf.extend_from_slice(b"*2\r\n$7\r\nHGETALL\r\n$5\r\nmykey\r\n");

    let frame = RespArray::decode(&mut buf).unwrap();
    let result: HGetAll = HGetAll::try_from(frame).unwrap();
    assert_eq!(result.key, b"mykey".to_vec());
}

#[test]
fn test_hset_from_resp_array() {
    let mut buf: Vec<u8> = Vec::new();
    buf.extend_from_slice(b"*4\r\n$4\r\nHSET\r\n$5\r\nmykey\r\n$7\r\nmyfield\r\n$7\r\nmyvalue\r\n");

    let frame = RespArray::decode(&mut buf).unwrap();
    let result: HSet = HSet::try_from(frame).unwrap();
    assert_eq!(result.key, b"mykey".to_vec());
    assert_eq!(result.field, b"myfield".to_vec());
    assert_eq!(
        result.value,
        RespFrame::BulkString(BulkString::new(b"myvalue".to_vec()))
    );
}

#[test]
fn test_hset_hgetall_commands() {
    let mut backend = Backend::new();
    let set_cmd = HSet {
        key: b"mykey".to_vec(),
        field: b"myfield".to_vec(),
        value: RespFrame::BulkString(BulkString::new(b"myvalue".to_vec())),
    };
    let set_result = set_cmd.execute(&mut backend);
    assert_eq!(set_result, resp_ok());

    let get_cmd = HGet {
        key: b"mykey".to_vec(),
        field: b"myfield".to_vec(),
    };
    let get_result = get_cmd.execute(&mut backend);
    assert_eq!(
        get_result,
        RespFrame::BulkString(BulkString::new(b"myvalue".to_vec()))
    );

    let set_cmd = HSet {
        key: b"mykey".to_vec(),
        field: b"hello".to_vec(),
        value: RespFrame::BulkString(BulkString::new(b"world".to_vec())),
    };
    set_cmd.execute(&mut backend);

    let getall_cmd = HGetAll {
        key: b"mykey".to_vec(),
        sort: true,
    };
    let getall_result = getall_cmd.execute(&mut backend);
    let expected_result = RespArray::new(vec![
        RespFrame::BulkString(BulkString::new(b"hello".to_vec())),
        RespFrame::BulkString(BulkString::new(b"world".to_vec())),
        RespFrame::BulkString(BulkString::new(b"myfield".to_vec())),
        RespFrame::BulkString(BulkString::new(b"myvalue".to_vec())),
    ]);
    assert_eq!(getall_result, RespFrame::Array(expected_result));
}

#[test]
fn test_get_from_resp_array() {
    let mut buf: Vec<u8> = Vec::new();
    buf.extend_from_slice(b"*2\r\n$3\r\nget\r\n$5\r\nhello\r\n");

    let frame = RespArray::decode(&mut buf).unwrap();
    let result: Get = Get::try_from(frame).unwrap();
    assert_eq!(result.key, b"hello".to_vec());
}

#[test]
fn test_set_from_resp_array() {
    let mut buf: Vec<u8> = Vec::new();
    buf.extend_from_slice(b"*3\r\n$3\r\nset\r\n$5\r\nhello\r\n$5\r\nworld\r\n");

    let frame = RespArray::decode(&mut buf).unwrap();
    let result: SetCmd = SetCmd::try_from(frame).unwrap();
    assert_eq!(result.key, b"hello".to_vec());
    assert_eq!(
        result.value,
        RespFrame::BulkString(BulkString::new(b"world".to_vec()))
    );
}

#[test]
fn test_set_get_execute() {
    let mut backend = Backend::new();
    let set_cmd = SetCmd {
        key: b"hello".to_vec(),
        value: RespFrame::BulkString(BulkString::new(b"world".to_vec())),
    };
    let result = set_cmd.execute(&mut backend);
    assert_eq!(result, resp_ok());

    let get_cmd = Get {
        key: b"hello".to_vec(),
    };
    let result = get_cmd.execute(&mut backend);
    assert_eq!(
        result,
        RespFrame::BulkString(BulkString::new(b"world".to_vec()))
    );
}
