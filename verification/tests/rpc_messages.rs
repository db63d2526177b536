//! The RPC envelope: each shape round-trips, and malformed envelopes fail
//! with the right kind.

use msgpack::decoder::{DecodeError, Decoder};
use msgpack::encoder::{encode_unsigned, encode_vec_len};
use msgpack::rpc::RpcMessage;
use msgpack::value::Value;

#[test]
fn test_rpc_request_roundtrip() {
    let m = RpcMessage::RpcRequest {
        msgid: 42,
        method: "lookup".to_string(),
        params: vec![Value::Unsigned(7), Value::Str(b"key".to_vec())],
    };
    let bytes = m.to_msgpack();
    let mut d = Decoder::new(&bytes);
    let back = RpcMessage::decode(&mut d).unwrap();
    assert_eq!(back, m);
}

#[test]
fn test_rpc_response_roundtrip() {
    let m = RpcMessage::RpcResponse {
        msgid: 7,
        error: Value::Nil,
        result: Value::Array(vec![Value::Boolean(true), Value::Integer(-5)]),
    };
    let bytes = m.to_msgpack();
    let mut d = Decoder::new(&bytes);
    let back = RpcMessage::decode(&mut d).unwrap();
    assert_eq!(back, m);
}

#[test]
fn test_rpc_notification_roundtrip() {
    let m = RpcMessage::RpcNotification {
        method: "ping".to_string(),
        params: vec![],
    };
    let bytes = m.to_msgpack();
    let mut d = Decoder::new(&bytes);
    let back = RpcMessage::decode(&mut d).unwrap();
    assert_eq!(back, m);
}

#[test]
fn test_rpc_wrong_length() {
    // A request envelope must have exactly four elements.
    let mut v = Vec::new();
    encode_vec_len(&mut v, 3);
    encode_unsigned(&mut v, 0);
    encode_unsigned(&mut v, 1);
    encode_unsigned(&mut v, 2);
    let mut d = Decoder::new(&v);
    assert_eq!(RpcMessage::decode(&mut d), Err(DecodeError::WrongLength));
}

#[test]
fn test_rpc_unknown_type() {
    let mut v = Vec::new();
    encode_vec_len(&mut v, 3);
    encode_unsigned(&mut v, 9);
    encode_unsigned(&mut v, 1);
    encode_unsigned(&mut v, 2);
    let mut d = Decoder::new(&v);
    assert_eq!(RpcMessage::decode(&mut d), Err(DecodeError::Mismatch));
}

#[test]
fn test_rpc_request_bytes() {
    // [0, 1, "a", []] written out canonically.
    let m = RpcMessage::RpcRequest {
        msgid: 1,
        method: "a".to_string(),
        params: vec![],
    };
    let bytes = m.to_msgpack();
    assert_eq!(bytes, vec![0x94, 0x00, 0x01, 0xa1, 0x61, 0x90]);
}
