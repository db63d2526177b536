//! The RPC message envelope: three message shapes, each a wire array whose
//! first element is a small integer type tag.
//!
//! Request = [0, msgid, method, params], Response = [1, msgid, error,
//! result], Notification = [2, method, params].  Decoding reads the array
//! length and the type tag before dispatching; a length that disagrees with
//! the resolved type is a decode failure, never a panic.

use vstd::prelude::*;

use crate::decoder::{
    array_len_outcome, str_outcome, unsigned_outcome, DecodeError, Decoder,
};
use crate::encoder::{encode_str, encode_unsigned, encode_vec_len};
use crate::value::{
    dec_value, enc_value, view_value, view_values, wf_svalue, SpecValue, Value,
};

verus! {

/// One message of the RPC envelope.
#[derive(Debug, PartialEq)]
pub enum RpcMessage {
    RpcRequest { msgid: u32, method: String, params: Vec<Value> },
    RpcResponse { msgid: u32, error: Value, result: Value },
    RpcNotification { method: String, params: Vec<Value> },
}

/// The ghost mirror of a message.
pub enum SpecRpc {
    Request { msgid: u32, method: Seq<char>, params: Seq<SpecValue> },
    Response { msgid: u32, error: SpecValue, result: SpecValue },
    Notification { method: Seq<char>, params: Seq<SpecValue> },
}

/// The abstraction of a message.
pub open spec fn view_rpc(m: RpcMessage) -> SpecRpc {
    match m {
        RpcMessage::RpcRequest { msgid, method, params } => SpecRpc::Request {
            msgid,
            method: method@,
            params: view_values(params@),
        },
        RpcMessage::RpcResponse { msgid, error, result } => SpecRpc::Response {
            msgid,
            error: view_value(error),
            result: view_value(result),
        },
        RpcMessage::RpcNotification { method, params } => SpecRpc::Notification {
            method: method@,
            params: view_values(params@),
        },
    }
}

impl View for RpcMessage {
    type V = SpecRpc;

    open spec fn view(&self) -> SpecRpc {
        view_rpc(*self)
    }
}

/// The wire value a message stands for: an array led by its type tag.
pub open spec fn rpc_value(m: SpecRpc) -> SpecValue {
    match m {
        SpecRpc::Request { msgid, method, params } => SpecValue::Array(
            seq![
                SpecValue::Unsigned(0),
                SpecValue::Unsigned(msgid as u64),
                SpecValue::Str(vstd::utf8::encode_utf8(method)),
                SpecValue::Array(params),
            ],
        ),
        SpecRpc::Response { msgid, error, result } => SpecValue::Array(
            seq![
                SpecValue::Unsigned(1),
                SpecValue::Unsigned(msgid as u64),
                error,
                result,
            ],
        ),
        SpecRpc::Notification { method, params } => SpecValue::Array(
            seq![
                SpecValue::Unsigned(2),
                SpecValue::Str(vstd::utf8::encode_utf8(method)),
                SpecValue::Array(params),
            ],
        ),
    }
}

/// A message is representable when its wire value is.
pub open spec fn rpc_wf(m: SpecRpc) -> bool {
    wf_svalue(rpc_value(m))
}

/// The encoding of a message is the encoding of its wire value.
pub open spec fn enc_rpc(m: SpecRpc) -> Seq<u8> {
    enc_value(rpc_value(m))
}

/// The fields of a request, read after its header: msgid, method, params.
pub open spec fn rpc_request_fields(s: Seq<u8>) -> Result<
    ((u32, Seq<char>, Seq<SpecValue>), int),
    DecodeError,
> {
    match unsigned_outcome(s) {
        Err(e) => Err(e),
        Ok((mid, c2)) => if mid > u32::MAX {
            Err(DecodeError::OutOfRange)
        } else {
            match str_outcome(s.skip(c2)) {
                Err(e) => Err(e),
                Ok((method, c3)) => match dec_value(s.skip(c2 + c3)) {
                    Err(e) => Err(e),
                    Ok((pv, c4)) => match pv {
                        SpecValue::Array(params) => Ok(
                            ((mid as u32, method, params), c2 + c3 + c4),
                        ),
                        _ => Err(DecodeError::Mismatch),
                    },
                },
            }
        },
    }
}

/// The fields of a response, read after its header: msgid, error, result.
pub open spec fn rpc_response_fields(s: Seq<u8>) -> Result<
    ((u32, SpecValue, SpecValue), int),
    DecodeError,
> {
    match unsigned_outcome(s) {
        Err(e) => Err(e),
        Ok((mid, c2)) => if mid > u32::MAX {
            Err(DecodeError::OutOfRange)
        } else {
            match dec_value(s.skip(c2)) {
                Err(e) => Err(e),
                Ok((error, c3)) => match dec_value(s.skip(c2 + c3)) {
                    Err(e) => Err(e),
                    Ok((result, c4)) => Ok(((mid as u32, error, result), c2 + c3 + c4)),
                },
            }
        },
    }
}

/// The fields of a notification, read after its header: method, params.
pub open spec fn rpc_notification_fields(s: Seq<u8>) -> Result<
    ((Seq<char>, Seq<SpecValue>), int),
    DecodeError,
> {
    match str_outcome(s) {
        Err(e) => Err(e),
        Ok((method, c2)) => match dec_value(s.skip(c2)) {
            Err(e) => Err(e),
            Ok((pv, c3)) => match pv {
                SpecValue::Array(params) => Ok(((method, params), c2 + c3)),
                _ => Err(DecodeError::Mismatch),
            },
        },
    }
}

/// The outcome of decoding one message at the front of `s`: the array
/// header and the leading type tag are read before dispatching, then the
/// fields of the resolved shape, each with its own failure kinds.
pub open spec fn rpc_decode(s: Seq<u8>) -> Result<(SpecRpc, int), DecodeError> {
    match array_len_outcome(s) {
        Err(e) => Err(e),
        Ok((n, c0)) => match unsigned_outcome(s.skip(c0)) {
            Err(e) => Err(e),
            Ok((ty, c1)) => if ty == 0 {
                if n != 4 {
                    Err(DecodeError::WrongLength)
                } else {
                    match rpc_request_fields(s.skip(c0 + c1)) {
                        Err(e) => Err(e),
                        Ok(((msgid, method, params), c)) => Ok(
                            (SpecRpc::Request { msgid, method, params }, c0 + c1 + c),
                        ),
                    }
                }
            } else if ty == 1 {
                if n != 4 {
                    Err(DecodeError::WrongLength)
                } else {
                    match rpc_response_fields(s.skip(c0 + c1)) {
                        Err(e) => Err(e),
                        Ok(((msgid, error, result), c)) => Ok(
                            (SpecRpc::Response { msgid, error, result }, c0 + c1 + c),
                        ),
                    }
                }
            } else if ty == 2 {
                if n != 3 {
                    Err(DecodeError::WrongLength)
                } else {
                    match rpc_notification_fields(s.skip(c0 + c1)) {
                        Err(e) => Err(e),
                        Ok(((method, params), c)) => Ok(
                            (SpecRpc::Notification { method, params }, c0 + c1 + c),
                        ),
                    }
                }
            } else {
                Err(DecodeError::Mismatch)
            },
        },
    }
}

impl RpcMessage {
    /// Writes the wire encoding of this message: an array of its type tag
    /// and its fields.
    #[verifier::rlimit(100)]
    pub fn encode(&self, wr: &mut Vec<u8>)
        requires
            rpc_wf(view_rpc(*self)),
        ensures
            final(wr)@ == old(wr)@ + enc_rpc(view_rpc(*self)),
    {
        match self {
            RpcMessage::RpcRequest { msgid, method, params } => {
                let ghost items = rpc_value(view_rpc(*self))->Array_0;
                proof {
                    assert(items[2] == SpecValue::Str(vstd::utf8::encode_utf8(method@)));
                    assert(wf_svalue(items[2]));
                    assert(items[3] == SpecValue::Array(view_values(params@)));
                    assert(wf_svalue(items[3]));
                }
                encode_vec_len(wr, 4);
                encode_unsigned(wr, 0);
                encode_unsigned(wr, *msgid as u64);
                encode_str(wr, method.as_str());
                crate::value::encode_array_value(wr, params);
                proof {
                    lemma_enc_values_4(items);
                    assert(wr@ =~= old(wr)@ + enc_rpc(view_rpc(*self)));
                }
            },
            RpcMessage::RpcResponse { msgid, error, result } => {
                let ghost items = rpc_value(view_rpc(*self))->Array_0;
                proof {
                    assert(items[2] == view_value(*error));
                    assert(wf_svalue(items[2]));
                    assert(items[3] == view_value(*result));
                    assert(wf_svalue(items[3]));
                }
                encode_vec_len(wr, 4);
                encode_unsigned(wr, 1);
                encode_unsigned(wr, *msgid as u64);
                error.encode(wr);
                result.encode(wr);
                proof {
                    lemma_enc_values_4(items);
                    assert(wr@ =~= old(wr)@ + enc_rpc(view_rpc(*self)));
                }
            },
            RpcMessage::RpcNotification { method, params } => {
                let ghost items = rpc_value(view_rpc(*self))->Array_0;
                proof {
                    assert(items[1] == SpecValue::Str(vstd::utf8::encode_utf8(method@)));
                    assert(wf_svalue(items[1]));
                    assert(items[2] == SpecValue::Array(view_values(params@)));
                    assert(wf_svalue(items[2]));
                }
                encode_vec_len(wr, 3);
                encode_unsigned(wr, 2);
                encode_str(wr, method.as_str());
                crate::value::encode_array_value(wr, params);
                proof {
                    lemma_enc_values_3(items);
                    assert(wr@ =~= old(wr)@ + enc_rpc(view_rpc(*self)));
                }
            },
        }
    }

    /// Encodes this message into a fresh byte vector.
    pub fn to_msgpack(&self) -> (r: Vec<u8>)
        requires
            rpc_wf(view_rpc(*self)),
        ensures
            r@ == enc_rpc(view_rpc(*self)),
    {
        let mut wr: Vec<u8> = Vec::new();
        self.encode(&mut wr);
        proof {
            assert(Seq::<u8>::empty() + enc_rpc(view_rpc(*self)) =~= enc_rpc(view_rpc(*self)));
        }
        wr
    }

    /// Reads one message: the array header and the type tag first, then the
    /// fields of the resolved shape.
    #[verifier::rlimit(100)]
    pub fn decode(d: &mut Decoder) -> (r: Result<RpcMessage, DecodeError>)
        requires
            old(d).wf(),
        ensures
            final(d).wf(),
            match rpc_decode(old(d).remaining()) {
                Ok((m, c)) => r matches Ok(msg) && view_rpc(msg) == m && final(d).remaining()
                    == old(d).remaining().skip(c),
                Err(e) => r matches Err(e2) && e2 == e,
            },
    {
        let ghost s = d.remaining();
        let n = match d.read_seq() {
            Ok(n) => n,
            Err(e) => {
                return Err(e);
            },
        };
        proof {
            crate::decoder::lemma_array_len_outcome_bounds(s);
        }
        let ghost c0 = skip_to(s, d.remaining());
        let ty = match d.read_u64() {
            Ok(t) => t,
            Err(e) => {
                return Err(e);
            },
        };
        proof {
            crate::decoder::lemma_unsigned_outcome_bounds(s.skip(c0));
        }
        let ghost c1 = skip_to(s.skip(c0), d.remaining());
        proof {
            lemma_skip_skip(s, c0, c1);
        }
        if ty == 0 {
            if n != 4 {
                return Err(DecodeError::WrongLength);
            }
            match Self::decode_request_fields(d) {
                Ok(m) => {
                    proof {
                        if let Ok((_f, c)) = rpc_request_fields(s.skip(c0 + c1)) {
                            lemma_skip_skip(s, c0 + c1, c);
                        }
                    }
                    Ok(m)
                },
                Err(e) => Err(e),
            }
        } else if ty == 1 {
            if n != 4 {
                return Err(DecodeError::WrongLength);
            }
            match Self::decode_response_fields(d) {
                Ok(m) => {
                    proof {
                        if let Ok((_f, c)) = rpc_response_fields(s.skip(c0 + c1)) {
                            lemma_skip_skip(s, c0 + c1, c);
                        }
                    }
                    Ok(m)
                },
                Err(e) => Err(e),
            }
        } else if ty == 2 {
            if n != 3 {
                return Err(DecodeError::WrongLength);
            }
            match Self::decode_notification_fields(d) {
                Ok(m) => {
                    proof {
                        if let Ok((_f, c)) = rpc_notification_fields(s.skip(c0 + c1)) {
                            lemma_skip_skip(s, c0 + c1, c);
                        }
                    }
                    Ok(m)
                },
                Err(e) => Err(e),
            }
        } else {
            Err(DecodeError::Mismatch)
        }
    }

    /// Reads the fields of a request, after its header and type tag.
    #[verifier::rlimit(100)]
    fn decode_request_fields(d: &mut Decoder) -> (r: Result<RpcMessage, DecodeError>)
        requires
            old(d).wf(),
        ensures
            final(d).wf(),
            match rpc_request_fields(old(d).remaining()) {
                Ok(((msgid, method, params), c)) => r matches Ok(msg) && view_rpc(msg)
                    == (SpecRpc::Request { msgid, method, params }) && 0 <= c <= old(
                    d,
                ).remaining().len() && final(d).remaining() == old(d).remaining().skip(c),
                Err(e) => r matches Err(e2) && e2 == e,
            },
    {
        let ghost s = d.remaining();
        let msgid = match d.read_u32() {
            Ok(m) => m,
            Err(e) => {
                return Err(e);
            },
        };
        proof {
            crate::decoder::lemma_unsigned_outcome_bounds(s);
        }
        let ghost c2 = skip_to(s, d.remaining());
        let method = match d.read_str() {
            Ok(m) => m,
            Err(e) => {
                return Err(e);
            },
        };
        proof {
            crate::decoder::lemma_str_outcome_bounds(s.skip(c2));
        }
        let ghost c3 = skip_to(s.skip(c2), d.remaining());
        proof {
            lemma_skip_skip(s, c2, c3);
        }
        let params = match d.decode_value() {
            Ok(Value::Array(vs)) => vs,
            Ok(_) => {
                return Err(DecodeError::Mismatch);
            },
            Err(e) => {
                return Err(e);
            },
        };
        proof {
            crate::value::lemma_dec_value_bounds(s.skip(c2 + c3));
            let c4 = skip_to(s.skip(c2 + c3), d.remaining());
            lemma_skip_skip(s, c2 + c3, c4);
        }
        Ok(RpcMessage::RpcRequest { msgid, method, params })
    }

    /// Reads the fields of a response, after its header and type tag.
    #[verifier::rlimit(100)]
    fn decode_response_fields(d: &mut Decoder) -> (r: Result<RpcMessage, DecodeError>)
        requires
            old(d).wf(),
        ensures
            final(d).wf(),
            match rpc_response_fields(old(d).remaining()) {
                Ok(((msgid, error, result), c)) => r matches Ok(msg) && view_rpc(msg)
                    == (SpecRpc::Response { msgid, error, result }) && 0 <= c <= old(
                    d,
                ).remaining().len() && final(d).remaining() == old(d).remaining().skip(c),
                Err(e) => r matches Err(e2) && e2 == e,
            },
    {
        let ghost s = d.remaining();
        let msgid = match d.read_u32() {
            Ok(m) => m,
            Err(e) => {
                return Err(e);
            },
        };
        proof {
            crate::decoder::lemma_unsigned_outcome_bounds(s);
        }
        let ghost c2 = skip_to(s, d.remaining());
        let error = match d.decode_value() {
            Ok(v) => v,
            Err(e) => {
                return Err(e);
            },
        };
        proof {
            crate::value::lemma_dec_value_bounds(s.skip(c2));
        }
        let ghost c3 = skip_to(s.skip(c2), d.remaining());
        proof {
            lemma_skip_skip(s, c2, c3);
        }
        let result = match d.decode_value() {
            Ok(v) => v,
            Err(e) => {
                return Err(e);
            },
        };
        proof {
            crate::value::lemma_dec_value_bounds(s.skip(c2 + c3));
            let c4 = skip_to(s.skip(c2 + c3), d.remaining());
            lemma_skip_skip(s, c2 + c3, c4);
        }
        Ok(RpcMessage::RpcResponse { msgid, error, result })
    }

    /// Reads the fields of a notification, after its header and type tag.
    #[verifier::rlimit(100)]
    fn decode_notification_fields(d: &mut Decoder) -> (r: Result<RpcMessage, DecodeError>)
        requires
            old(d).wf(),
        ensures
            final(d).wf(),
            match rpc_notification_fields(old(d).remaining()) {
                Ok(((method, params), c)) => r matches Ok(msg) && view_rpc(msg)
                    == (SpecRpc::Notification { method, params }) && 0 <= c <= old(
                    d,
                ).remaining().len() && final(d).remaining() == old(d).remaining().skip(c),
                Err(e) => r matches Err(e2) && e2 == e,
            },
    {
        let ghost s = d.remaining();
        let method = match d.read_str() {
            Ok(m) => m,
            Err(e) => {
                return Err(e);
            },
        };
        proof {
            crate::decoder::lemma_str_outcome_bounds(s);
        }
        let ghost c2 = skip_to(s, d.remaining());
        let params = match d.decode_value() {
            Ok(Value::Array(vs)) => vs,
            Ok(_) => {
                return Err(DecodeError::Mismatch);
            },
            Err(e) => {
                return Err(e);
            },
        };
        proof {
            crate::value::lemma_dec_value_bounds(s.skip(c2));
            let c3 = skip_to(s.skip(c2), d.remaining());
            lemma_skip_skip(s, c2, c3);
        }
        Ok(RpcMessage::RpcNotification { method, params })
    }
}

/// How many bytes were consumed between two suffix views of one input.
pub open spec fn skip_to(before: Seq<u8>, after: Seq<u8>) -> int {
    before.len() - after.len()
}

/// Consuming `a` bytes and then `b` bytes is consuming `a + b` bytes.
proof fn lemma_skip_skip(s: Seq<u8>, a: int, b: int)
    requires
        0 <= a <= s.len(),
        0 <= b <= s.len() - a,
    ensures
        s.skip(a).skip(b) =~= s.skip(a + b),
{
}

/// The concatenated encodings of a four-element run, written out.
proof fn lemma_enc_values_4(items: Seq<SpecValue>)
    requires
        items.len() == 4,
    ensures
        crate::value::enc_values(items) == enc_value(items[0]) + enc_value(items[1]) + enc_value(
            items[2],
        ) + enc_value(items[3]),
{
    reveal_with_fuel(crate::value::enc_values, 6);
    let t2 = items.subrange(2, 4);
    let t3 = items.subrange(3, 4);
    assert(items.subrange(1, 4).subrange(1, 3) =~= t2);
    assert(items.subrange(2, 4).subrange(1, 2) =~= t3);
    assert(items.subrange(3, 4).subrange(1, 1) =~= Seq::<SpecValue>::empty());
    assert(crate::value::enc_values(Seq::<SpecValue>::empty()) == Seq::<u8>::empty());
    assert(items.subrange(1, 4)[0] == items[1] && t2[0] == items[2] && t3[0] == items[3]);
    assert(crate::value::enc_values(items) =~= enc_value(items[0]) + enc_value(items[1])
        + enc_value(items[2]) + enc_value(items[3]));
}

/// The concatenated encodings of a three-element run, written out.
proof fn lemma_enc_values_3(items: Seq<SpecValue>)
    requires
        items.len() == 3,
    ensures
        crate::value::enc_values(items) == enc_value(items[0]) + enc_value(items[1]) + enc_value(
            items[2],
        ),
{
    reveal_with_fuel(crate::value::enc_values, 5);
    let t2 = items.subrange(2, 3);
    assert(items.subrange(1, 3).subrange(1, 2) =~= t2);
    assert(items.subrange(2, 3).subrange(1, 1) =~= Seq::<SpecValue>::empty());
    assert(crate::value::enc_values(Seq::<SpecValue>::empty()) == Seq::<u8>::empty());
    assert(items.subrange(1, 3)[0] == items[1] && t2[0] == items[2]);
    assert(crate::value::enc_values(items) =~= enc_value(items[0]) + enc_value(items[1])
        + enc_value(items[2]));
}


/// Round trip for the envelope: decoding the encoding of a representable
/// message yields the message itself and consumes exactly the encoding.
#[verifier::rlimit(100)]
#[verifier::spinoff_prover]
pub proof fn lemma_rpc_round_trip(m: SpecRpc)
    requires
        rpc_wf(m),
    ensures
        rpc_decode(enc_rpc(m)) == Ok::<_, DecodeError>((m, enc_rpc(m).len() as int)),
{
    reveal(crate::decoder::array_len_outcome);
    let items = rpc_value(m)->Array_0;
    let s = enc_rpc(m);
    match m {
        SpecRpc::Request { msgid, method, params } => {
            lemma_enc_values_4(items);
            let e0 = enc_value(items[0]);
            let e1 = enc_value(items[1]);
            let e2 = enc_value(items[2]);
            let e3 = enc_value(items[3]);
            let tail = e0 + (e1 + (e2 + e3));
            assert(s =~= crate::format::enc_array_len(4) + tail);
            crate::format::lemma_parse_enc_array_len(4, tail);
            let c0 = crate::format::enc_array_len(4).len() as int;
            assert(s.skip(c0) =~= tail);
            assert(e0 =~= crate::format::enc_unsigned(0));
            crate::decoder::lemma_read_back_unsigned(0, e1 + (e2 + e3));
            assert(tail =~= crate::format::enc_unsigned(0) + (e1 + (e2 + e3)));
            let c1 = e0.len() as int;
            assert(tail.skip(c1) =~= e1 + (e2 + e3));
            crate::decoder::lemma_read_back_unsigned(msgid as u64, e2 + e3);
            assert(e1 + (e2 + e3) =~= crate::format::enc_unsigned(msgid as u64) + (e2 + e3));
            let c2 = e1.len() as int;
            assert((e1 + (e2 + e3)).skip(c2) =~= e2 + e3);
            assert(wf_svalue(items[2]) && wf_svalue(items[3]));
            crate::decoder::lemma_read_back_str(method, e3);
            assert(e2 + e3 =~= crate::format::enc_str_len(
                vstd::utf8::encode_utf8(method).len() as int,
            ) + vstd::utf8::encode_utf8(method) + e3);
            let c3 = e2.len() as int;
            assert((e2 + e3).skip(c3) =~= e3);
            crate::value::lemma_dec_enc_value(items[3], Seq::<u8>::empty());
            assert(e3 + Seq::<u8>::empty() =~= e3);
            assert((e1 + (e2 + e3)).skip(c2 + c3) =~= e3);
            assert(s.skip(c0).skip(c1) =~= tail.skip(c1));
            assert(s.skip(c0 + c1) =~= e1 + (e2 + e3));
            assert(s.skip(c0 + c1 + c2) =~= e2 + e3);
            assert(s.skip(c0 + c1 + c2 + c3) =~= e3);
        },
        SpecRpc::Response { msgid, error, result } => {
            lemma_enc_values_4(items);
            let e0 = enc_value(items[0]);
            let e1 = enc_value(items[1]);
            let e2 = enc_value(items[2]);
            let e3 = enc_value(items[3]);
            let tail = e0 + (e1 + (e2 + e3));
            assert(s =~= crate::format::enc_array_len(4) + tail);
            crate::format::lemma_parse_enc_array_len(4, tail);
            let c0 = crate::format::enc_array_len(4).len() as int;
            assert(s.skip(c0) =~= tail);
            assert(e0 =~= crate::format::enc_unsigned(1));
            crate::decoder::lemma_read_back_unsigned(1, e1 + (e2 + e3));
            assert(tail =~= crate::format::enc_unsigned(1) + (e1 + (e2 + e3)));
            let c1 = e0.len() as int;
            assert(tail.skip(c1) =~= e1 + (e2 + e3));
            crate::decoder::lemma_read_back_unsigned(msgid as u64, e2 + e3);
            assert(e1 + (e2 + e3) =~= crate::format::enc_unsigned(msgid as u64) + (e2 + e3));
            let c2 = e1.len() as int;
            assert((e1 + (e2 + e3)).skip(c2) =~= e2 + e3);
            assert(wf_svalue(items[2]) && wf_svalue(items[3]));
            crate::value::lemma_dec_enc_value(items[2], e3);
            assert(e2 + e3 =~= enc_value(items[2]) + e3);
            let c3 = e2.len() as int;
            assert((e2 + e3).skip(c3) =~= e3);
            crate::value::lemma_dec_enc_value(items[3], Seq::<u8>::empty());
            assert(e3 + Seq::<u8>::empty() =~= e3);
            assert((e1 + (e2 + e3)).skip(c2 + c3) =~= e3);
            assert(s.skip(c0).skip(c1) =~= tail.skip(c1));
            assert(s.skip(c0 + c1) =~= e1 + (e2 + e3));
            assert(s.skip(c0 + c1 + c2) =~= e2 + e3);
            assert(s.skip(c0 + c1 + c2 + c3) =~= e3);
        },
        SpecRpc::Notification { method, params } => {
            lemma_enc_values_3(items);
            let e0 = enc_value(items[0]);
            let e1 = enc_value(items[1]);
            let e2 = enc_value(items[2]);
            let tail = e0 + (e1 + e2);
            assert(s =~= crate::format::enc_array_len(3) + tail);
            crate::format::lemma_parse_enc_array_len(3, tail);
            let c0 = crate::format::enc_array_len(3).len() as int;
            assert(s.skip(c0) =~= tail);
            assert(e0 =~= crate::format::enc_unsigned(2));
            crate::decoder::lemma_read_back_unsigned(2, e1 + e2);
            assert(tail =~= crate::format::enc_unsigned(2) + (e1 + e2));
            let c1 = e0.len() as int;
            assert(tail.skip(c1) =~= e1 + e2);
            assert(wf_svalue(items[1]) && wf_svalue(items[2]));
            crate::decoder::lemma_read_back_str(method, e2);
            assert(e1 + e2 =~= crate::format::enc_str_len(
                vstd::utf8::encode_utf8(method).len() as int,
            ) + vstd::utf8::encode_utf8(method) + e2);
            let c2 = e1.len() as int;
            assert((e1 + e2).skip(c2) =~= e2);
            crate::value::lemma_dec_enc_value(items[2], Seq::<u8>::empty());
            assert(e2 + Seq::<u8>::empty() =~= e2);
            assert(s.skip(c0).skip(c1) =~= tail.skip(c1));
            assert(s.skip(c0 + c1) =~= e1 + e2);
            assert(s.skip(c0 + c1 + c2) =~= e2);
        },
    }
}

} // verus!
