//! Exact-bytes checks of the canonical encoding, boundary behaviour, liberal
//! decoding, and the reserved tag.

use msgpack::decoder::{DecodeError, Decoder};
use msgpack::encoder::{
    encode_bool, encode_nil, encode_signed, encode_str, encode_str_len, encode_unsigned,
    encode_vec_len, encode_map_len, encode_bin_len,
};
use msgpack::encoder::Encoder;
use msgpack::value::{from_msgpack, Value};

#[test]
fn test_reference_struct() {
    // The record {compact: true, schema: 0}, fields in declared order.
    let mut e = Encoder::new();
    e.emit_struct(2);
    e.emit_struct_field("compact");
    e.emit_bool(true);
    e.emit_struct_field("schema");
    e.emit_u8(0);
    let bytes = e.into_bytes();
    let ref_bytes = [
        130u8, 167, 99, 111, 109, 112, 97, 99, 116, 195, 166, 115, 99, 104, 101, 109, 97, 0,
    ];
    assert_eq!(&bytes[..], &ref_bytes[..]);

    let mut d = Decoder::new(&bytes);
    d.read_struct(2).unwrap();
    d.read_struct_field("compact").unwrap();
    assert_eq!(d.read_bool().unwrap(), true);
    d.read_struct_field("schema").unwrap();
    assert_eq!(d.read_u8().unwrap(), 0);
    assert!(d.is_at_end());
}

#[test]
fn test_canonical_unsigned() {
    // 1234 > 255 but <= 65535, so exactly the u16 form.
    let mut v = Vec::new();
    encode_unsigned(&mut v, 1234);
    assert_eq!(v, vec![0xcd, 0x04, 0xd2]);

    let mut v = Vec::new();
    encode_unsigned(&mut v, 5);
    assert_eq!(v, vec![0x05]);

    let mut v = Vec::new();
    encode_unsigned(&mut v, 255);
    assert_eq!(v, vec![0xcc, 0xff]);

    let mut v = Vec::new();
    encode_unsigned(&mut v, 0x1_0000);
    assert_eq!(v, vec![0xce, 0x00, 0x01, 0x00, 0x00]);

    let mut v = Vec::new();
    encode_unsigned(&mut v, 0x1_0000_0000);
    assert_eq!(v, vec![0xcf, 0, 0, 0, 1, 0, 0, 0, 0]);
}

#[test]
fn test_liberal_unsigned_decode() {
    // The same logical value 5 under the u32 tag and as a fixint.
    let wide = [0xceu8, 0, 0, 0, 5];
    let narrow = [0x05u8];
    let mut d1 = Decoder::new(&wide);
    let mut d2 = Decoder::new(&narrow);
    let a = d1.read_u64().unwrap();
    let b = d2.read_u64().unwrap();
    assert_eq!(a, b);
    assert_eq!(a, 5);
}

#[test]
fn test_str_len_boundary() {
    // Length 31 stays a fixstr; length 32 switches to the explicit form.
    let mut v31 = Vec::new();
    encode_str_len(&mut v31, 31);
    assert_eq!(v31, vec![0xbf]);

    let mut v32 = Vec::new();
    encode_str_len(&mut v32, 32);
    assert_eq!(v32, vec![0xd9, 32]);

    let mut v256 = Vec::new();
    encode_str_len(&mut v256, 256);
    assert_eq!(v256, vec![0xda, 0x01, 0x00]);
}

#[test]
fn test_array_len_boundary() {
    // Length 15 stays a fixarray; length 16 switches to the 16-bit form.
    let mut v15 = Vec::new();
    encode_vec_len(&mut v15, 15);
    assert_eq!(v15, vec![0x9f]);

    let mut v16 = Vec::new();
    encode_vec_len(&mut v16, 16);
    assert_eq!(v16, vec![0xdc, 0x00, 0x10]);

    let mut m15 = Vec::new();
    encode_map_len(&mut m15, 15);
    assert_eq!(m15, vec![0x8f]);

    let mut m16 = Vec::new();
    encode_map_len(&mut m16, 16);
    assert_eq!(m16, vec![0xde, 0x00, 0x10]);
}

#[test]
fn test_signed_boundary() {
    // -32 is the last untagged negative fixint; -33 takes the 0xd0 tag.
    let mut a = Vec::new();
    encode_signed(&mut a, -32);
    assert_eq!(a, vec![0xe0]);

    let mut b = Vec::new();
    encode_signed(&mut b, -33);
    assert_eq!(b, vec![0xd0, 0xdf]);

    let mut c = Vec::new();
    encode_signed(&mut c, -1);
    assert_eq!(c, vec![0xff]);

    let mut p = Vec::new();
    encode_signed(&mut p, 5);
    assert_eq!(p, vec![0xd0, 0x05]);
}

#[test]
fn test_reserved_tag_fails() {
    // 0xc1 is reserved: decoding it must fail with a malformed-data error.
    let bytes = [0xc1u8];
    assert_eq!(from_msgpack(&bytes), Err(DecodeError::Reserved));
    let mut d = Decoder::new(&bytes);
    assert_eq!(d.read_u64(), Err(DecodeError::Reserved));
}

#[test]
fn test_narrowing_out_of_range() {
    let mut v = Vec::new();
    encode_unsigned(&mut v, 300);
    let mut d = Decoder::new(&v);
    assert_eq!(d.read_u8(), Err(DecodeError::OutOfRange));

    let mut v = Vec::new();
    encode_signed(&mut v, -40000);
    let mut d = Decoder::new(&v);
    assert_eq!(d.read_i8(), Err(DecodeError::OutOfRange));
}

#[test]
fn test_truncated_fails() {
    let bytes = [0xcdu8, 0x01];
    let mut d = Decoder::new(&bytes);
    assert_eq!(d.read_u64(), Err(DecodeError::Truncated));
}

#[test]
fn test_kind_mismatch_fails() {
    let mut v = Vec::new();
    encode_bool(&mut v, true);
    let mut d = Decoder::new(&v);
    assert_eq!(d.read_u64(), Err(DecodeError::Mismatch));
}

#[test]
fn test_invalid_utf8_fails() {
    // A one-byte string whose payload is not valid UTF-8.
    let bytes = [0xa1u8, 0xff];
    let mut d = Decoder::new(&bytes);
    assert_eq!(d.read_str(), Err(DecodeError::InvalidUtf8));
}

#[test]
fn test_field_and_variant_mismatch() {
    let mut e = Encoder::new();
    e.emit_struct_field("name");
    let bytes = e.into_bytes();
    let mut d = Decoder::new(&bytes);
    assert_eq!(d.read_struct_field("other"), Err(DecodeError::FieldMismatch));

    let mut e = Encoder::new();
    e.emit_enum_variant("Cat", 0);
    let bytes = e.into_bytes();
    let mut d = Decoder::new(&bytes);
    assert_eq!(d.read_enum_variant(&["Dog", "Frog"]), Err(DecodeError::UnknownVariant));
}

#[test]
fn test_value_tree_roundtrip() {
    // A nested value with non-trivial map keys, raw binary, and an
    // extension item.
    let v = Value::Array(vec![
        Value::Nil,
        Value::Boolean(true),
        Value::Unsigned(77),
        Value::Integer(-1234),
        Value::Float((1.5f32).to_bits()),
        Value::Double((-2.25f64).to_bits()),
        Value::Str(b"hello".to_vec()),
        Value::Binary(vec![0, 159, 146, 150]),
        Value::Extended(5, vec![1, 2, 3]),
        Value::Mapping(vec![
            (Value::Str(b"k".to_vec()), Value::Unsigned(1)),
            (Value::Array(vec![Value::Unsigned(9)]), Value::Nil),
            (Value::Str(b"k".to_vec()), Value::Unsigned(2)),
        ]),
    ]);
    let bytes = v.to_msgpack();
    let back = from_msgpack(&bytes).unwrap();
    assert_eq!(back, v);
}

#[test]
fn test_nil_encoding() {
    let mut v = Vec::new();
    encode_nil(&mut v);
    assert_eq!(v, vec![0xc0]);
}

#[test]
fn test_bin_header() {
    let mut v = Vec::new();
    encode_bin_len(&mut v, 3);
    assert_eq!(v, vec![0xc4, 3]);
}

#[test]
fn test_encode_str_bytes() {
    // read_str would fail if the string payload were not written verbatim.
    let mut v = Vec::new();
    encode_str(&mut v, "ab");
    assert_eq!(v, vec![0xa2, 0x61, 0x62]);
}

#[test]
fn test_casts() {
    assert!(msgpack::casts::can_cast_i16_to_i8(127));
    assert!(!msgpack::casts::can_cast_i16_to_i8(128));
    assert!(msgpack::casts::can_cast_i16_to_i8(-128));
    assert!(!msgpack::casts::can_cast_i16_to_i8(-129));
    assert!(msgpack::casts::can_cast_u64_to_u8(255));
    assert!(!msgpack::casts::can_cast_u64_to_u8(256));
    assert!(msgpack::casts::can_cast_u64_to_u16(65535));
    assert!(!msgpack::casts::can_cast_u64_to_u16(65536));
    assert!(msgpack::casts::can_cast_u64_to_u32(0xffff_ffff));
    assert!(!msgpack::casts::can_cast_u64_to_u32(0x1_0000_0000));
    assert!(msgpack::casts::can_cast_i64_to_i32(-0x8000_0000));
    assert!(!msgpack::casts::can_cast_i64_to_i32(-0x8000_0001));
    assert!(msgpack::casts::can_cast_i64_to_i16(-32768));
    assert!(!msgpack::casts::can_cast_i64_to_i16(32768));
    assert!(msgpack::casts::can_cast_i64_to_i8(-128));
    assert!(!msgpack::casts::can_cast_i64_to_i8(200));
    assert!(msgpack::casts::can_cast_u32_to_u8(255));
    assert!(!msgpack::casts::can_cast_u32_to_u16(0x10000));
    assert!(msgpack::casts::can_cast_u16_to_u8(255));
    assert!(msgpack::casts::can_cast_u64_to_uint(1));
    assert!(msgpack::casts::can_cast_i64_to_int(-1));
}
