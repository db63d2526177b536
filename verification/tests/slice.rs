//! The incremental slice parser: zero-copy results, lazy composite headers,
//! and resumability over growing buffers.

use msgpack::encoder::{encode_str, encode_unsigned, encode_vec_len};
use msgpack::slice_reader::{parse_next, Error, Reader, Value};

#[test]
fn test_decode() {
    let mut v = Vec::new();
    encode_unsigned(&mut v, 1234);

    match parse_next(&v[..]) {
        Ok((Value::Unsigned(n), rest)) => {
            assert_eq!(1234, n);
            assert!(rest.is_empty());
        }
        _ => assert!(false),
    }
}

#[test]
fn test_decode_array() {
    let mut v = Vec::new();
    encode_vec_len(&mut v, 3);
    encode_unsigned(&mut v, 1);
    encode_unsigned(&mut v, 2);
    encode_unsigned(&mut v, 3);

    match parse_next(&v[..]) {
        Ok((Value::Array(n), rest)) => {
            assert_eq!(3, n);
            assert!(!rest.is_empty());
            let mut next = rest;
            for i in 0..n {
                match parse_next(next) {
                    Ok((Value::Unsigned(x), rest)) => {
                        assert_eq!((i + 1) as u64, x);
                        next = rest;
                    }
                    _ => assert!(false),
                }
            }
            assert!(next.is_empty());
            assert_eq!(Err(Error::Eos), parse_next(next))
        }
        _ => assert!(false),
    }
}

#[test]
fn test_decode_string() {
    let mut v = Vec::new();
    encode_str(&mut v, "hello world");

    match parse_next(&v[..]) {
        Ok((Value::Text(s), rest)) => {
            assert_eq!(b"hello world", s);
            assert!(rest.is_empty());
        }
        _ => assert!(false),
    }
}

#[test]
fn test_exact_sequence_bytes() {
    // The sequence [1, 2, 3] of unsigned integers is exactly these bytes,
    // and parsing announces the array and then yields its three items.
    let mut v = Vec::new();
    encode_vec_len(&mut v, 3);
    encode_unsigned(&mut v, 1);
    encode_unsigned(&mut v, 2);
    encode_unsigned(&mut v, 3);
    assert_eq!(v, vec![0x93, 0x01, 0x02, 0x03]);

    let mut rd = Reader::new(&v);
    assert_eq!(rd.next().unwrap(), Value::Array(3));
    assert_eq!(rd.next().unwrap(), Value::Unsigned(1));
    assert_eq!(rd.next().unwrap(), Value::Unsigned(2));
    assert_eq!(rd.next().unwrap(), Value::Unsigned(3));
    assert_eq!(rd.next(), Err(Error::Eos));
}

#[test]
fn test_resumability() {
    // Every strict prefix of a complete item either asks for more bytes or
    // already yields the full result; the full buffer always parses the
    // same way however many short prefixes were attempted first.
    let mut v = Vec::new();
    encode_str(&mut v, "hello world");
    let full = parse_next(&v[..]);
    let (full_value, full_rest) = full.unwrap();
    assert_eq!(full_value, Value::Text(b"hello world"));
    assert!(full_rest.is_empty());

    for k in 0..v.len() {
        match parse_next(&v[..k]) {
            Err(Error::Eos) => assert_eq!(k, 0),
            Err(Error::NeedMoreData(Some(n))) => {
                assert!(n > 0);
                // The reported shortfall never overshoots the full buffer.
                assert!(k + n <= v.len());
            }
            other => panic!("prefix of length {} gave {:?}", k, other),
        }
    }

    // Retrying after each shortfall report converges on the same result.
    let mut have = 1;
    loop {
        match parse_next(&v[..have]) {
            Ok((value, rest)) => {
                assert_eq!(value, full_value);
                assert!(rest.is_empty());
                break;
            }
            Err(Error::NeedMoreData(Some(n))) => {
                have += n;
                assert!(have <= v.len());
            }
            other => panic!("unexpected {:?}", other),
        }
    }
}

#[test]
fn test_parse_reserved() {
    match parse_next(&[0xc1]) {
        Err(Error::Invalid(_)) => {}
        other => panic!("unexpected {:?}", other),
    }
}

#[test]
fn test_parse_scalars() {
    assert_eq!(parse_next(&[0xc0]).unwrap().0, Value::Nil);
    assert_eq!(parse_next(&[0xc2]).unwrap().0, Value::Boolean(false));
    assert_eq!(parse_next(&[0xc3]).unwrap().0, Value::Boolean(true));
    assert_eq!(parse_next(&[0xe0]).unwrap().0, Value::Signed(-32));
    assert_eq!(parse_next(&[0xd0, 0xdf]).unwrap().0, Value::Signed(-33));
    assert_eq!(
        parse_next(&[0xd3, 0xff, 0xff, 0xff, 0xff, 0xff, 0xff, 0xff, 0xfe]).unwrap().0,
        Value::Signed(-2)
    );
    assert_eq!(parse_next(&[0x81]).unwrap().0, Value::Mapping(1));
    let bits = (1.5f32).to_bits();
    let b = bits.to_be_bytes();
    assert_eq!(
        parse_next(&[0xca, b[0], b[1], b[2], b[3]]).unwrap().0,
        Value::Float(bits)
    );
}

#[test]
fn test_parse_ext() {
    // fixext1 with type 7 and one payload byte.
    let bytes = [0xd4u8, 7, 42];
    match parse_next(&bytes) {
        Ok((Value::Extended(t, payload), rest)) => {
            assert_eq!(t, 7);
            assert_eq!(payload, &[42]);
            assert!(rest.is_empty());
        }
        other => panic!("unexpected {:?}", other),
    }
    // A type byte with the sign bit set is reserved.
    match parse_next(&[0xd4, 0xff, 42]) {
        Err(Error::Invalid(_)) => {}
        other => panic!("unexpected {:?}", other),
    }
}
