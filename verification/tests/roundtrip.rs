//! Circular encode/decode checks over the typed emit and read operations.

use msgpack::decoder::Decoder;
use msgpack::encoder::Encoder;

fn circular_str(s: &str) {
    let mut e = Encoder::new();
    e.emit_str(s);
    let bytes = e.into_bytes();
    let mut d = Decoder::new(&bytes);
    assert_eq!(d.read_str().unwrap(), s.to_string());
    assert!(d.is_at_end());
}

fn circular_isize(v: isize) {
    let mut e = Encoder::new();
    e.emit_isize(v);
    let bytes = e.into_bytes();
    let mut d = Decoder::new(&bytes);
    assert_eq!(d.read_isize().unwrap(), v);
    assert!(d.is_at_end());
}

fn circular_int(v: i64) {
    let mut e = Encoder::new();
    e.emit_i64(v);
    let bytes = e.into_bytes();
    let mut d = Decoder::new(&bytes);
    assert_eq!(d.read_i64().unwrap(), v);
    assert!(d.is_at_end());
}

fn circular_float(v: f32) {
    let mut e = Encoder::new();
    e.emit_f32_bits(v.to_bits());
    let bytes = e.into_bytes();
    let mut d = Decoder::new(&bytes);
    assert_eq!(f32::from_bits(d.read_f32_bits().unwrap()), v);
    assert!(d.is_at_end());
}

fn circular_bool(v: bool) {
    let mut e = Encoder::new();
    e.emit_bool(v);
    let bytes = e.into_bytes();
    let mut d = Decoder::new(&bytes);
    assert_eq!(d.read_bool().unwrap(), v);
    assert!(d.is_at_end());
}

fn circular_list(v: &[isize]) {
    let mut e = Encoder::new();
    e.emit_seq(v.len());
    for x in v {
        e.emit_isize(*x);
    }
    let bytes = e.into_bytes();
    let mut d = Decoder::new(&bytes);
    let n = d.read_seq().unwrap();
    assert_eq!(n, v.len());
    let mut back = Vec::new();
    for _ in 0..n {
        back.push(d.read_isize().unwrap());
    }
    assert_eq!(back, v);
    assert!(d.is_at_end());
}

fn circular_map(v: &[(isize, isize)]) {
    let mut e = Encoder::new();
    e.emit_map(v.len());
    for (k, x) in v {
        e.emit_isize(*k);
        e.emit_isize(*x);
    }
    let bytes = e.into_bytes();
    let mut d = Decoder::new(&bytes);
    let n = d.read_map().unwrap();
    assert_eq!(n, v.len());
    let mut back = Vec::new();
    for _ in 0..n {
        let k = d.read_isize().unwrap();
        let x = d.read_isize().unwrap();
        back.push((k, x));
    }
    assert_eq!(back, v);
    assert!(d.is_at_end());
}

fn circular_option(v: Option<isize>) {
    let mut e = Encoder::new();
    match v {
        None => e.emit_option_none(),
        Some(x) => {
            e.emit_option_some();
            e.emit_isize(x);
        }
    }
    let bytes = e.into_bytes();
    let mut d = Decoder::new(&bytes);
    let present = d.read_option().unwrap();
    let back = if present {
        Some(d.read_isize().unwrap())
    } else {
        None
    };
    assert_eq!(back, v);
    assert!(d.is_at_end());
}

fn circular_option_pair(v: (Option<isize>, Option<isize>)) {
    let mut e = Encoder::new();
    e.emit_tuple(2);
    for x in [v.0, v.1] {
        match x {
            None => e.emit_option_none(),
            Some(y) => {
                e.emit_option_some();
                e.emit_isize(y);
            }
        }
    }
    let bytes = e.into_bytes();
    let mut d = Decoder::new(&bytes);
    d.read_tuple(2).unwrap();
    let mut back = Vec::new();
    for _ in 0..2 {
        if d.read_option().unwrap() {
            back.push(Some(d.read_isize().unwrap()));
        } else {
            back.push(None);
        }
    }
    assert_eq!((back[0], back[1]), v);
    assert!(d.is_at_end());
}

fn circular_char(v: char) {
    let mut e = Encoder::new();
    e.emit_char(v);
    let bytes = e.into_bytes();
    let mut d = Decoder::new(&bytes);
    assert_eq!(d.read_char().unwrap(), v);
    assert!(d.is_at_end());
}

#[derive(Debug, PartialEq, Clone)]
struct S {
    f: u8,
    g: u16,
    i: String,
    a: Vec<u32>,
    c: Vec<(u32, u32)>,
}

fn encode_s(e: &mut Encoder, s: &S) {
    e.emit_struct(5);
    e.emit_struct_field("f");
    e.emit_u8(s.f);
    e.emit_struct_field("g");
    e.emit_u16(s.g);
    e.emit_struct_field("i");
    e.emit_str(&s.i);
    e.emit_struct_field("a");
    e.emit_seq(s.a.len());
    for x in &s.a {
        e.emit_u32(*x);
    }
    e.emit_struct_field("c");
    e.emit_map(s.c.len());
    for (k, v) in &s.c {
        e.emit_u32(*k);
        e.emit_u32(*v);
    }
}

fn decode_s(d: &mut Decoder) -> S {
    d.read_struct(5).unwrap();
    d.read_struct_field("f").unwrap();
    let f = d.read_u8().unwrap();
    d.read_struct_field("g").unwrap();
    let g = d.read_u16().unwrap();
    d.read_struct_field("i").unwrap();
    let i = d.read_str().unwrap();
    d.read_struct_field("a").unwrap();
    let n = d.read_seq().unwrap();
    let mut a = Vec::new();
    for _ in 0..n {
        a.push(d.read_u32().unwrap());
    }
    d.read_struct_field("c").unwrap();
    let m = d.read_map().unwrap();
    let mut c = Vec::new();
    for _ in 0..m {
        let k = d.read_u32().unwrap();
        let v = d.read_u32().unwrap();
        c.push((k, v));
    }
    S { f, g, i, a, c }
}

fn circular_struct() {
    let c = vec![(1u32, 2u32), (2u32, 3u32)];
    let s1 = S { f: 1, g: 2, i: "foo".to_string(), a: vec![], c: c.clone() };
    let s2 = S { f: 5, g: 1, i: "bar".to_string(), a: vec![1, 2, 3], c: c.clone() };
    let s = vec![s1, s2];

    let mut e = Encoder::new();
    e.emit_seq(s.len());
    for x in &s {
        encode_s(&mut e, x);
    }
    let bytes = e.into_bytes();
    let mut d = Decoder::new(&bytes);
    let n = d.read_seq().unwrap();
    assert_eq!(n, 2);
    let mut back = Vec::new();
    for _ in 0..n {
        back.push(decode_s(&mut d));
    }
    assert_eq!(back, s);
    assert!(d.is_at_end());
}

#[derive(Debug, PartialEq)]
enum Animal {
    Dog,
    Frog(String, usize),
}

fn circular_animal(v: &Animal) {
    let mut e = Encoder::new();
    match v {
        Animal::Dog => {
            e.emit_enum_variant("Dog", 0);
        }
        Animal::Frog(name, n) => {
            e.emit_enum_variant("Frog", 2);
            e.emit_str(name);
            e.emit_usize(*n);
        }
    }
    let bytes = e.into_bytes();
    let mut d = Decoder::new(&bytes);
    let idx = d.read_enum_variant(&["Dog", "Frog"]).unwrap();
    let back = match idx {
        0 => Animal::Dog,
        1 => {
            let name = d.read_str().unwrap();
            let n = d.read_usize().unwrap();
            Animal::Frog(name, n)
        }
        _ => panic!("unknown variant index"),
    };
    assert_eq!(&back, v);
    assert!(d.is_at_end());
}

#[test]
fn lib_test_circular_str() {
    circular_str("");
    circular_str("a");
    circular_str("abcdef");
}

#[test]
fn test_circular_isize() {
    circular_isize(123);
    circular_isize(-123);
}

#[test]
fn lib_test_circular_float() {
    circular_float(-1243.111_f32);
}

#[test]
fn lib_test_circular_bool() {
    circular_bool(true);
    circular_bool(false);
}

#[test]
fn lib_test_circular_list() {
    circular_list(&[1, 2, 3]);
}

#[test]
fn lib_test_circular_map() {
    circular_map(&[(1, 2), (3, 4)]);
}

#[test]
fn lib_test_circular_option() {
    circular_option(Some(1));
    circular_option(None);
}

#[test]
fn test_circular_embedded_option() {
    circular_option_pair((None, Some(1)));
    circular_option_pair((Some(1), Some(1)));
}

#[test]
fn lib_test_circular_char() {
    circular_char('a');
}

#[test]
fn lib_test_circular_struct() {
    circular_struct();
}

#[test]
fn test_circular_str_lengths() {
    fn from_char(n: usize, c: char) -> String {
        let mut s = String::new();
        for _ in 0..n {
            s.push(c);
        }
        s
    }
    circular_str(&from_char(4, 'a'));
    circular_str(&from_char(32, 'a'));
    circular_str(&from_char(256, 'a'));
    circular_str(&from_char(0x10000, 'a'));
}

#[test]
fn test_circular_enum() {
    circular_animal(&Animal::Dog);
    circular_animal(&Animal::Frog("Henry".to_string(), 349));
}

#[test]
fn test_test_circular_str() {
    circular_str("");
    circular_str("a");
    circular_str("abcdef");
}

#[test]
fn test_test_circular_int() {
    circular_int(123);
    circular_int(-123);
}

#[test]
fn test_test_circular_float() {
    circular_float(-1243.111_f32);
}

#[test]
fn test_test_circular_bool() {
    circular_bool(true);
    circular_bool(false);
}

#[test]
fn test_test_circular_list() {
    circular_list(&[1, 2, 3]);
}

#[test]
fn test_test_circular_map() {
    circular_map(&[(1, 2), (3, 4)]);
}

#[test]
fn test_test_circular_option() {
    circular_option(Some(1));
    circular_option(None);
}

#[test]
fn test_test_circular_char() {
    circular_char('a');
}

#[test]
fn test_test_circular_struct() {
    circular_struct();
}

#[test]
fn msgpack_test_circular_str() {
    circular_str("abcdef");
}

#[test]
fn msgpack_test_circular_int() {
    circular_int(123);
    circular_int(-123);
}

#[test]
fn msgpack_test_circular_float() {
    circular_float(-1243.111_f32);
}

#[test]
fn msgpack_test_circular_bool() {
    circular_bool(true);
    circular_bool(false);
}

#[test]
fn msgpack_test_circular_list() {
    circular_list(&[1, 2, 3]);
}

#[test]
fn msgpack_test_circular_map() {
    circular_map(&[(1, 2), (3, 4)]);
}

#[test]
fn msgpack_test_circular_option() {
    circular_option(Some(1));
    circular_option(None);
}
