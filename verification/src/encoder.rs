//! The encoder: turns primitive emit calls into bytes on an in-memory byte
//! sink, always choosing the most compact representation.
//!
//! Free functions write one item (or one composite header) onto a byte
//! vector; the [`Encoder`] bundles a sink with the same operations plus the
//! composite bracketing calls of the visitor protocol.  Composite headers
//! carry the element count up front, as the wire format requires; the caller
//! then emits exactly that many elements (twice as many for a map).

use vstd::prelude::*;

use crate::format::{
    be2, be4, be8, enc_array_len, enc_bin_len, enc_bool, enc_ext_header, enc_map_len, enc_nil,
    enc_signed, enc_str_len, enc_unsigned, enc_float, enc_double,
};
use vstd::string::StringSliceAdditionalSpecFns;

verus! {

/// Appends the two big-endian bytes of `v`.
fn push_be2(wr: &mut Vec<u8>, v: u16)
    ensures
        final(wr)@ == old(wr)@ + be2(v),
{
    wr.push((v / 0x100) as u8);
    wr.push((v % 0x100) as u8);
    proof {
        assert(wr@ =~= old(wr)@ + be2(v));
    }
}

/// Appends the four big-endian bytes of `v`.
fn push_be4(wr: &mut Vec<u8>, v: u32)
    ensures
        final(wr)@ == old(wr)@ + be4(v),
{
    wr.push((v / 0x100_0000) as u8);
    wr.push(((v / 0x1_0000) % 0x100) as u8);
    wr.push(((v / 0x100) % 0x100) as u8);
    wr.push((v % 0x100) as u8);
    proof {
        assert(wr@ =~= old(wr)@ + be4(v));
    }
}

/// Appends the eight big-endian bytes of `v`.
fn push_be8(wr: &mut Vec<u8>, v: u64)
    ensures
        final(wr)@ == old(wr)@ + be8(v),
{
    wr.push((v / 0x100_0000_0000_0000) as u8);
    wr.push(((v / 0x1_0000_0000_0000) % 0x100) as u8);
    wr.push(((v / 0x100_0000_0000) % 0x100) as u8);
    wr.push(((v / 0x1_0000_0000) % 0x100) as u8);
    wr.push(((v / 0x100_0000) % 0x100) as u8);
    wr.push(((v / 0x1_0000) % 0x100) as u8);
    wr.push(((v / 0x100) % 0x100) as u8);
    wr.push((v % 0x100) as u8);
    proof {
        assert(wr@ =~= old(wr)@ + be8(v));
    }
}

/// Writes a value small enough to live in a positive fixint tag.
fn encode_u7(wr: &mut Vec<u8>, val: u8)
    requires
        val <= 0x7f,
    ensures
        final(wr)@ == old(wr)@ + seq![val],
{
    wr.push(val);
    proof {
        assert(wr@ =~= old(wr)@ + seq![val]);
    }
}

/// Writes a value under the u8 tag.
fn encode_u8(wr: &mut Vec<u8>, val: u8)
    ensures
        final(wr)@ == old(wr)@ + seq![0xccu8, val],
{
    wr.push(0xcc);
    wr.push(val);
    proof {
        assert(wr@ =~= old(wr)@ + seq![0xccu8, val]);
    }
}

/// Writes a value under the u16 tag.
fn encode_u16(wr: &mut Vec<u8>, val: u16)
    ensures
        final(wr)@ == old(wr)@ + seq![0xcdu8] + be2(val),
{
    wr.push(0xcd);
    push_be2(wr, val);
    proof {
        assert(wr@ =~= old(wr)@ + seq![0xcdu8] + be2(val));
    }
}

/// Writes a value under the u32 tag.
fn encode_u32(wr: &mut Vec<u8>, val: u32)
    ensures
        final(wr)@ == old(wr)@ + seq![0xceu8] + be4(val),
{
    wr.push(0xce);
    push_be4(wr, val);
    proof {
        assert(wr@ =~= old(wr)@ + seq![0xceu8] + be4(val));
    }
}

/// Writes a value under the u64 tag.
fn encode_u64(wr: &mut Vec<u8>, val: u64)
    ensures
        final(wr)@ == old(wr)@ + seq![0xcfu8] + be8(val),
{
    wr.push(0xcf);
    push_be8(wr, val);
    proof {
        assert(wr@ =~= old(wr)@ + seq![0xcfu8] + be8(val));
    }
}

/// Writes the most compact representation of the given unsigned integer.
pub fn encode_unsigned(wr: &mut Vec<u8>, val: u64)
    ensures
        final(wr)@ == old(wr)@ + enc_unsigned(val),
{
    if val <= 0x7f {
        encode_u7(wr, val as u8);
    } else if val <= 0xff {
        encode_u8(wr, val as u8);
    } else if val <= 0xffff {
        encode_u16(wr, val as u16);
    } else if val <= 0xffff_ffff {
        encode_u32(wr, val as u32);
    } else {
        encode_u64(wr, val);
    }
    proof {
        assert(wr@ =~= old(wr)@ + enc_unsigned(val));
    }
}

/// Writes the most compact representation of the given signed integer: the
/// untagged negative fixint for -32..=-1, else the smallest tagged form.
pub fn encode_signed(wr: &mut Vec<u8>, val: i64)
    ensures
        final(wr)@ == old(wr)@ + enc_signed(val),
{
    if -32 <= val && val <= -1 {
        wr.push((val + 0x100) as u8);
    } else if -0x80 <= val && val <= 0x7f {
        wr.push(0xd0);
        if val >= 0 {
            wr.push(val as u8);
        } else {
            wr.push((val + 0x100) as u8);
        }
    } else if -0x8000 <= val && val <= 0x7fff {
        wr.push(0xd1);
        if val >= 0 {
            push_be2(wr, val as u16);
        } else {
            push_be2(wr, (val + 0x1_0000) as u16);
        }
    } else if -0x8000_0000 <= val && val <= 0x7fff_ffff {
        wr.push(0xd2);
        if val >= 0 {
            push_be4(wr, val as u32);
        } else {
            push_be4(wr, (val + 0x1_0000_0000) as u32);
        }
    } else {
        wr.push(0xd3);
        if val >= 0 {
            push_be8(wr, val as u64);
        } else {
            push_be8(wr, ((val as i128) + 0x1_0000_0000_0000_0000i128) as u64);
        }
    }
    proof {
        assert(wr@ =~= old(wr)@ + enc_signed(val));
    }
}

/// Writes the canonical header for a string of `len` bytes.
pub fn encode_str_len(wr: &mut Vec<u8>, len: u32)
    ensures
        final(wr)@ == old(wr)@ + enc_str_len(len as int),
{
    if len <= 31 {
        wr.push(0xa0 + len as u8);
    } else if len <= 0xff {
        wr.push(0xd9);
        wr.push(len as u8);
    } else if len <= 0xffff {
        wr.push(0xda);
        push_be2(wr, len as u16);
    } else {
        wr.push(0xdb);
        push_be4(wr, len);
    }
    proof {
        assert(wr@ =~= old(wr)@ + enc_str_len(len as int));
    }
}

/// Writes the canonical header for a binary blob of `len` bytes.
pub fn encode_bin_len(wr: &mut Vec<u8>, len: u32)
    ensures
        final(wr)@ == old(wr)@ + enc_bin_len(len as int),
{
    if len <= 0xff {
        wr.push(0xc4);
        wr.push(len as u8);
    } else if len <= 0xffff {
        wr.push(0xc5);
        push_be2(wr, len as u16);
    } else {
        wr.push(0xc6);
        push_be4(wr, len);
    }
    proof {
        assert(wr@ =~= old(wr)@ + enc_bin_len(len as int));
    }
}

/// Writes the canonical header for an array of `len` items.
pub fn encode_vec_len(wr: &mut Vec<u8>, len: u32)
    ensures
        final(wr)@ == old(wr)@ + enc_array_len(len as int),
{
    if len <= 15 {
        wr.push(0x90 + len as u8);
    } else if len <= 0xffff {
        wr.push(0xdc);
        push_be2(wr, len as u16);
    } else {
        wr.push(0xdd);
        push_be4(wr, len);
    }
    proof {
        assert(wr@ =~= old(wr)@ + enc_array_len(len as int));
    }
}

/// Writes the canonical header for a map of `len` key/value pairs.
pub fn encode_map_len(wr: &mut Vec<u8>, len: u32)
    ensures
        final(wr)@ == old(wr)@ + enc_map_len(len as int),
{
    if len <= 15 {
        wr.push(0x80 + len as u8);
    } else if len <= 0xffff {
        wr.push(0xde);
        push_be2(wr, len as u16);
    } else {
        wr.push(0xdf);
        push_be4(wr, len);
    }
    proof {
        assert(wr@ =~= old(wr)@ + enc_map_len(len as int));
    }
}

/// Writes the canonical header for an extension item of `len` payload bytes.
pub fn encode_ext_len(wr: &mut Vec<u8>, len: u32)
    ensures
        final(wr)@ == old(wr)@ + enc_ext_header(len as int),
{
    if len == 1 {
        wr.push(0xd4);
    } else if len == 2 {
        wr.push(0xd5);
    } else if len == 4 {
        wr.push(0xd6);
    } else if len == 8 {
        wr.push(0xd7);
    } else if len == 16 {
        wr.push(0xd8);
    } else if len <= 0xff {
        wr.push(0xc7);
        wr.push(len as u8);
    } else if len <= 0xffff {
        wr.push(0xc8);
        push_be2(wr, len as u16);
    } else {
        wr.push(0xc9);
        push_be4(wr, len);
    }
    proof {
        assert(wr@ =~= old(wr)@ + enc_ext_header(len as int));
    }
}

/// Writes the nil tag.
pub fn encode_nil(wr: &mut Vec<u8>)
    ensures
        final(wr)@ == old(wr)@ + enc_nil(),
{
    wr.push(0xc0);
    proof {
        assert(wr@ =~= old(wr)@ + enc_nil());
    }
}

/// Writes the boolean tag for `val`.
pub fn encode_bool(wr: &mut Vec<u8>, val: bool)
    ensures
        final(wr)@ == old(wr)@ + enc_bool(val),
{
    if val {
        wr.push(0xc3);
    } else {
        wr.push(0xc2);
    }
    proof {
        assert(wr@ =~= old(wr)@ + enc_bool(val));
    }
}

/// Appends raw payload bytes unchanged.
pub fn encode_raw(wr: &mut Vec<u8>, val: &[u8])
    ensures
        final(wr)@ == old(wr)@ + val@,
{
    wr.extend_from_slice(val);
}

/// Writes a whole string item: its canonical length header, then its UTF-8
/// bytes.
pub fn encode_str(wr: &mut Vec<u8>, val: &str)
    requires
        val.spec_bytes().len() <= u32::MAX,
    ensures
        final(wr)@ == old(wr)@ + enc_str_len(val.spec_bytes().len() as int) + val.spec_bytes(),
{
    let bytes = val.as_bytes();
    encode_str_len(wr, bytes.len() as u32);
    encode_raw(wr, bytes);
}

/// Writes the float32 tag and the IEEE-754 bit pattern of the value.
pub fn encode_f32_bits(wr: &mut Vec<u8>, bits: u32)
    ensures
        final(wr)@ == old(wr)@ + enc_float(bits),
{
    wr.push(0xca);
    push_be4(wr, bits);
    proof {
        assert(wr@ =~= old(wr)@ + enc_float(bits));
    }
}

/// Writes the float64 tag and the IEEE-754 bit pattern of the value.
pub fn encode_f64_bits(wr: &mut Vec<u8>, bits: u64)
    ensures
        final(wr)@ == old(wr)@ + enc_double(bits),
{
    wr.push(0xcb);
    push_be8(wr, bits);
    proof {
        assert(wr@ =~= old(wr)@ + enc_double(bits));
    }
}


// ---------------------------------------------------------------------------
// The Encoder: a byte sink plus the emit operations of the visitor protocol
// ---------------------------------------------------------------------------

/// A structure for serializing values into bytes.  Its view is the sequence
/// of bytes emitted so far.
pub struct Encoder {
    buf: Vec<u8>,
}

impl View for Encoder {
    type V = Seq<u8>;

    closed spec fn view(&self) -> Seq<u8> {
        self.buf@
    }
}

/// Relies on char::to_string from std: the returned string holds exactly the
/// one character it was called on.
#[verifier::external_body]
fn char_to_string(c: char) -> (s: String)
    ensures
        s@ == seq![c],
{
    c.to_string()
}

impl Encoder {
    /// Creates an encoder with an empty sink.
    pub fn new() -> (e: Encoder)
        ensures
            e@ == Seq::<u8>::empty(),
    {
        Encoder { buf: Vec::new() }
    }

    /// Hands the emitted bytes over.
    pub fn into_bytes(self) -> (r: Vec<u8>)
        ensures
            r@ == self@,
    {
        self.buf
    }

    /// Emits the nil tag.
    pub fn emit_nil(&mut self)
        ensures
            final(self)@ == old(self)@ + enc_nil(),
    {
        encode_nil(&mut self.buf);
    }

    /// Emits a boolean.
    pub fn emit_bool(&mut self, v: bool)
        ensures
            final(self)@ == old(self)@ + enc_bool(v),
    {
        encode_bool(&mut self.buf, v);
    }

    /// Emits an unsigned integer in its most compact form.
    pub fn emit_u64(&mut self, v: u64)
        ensures
            final(self)@ == old(self)@ + enc_unsigned(v),
    {
        encode_unsigned(&mut self.buf, v);
    }

    /// Emits an unsigned integer in its most compact form.
    pub fn emit_u32(&mut self, v: u32)
        ensures
            final(self)@ == old(self)@ + enc_unsigned(v as u64),
    {
        encode_unsigned(&mut self.buf, v as u64);
    }

    /// Emits an unsigned integer in its most compact form.
    pub fn emit_u16(&mut self, v: u16)
        ensures
            final(self)@ == old(self)@ + enc_unsigned(v as u64),
    {
        encode_unsigned(&mut self.buf, v as u64);
    }

    /// Emits an unsigned integer in its most compact form.
    pub fn emit_u8(&mut self, v: u8)
        ensures
            final(self)@ == old(self)@ + enc_unsigned(v as u64),
    {
        encode_unsigned(&mut self.buf, v as u64);
    }

    /// Emits an unsigned integer in its most compact form.
    pub fn emit_usize(&mut self, v: usize)
        ensures
            final(self)@ == old(self)@ + enc_unsigned(v as u64),
    {
        encode_unsigned(&mut self.buf, v as u64);
    }

    /// Emits a signed integer in its most compact form.
    pub fn emit_i64(&mut self, v: i64)
        ensures
            final(self)@ == old(self)@ + enc_signed(v),
    {
        encode_signed(&mut self.buf, v);
    }

    /// Emits a signed integer in its most compact form.
    pub fn emit_i32(&mut self, v: i32)
        ensures
            final(self)@ == old(self)@ + enc_signed(v as i64),
    {
        encode_signed(&mut self.buf, v as i64);
    }

    /// Emits a signed integer in its most compact form.
    pub fn emit_i16(&mut self, v: i16)
        ensures
            final(self)@ == old(self)@ + enc_signed(v as i64),
    {
        encode_signed(&mut self.buf, v as i64);
    }

    /// Emits a signed integer in its most compact form.
    pub fn emit_i8(&mut self, v: i8)
        ensures
            final(self)@ == old(self)@ + enc_signed(v as i64),
    {
        encode_signed(&mut self.buf, v as i64);
    }

    /// Emits a signed integer in its most compact form.
    pub fn emit_isize(&mut self, v: isize)
        ensures
            final(self)@ == old(self)@ + enc_signed(v as i64),
    {
        encode_signed(&mut self.buf, v as i64);
    }

    /// Emits a 32-bit float given as its IEEE-754 bit pattern.
    pub fn emit_f32_bits(&mut self, bits: u32)
        ensures
            final(self)@ == old(self)@ + enc_float(bits),
    {
        encode_f32_bits(&mut self.buf, bits);
    }

    /// Emits a 64-bit float given as its IEEE-754 bit pattern.
    pub fn emit_f64_bits(&mut self, bits: u64)
        ensures
            final(self)@ == old(self)@ + enc_double(bits),
    {
        encode_f64_bits(&mut self.buf, bits);
    }

    /// Emits a whole string item.
    pub fn emit_str(&mut self, v: &str)
        requires
            v.spec_bytes().len() <= u32::MAX,
        ensures
            final(self)@ == old(self)@ + enc_str_len(v.spec_bytes().len() as int)
                + v.spec_bytes(),
    {
        encode_str(&mut self.buf, v);
    }

    /// Emits a whole string item holding the one character `v`.
    pub fn emit_char(&mut self, v: char)
        ensures
            final(self)@ == old(self)@ + enc_str_len(
                vstd::utf8::encode_utf8(seq![v]).len() as int,
            ) + vstd::utf8::encode_utf8(seq![v]),
    {
        let s = char_to_string(v);
        proof {
            let cs = seq![v];
            assert(cs.drop_first() =~= Seq::<char>::empty());
            assert(vstd::utf8::encode_utf8(Seq::<char>::empty()) =~= Seq::<u8>::empty());
            assert(vstd::utf8::encode_utf8(cs) == vstd::utf8::encode_scalar(cs[0] as u32)
                + vstd::utf8::encode_utf8(cs.drop_first()));
            assert(vstd::utf8::encode_utf8(cs) =~= vstd::utf8::encode_scalar(v as u32));
        }
        self.emit_str(s.as_str());
    }

    /// Emits a whole binary item: its canonical length header, then the raw
    /// bytes.
    pub fn emit_bin(&mut self, v: &[u8])
        requires
            v@.len() <= u32::MAX,
        ensures
            final(self)@ == old(self)@ + enc_bin_len(v@.len() as int) + v@,
    {
        encode_bin_len(&mut self.buf, v.len() as u32);
        encode_raw(&mut self.buf, v);
    }

    /// Opens a sequence of `len` items: emits the array header; the caller
    /// must emit exactly `len` items next.
    pub fn emit_seq(&mut self, len: usize)
        requires
            len <= u32::MAX,
        ensures
            final(self)@ == old(self)@ + enc_array_len(len as int),
    {
        encode_vec_len(&mut self.buf, len as u32);
    }

    /// Opens a mapping of `len` key/value pairs: emits the map header; the
    /// caller must emit exactly `2 * len` items (key, value, ...) next.
    pub fn emit_map(&mut self, len: usize)
        requires
            len <= u32::MAX,
        ensures
            final(self)@ == old(self)@ + enc_map_len(len as int),
    {
        encode_map_len(&mut self.buf, len as u32);
    }

    /// Opens a record of `len` fields, encoded as a mapping of (name, value)
    /// pairs; the caller emits each field name (a string) and its value.
    pub fn emit_struct(&mut self, len: usize)
        requires
            len <= u32::MAX,
        ensures
            final(self)@ == old(self)@ + enc_map_len(len as int),
    {
        encode_map_len(&mut self.buf, len as u32);
    }

    /// Emits one field name of a record.
    pub fn emit_struct_field(&mut self, name: &str)
        requires
            name.spec_bytes().len() <= u32::MAX,
        ensures
            final(self)@ == old(self)@ + enc_str_len(name.spec_bytes().len() as int)
                + name.spec_bytes(),
    {
        encode_str(&mut self.buf, name);
    }

    /// Opens a tagged variant with `cnt` arguments: an array of `cnt + 1`
    /// items whose first item is the variant name; the caller emits the
    /// arguments next.
    pub fn emit_enum_variant(&mut self, name: &str, cnt: usize)
        requires
            name.spec_bytes().len() <= u32::MAX,
            cnt + 1 <= u32::MAX,
        ensures
            final(self)@ == old(self)@ + enc_array_len(cnt + 1) + enc_str_len(
                name.spec_bytes().len() as int,
            ) + name.spec_bytes(),
    {
        encode_vec_len(&mut self.buf, (cnt + 1) as u32);
        encode_str(&mut self.buf, name);
    }

    /// Opens a tuple of `len` items, encoded as an array.
    pub fn emit_tuple(&mut self, len: usize)
        requires
            len <= u32::MAX,
        ensures
            final(self)@ == old(self)@ + enc_array_len(len as int),
    {
        encode_vec_len(&mut self.buf, len as u32);
    }

    /// Emits an absent optional value: the nil tag.
    pub fn emit_option_none(&mut self)
        ensures
            final(self)@ == old(self)@ + enc_nil(),
    {
        encode_nil(&mut self.buf);
    }

    /// Opens a present optional value: nothing goes on the wire beyond the
    /// value itself, which the caller emits next.
    pub fn emit_option_some(&mut self)
        ensures
            final(self)@ == old(self)@,
    {
    }
}


impl Encoder {
    /// Emits an unsigned platform-width integer in its most compact form.
    pub fn emit_uint(&mut self, v: usize)
        ensures
            final(self)@ == old(self)@ + enc_unsigned(v as u64),
    {
        encode_unsigned(&mut self.buf, v as u64);
    }

    /// Emits a signed platform-width integer in its most compact form.
    pub fn emit_int(&mut self, v: isize)
        ensures
            final(self)@ == old(self)@ + enc_signed(v as i64),
    {
        encode_signed(&mut self.buf, v as i64);
    }

    /// Emits a whole extension item: its canonical header, its type, then
    /// the raw payload.
    pub fn emit_ext(&mut self, t: i8, data: &[u8])
        requires
            0 <= t,
            data@.len() <= u32::MAX,
        ensures
            final(self)@ == old(self)@ + crate::format::enc_ext(t, data@),
    {
        encode_ext_len(&mut self.buf, data.len() as u32);
        self.buf.push(t as u8);
        encode_raw(&mut self.buf, data);
        proof {
            assert(self@ =~= old(self)@ + crate::format::enc_ext(t, data@));
        }
    }

    /// Opens an enum: nothing goes on the wire before its variant.
    pub fn emit_enum(&mut self)
        ensures
            final(self)@ == old(self)@,
    {
    }

    /// Emits one argument of a variant: the argument's own bytes follow.
    pub fn emit_enum_variant_arg(&mut self)
        ensures
            final(self)@ == old(self)@,
    {
    }

    /// Opens a struct variant: encoded exactly as a tagged variant.
    pub fn emit_enum_struct_variant(&mut self, name: &str, cnt: usize)
        requires
            name.spec_bytes().len() <= u32::MAX,
            cnt + 1 <= u32::MAX,
        ensures
            final(self)@ == old(self)@ + enc_array_len(cnt + 1) + enc_str_len(
                name.spec_bytes().len() as int,
            ) + name.spec_bytes(),
    {
        self.emit_enum_variant(name, cnt);
    }

    /// Emits one field of a struct variant: the field's own bytes follow.
    pub fn emit_enum_struct_variant_field(&mut self)
        ensures
            final(self)@ == old(self)@,
    {
    }

    /// Emits one element of a sequence: the element's own bytes follow.
    pub fn emit_seq_elt(&mut self)
        ensures
            final(self)@ == old(self)@,
    {
    }

    /// Emits one key of a mapping: the key's own bytes follow.
    pub fn emit_map_elt_key(&mut self)
        ensures
            final(self)@ == old(self)@,
    {
    }

    /// Emits one value of a mapping: the value's own bytes follow.
    pub fn emit_map_elt_val(&mut self)
        ensures
            final(self)@ == old(self)@,
    {
    }

    /// Opens a named tuple, encoded exactly as an array.
    pub fn emit_tuple_struct(&mut self, len: usize)
        requires
            len <= u32::MAX,
        ensures
            final(self)@ == old(self)@ + enc_array_len(len as int),
    {
        encode_vec_len(&mut self.buf, len as u32);
    }

    /// Emits one argument of a named tuple: the argument's bytes follow.
    pub fn emit_tuple_struct_arg(&mut self)
        ensures
            final(self)@ == old(self)@,
    {
    }

    /// Opens an optional value: presence is decided by what follows (the
    /// nil tag when absent, the value itself when present).
    pub fn emit_option(&mut self)
        ensures
            final(self)@ == old(self)@,
    {
    }
}

} // verus!
