//! The wire-format rules: the byte-tag table, the big-endian layout of
//! multi-byte fields, and the canonical (most compact) encoding of every
//! scalar and length.
//!
//! Everything in this module is specification: the encoder promises to
//! produce exactly these byte sequences, and the parser and decoder promise
//! to accept them (and every other tag whose range covers the value).

use vstd::prelude::*;

verus! {

// ---------------------------------------------------------------------------
// Big-endian fields
// ---------------------------------------------------------------------------

/// The two big-endian bytes of a 16-bit value.
pub open spec fn be2(v: u16) -> Seq<u8> {
    seq![(v / 0x100) as u8, (v % 0x100) as u8]
}

/// The four big-endian bytes of a 32-bit value.
pub open spec fn be4(v: u32) -> Seq<u8> {
    seq![
        (v / 0x100_0000) as u8,
        ((v / 0x1_0000) % 0x100) as u8,
        ((v / 0x100) % 0x100) as u8,
        (v % 0x100) as u8,
    ]
}

/// The eight big-endian bytes of a 64-bit value.
pub open spec fn be8(v: u64) -> Seq<u8> {
    seq![
        (v / 0x100_0000_0000_0000) as u8,
        ((v / 0x1_0000_0000_0000) % 0x100) as u8,
        ((v / 0x100_0000_0000) % 0x100) as u8,
        ((v / 0x1_0000_0000) % 0x100) as u8,
        ((v / 0x100_0000) % 0x100) as u8,
        ((v / 0x1_0000) % 0x100) as u8,
        ((v / 0x100) % 0x100) as u8,
        (v % 0x100) as u8,
    ]
}

/// The value carried by two big-endian bytes.
pub open spec fn be2_val(b0: u8, b1: u8) -> int {
    b0 * 0x100 + b1
}

/// The value carried by four big-endian bytes.
pub open spec fn be4_val(b0: u8, b1: u8, b2: u8, b3: u8) -> int {
    b0 * 0x100_0000 + b1 * 0x1_0000 + b2 * 0x100 + b3
}

/// The value carried by eight big-endian bytes.
pub open spec fn be8_val(b0: u8, b1: u8, b2: u8, b3: u8, b4: u8, b5: u8, b6: u8, b7: u8) -> int {
    b0 * 0x100_0000_0000_0000 + b1 * 0x1_0000_0000_0000 + b2 * 0x100_0000_0000
        + b3 * 0x1_0000_0000 + b4 * 0x100_0000 + b5 * 0x1_0000 + b6 * 0x100 + b7
}

/// Reading back the two big-endian bytes of `v` yields `v`.
pub proof fn lemma_be2_val(v: u16)
    ensures
        be2_val(be2(v)[0], be2(v)[1]) == v,
        0 <= be2_val(be2(v)[0], be2(v)[1]) <= u16::MAX,
{
}

/// Reading back the four big-endian bytes of `v` yields `v`.
pub proof fn lemma_be4_val(v: u32)
    ensures
        be4_val(be4(v)[0], be4(v)[1], be4(v)[2], be4(v)[3]) == v,
{
    assert((v / 0x100_0000) * 0x100_0000 + ((v / 0x1_0000) % 0x100) * 0x1_0000
        + ((v / 0x100) % 0x100) * 0x100 + v % 0x100 == v) by (nonlinear_arith);
}

/// Reading back the eight big-endian bytes of `v` yields `v`.
pub proof fn lemma_be8_val(v: u64)
    ensures
        be8_val(
            be8(v)[0], be8(v)[1], be8(v)[2], be8(v)[3],
            be8(v)[4], be8(v)[5], be8(v)[6], be8(v)[7],
        ) == v,
{
    assert((v / 0x100_0000_0000_0000) * 0x100_0000_0000_0000
        + ((v / 0x1_0000_0000_0000) % 0x100) * 0x1_0000_0000_0000
        + ((v / 0x100_0000_0000) % 0x100) * 0x100_0000_0000
        + ((v / 0x1_0000_0000) % 0x100) * 0x1_0000_0000
        + ((v / 0x100_0000) % 0x100) * 0x100_0000
        + ((v / 0x1_0000) % 0x100) * 0x1_0000
        + ((v / 0x100) % 0x100) * 0x100
        + v % 0x100 == v) by (bit_vector);
}

// ---------------------------------------------------------------------------
// Two's-complement reinterpretation of unsigned wire fields
// ---------------------------------------------------------------------------

/// The signed value carried by one payload byte (tag 0xd0).
pub open spec fn sig1(v: int) -> i64 {
    if v < 0x80 { v as i64 } else { (v - 0x100) as i64 }
}

/// The signed value carried by a 16-bit big-endian field (tag 0xd1).
pub open spec fn sig2(v: int) -> i64 {
    if v < 0x8000 { v as i64 } else { (v - 0x1_0000) as i64 }
}

/// The signed value carried by a 32-bit big-endian field (tag 0xd2).
pub open spec fn sig4(v: int) -> i64 {
    if v < 0x8000_0000 { v as i64 } else { (v - 0x1_0000_0000) as i64 }
}

/// The signed value carried by a 64-bit big-endian field (tag 0xd3).
pub open spec fn sig8(v: int) -> i64 {
    if v < 0x8000_0000_0000_0000 { v as i64 } else { (v - 0x1_0000_0000_0000_0000) as i64 }
}

/// The byte that carries a signed value in the 8-bit range.
pub open spec fn u8_of_i(v: int) -> u8
    recommends
        -0x80 <= v <= 0x7f,
{
    if v >= 0 { v as u8 } else { (v + 0x100) as u8 }
}

/// The 16-bit field that carries a signed value in the 16-bit range.
pub open spec fn u16_of_i(v: int) -> u16
    recommends
        -0x8000 <= v <= 0x7fff,
{
    if v >= 0 { v as u16 } else { (v + 0x1_0000) as u16 }
}

/// The 32-bit field that carries a signed value in the 32-bit range.
pub open spec fn u32_of_i(v: int) -> u32
    recommends
        -0x8000_0000 <= v <= 0x7fff_ffff,
{
    if v >= 0 { v as u32 } else { (v + 0x1_0000_0000) as u32 }
}

/// The 64-bit field that carries a signed value.
pub open spec fn u64_of_i(v: int) -> u64
    recommends
        i64::MIN <= v <= i64::MAX,
{
    if v >= 0 { v as u64 } else { (v + 0x1_0000_0000_0000_0000) as u64 }
}

// ---------------------------------------------------------------------------
// Canonical encodings: always the smallest tag whose range covers the value
// ---------------------------------------------------------------------------

/// The one-byte encoding of nil.
pub open spec fn enc_nil() -> Seq<u8> {
    seq![0xc0u8]
}

/// The one-byte encoding of a boolean.
pub open spec fn enc_bool(b: bool) -> Seq<u8> {
    if b { seq![0xc3u8] } else { seq![0xc2u8] }
}

/// The canonical encoding of an unsigned integer: a positive fixint when it
/// fits in 7 bits, else the smallest of the u8/u16/u32/u64 forms.
pub open spec fn enc_unsigned(v: u64) -> Seq<u8> {
    if v <= 0x7f {
        seq![v as u8]
    } else if v <= 0xff {
        seq![0xccu8, v as u8]
    } else if v <= 0xffff {
        seq![0xcdu8] + be2(v as u16)
    } else if v <= 0xffff_ffff {
        seq![0xceu8] + be4(v as u32)
    } else {
        seq![0xcfu8] + be8(v)
    }
}

/// The canonical encoding of a signed integer.  Only -32..=-1 may stand
/// untagged (as a negative fixint); every other value in the 8-bit range
/// carries an explicit 0xd0 tag, and wider values take the smallest of the
/// 16/32/64-bit forms.
pub open spec fn enc_signed(v: i64) -> Seq<u8> {
    if -32 <= v <= -1 {
        seq![u8_of_i(v as int)]
    } else if -0x80 <= v <= 0x7f {
        seq![0xd0u8, u8_of_i(v as int)]
    } else if -0x8000 <= v <= 0x7fff {
        seq![0xd1u8] + be2(u16_of_i(v as int))
    } else if -0x8000_0000 <= v <= 0x7fff_ffff {
        seq![0xd2u8] + be4(u32_of_i(v as int))
    } else {
        seq![0xd3u8] + be8(u64_of_i(v as int))
    }
}

/// The canonical header announcing a string of `n` bytes: fixstr up to 31,
/// then the 8/16/32-bit explicit length forms.
pub open spec fn enc_str_len(n: int) -> Seq<u8>
    recommends
        0 <= n <= u32::MAX,
{
    if n <= 31 {
        seq![(0xa0 + n) as u8]
    } else if n <= 0xff {
        seq![0xd9u8, n as u8]
    } else if n <= 0xffff {
        seq![0xdau8] + be2(n as u16)
    } else {
        seq![0xdbu8] + be4(n as u32)
    }
}

/// The canonical header announcing a binary blob of `n` bytes (no fixed form).
pub open spec fn enc_bin_len(n: int) -> Seq<u8>
    recommends
        0 <= n <= u32::MAX,
{
    if n <= 0xff {
        seq![0xc4u8, n as u8]
    } else if n <= 0xffff {
        seq![0xc5u8] + be2(n as u16)
    } else {
        seq![0xc6u8] + be4(n as u32)
    }
}

/// The canonical header announcing an array of `n` items: fixarray up to 15,
/// then the 16/32-bit forms.
pub open spec fn enc_array_len(n: int) -> Seq<u8>
    recommends
        0 <= n <= u32::MAX,
{
    if n <= 15 {
        seq![(0x90 + n) as u8]
    } else if n <= 0xffff {
        seq![0xdcu8] + be2(n as u16)
    } else {
        seq![0xddu8] + be4(n as u32)
    }
}

/// The canonical header announcing a map of `n` key/value pairs: fixmap up to
/// 15, then the 16/32-bit forms.
pub open spec fn enc_map_len(n: int) -> Seq<u8>
    recommends
        0 <= n <= u32::MAX,
{
    if n <= 15 {
        seq![(0x80 + n) as u8]
    } else if n <= 0xffff {
        seq![0xdeu8] + be2(n as u16)
    } else {
        seq![0xdfu8] + be4(n as u32)
    }
}

/// The encoding of a 32-bit float, given by its IEEE-754 bit pattern.
pub open spec fn enc_float(bits: u32) -> Seq<u8> {
    seq![0xcau8] + be4(bits)
}

/// The encoding of a 64-bit float, given by its IEEE-754 bit pattern.
pub open spec fn enc_double(bits: u64) -> Seq<u8> {
    seq![0xcbu8] + be8(bits)
}

/// The canonical header announcing an extension item of `n` payload bytes:
/// a fixext tag for the five fixed sizes, else the 8/16/32-bit forms.
/// The header is followed by the one-byte type and then the payload.
pub open spec fn enc_ext_header(n: int) -> Seq<u8>
    recommends
        0 <= n <= u32::MAX,
{
    if n == 1 {
        seq![0xd4u8]
    } else if n == 2 {
        seq![0xd5u8]
    } else if n == 4 {
        seq![0xd6u8]
    } else if n == 8 {
        seq![0xd7u8]
    } else if n == 16 {
        seq![0xd8u8]
    } else if n <= 0xff {
        seq![0xc7u8, n as u8]
    } else if n <= 0xffff {
        seq![0xc8u8] + be2(n as u16)
    } else {
        seq![0xc9u8] + be4(n as u32)
    }
}

/// The full canonical encoding of an extension item.
pub open spec fn enc_ext(t: i8, data: Seq<u8>) -> Seq<u8>
    recommends
        0 <= t,
        data.len() <= u32::MAX,
{
    enc_ext_header(data.len() as int) + seq![t as u8] + data
}

// ---------------------------------------------------------------------------
// The item grammar: what one tagged item denotes
// ---------------------------------------------------------------------------

/// One parsed item.  Strings, binaries and extension payloads carry their
/// raw bytes; arrays and maps are length announcements only (their children
/// follow as further items).
pub enum Item {
    Nil,
    Boolean(bool),
    Unsigned(u64),
    Signed(i64),
    FloatBits(u32),
    DoubleBits(u64),
    StrBytes(Seq<u8>),
    BinBytes(Seq<u8>),
    ArrayLen(usize),
    MapLen(usize),
    ExtBytes(i8, Seq<u8>),
}

/// The outcome of parsing the front of a byte sequence.
pub enum ParseStep {
    /// The sequence is empty where an item was expected.
    Eos,
    /// The leading tag is reserved or malformed.
    Invalid,
    /// The leading tag is valid but this many more bytes are needed for the
    /// next field of the item.
    More(int),
    /// One whole item, and the number of bytes it occupies.
    Done(Item, int),
}

/// Parses the single item at the front of `s`.  This is the authoritative
/// statement of the tag table: every tag whose range covers a value is
/// accepted, whether or not it is the canonical choice.
pub open spec fn parse_item(s: Seq<u8>) -> ParseStep {
    if s.len() == 0 {
        ParseStep::Eos
    } else {
        let c = s[0];
        if c <= 0x7f {
            ParseStep::Done(Item::Unsigned(c as u64), 1)
        } else if c <= 0x8f {
            ParseStep::Done(Item::MapLen((c - 0x80) as usize), 1)
        } else if c <= 0x9f {
            ParseStep::Done(Item::ArrayLen((c - 0x90) as usize), 1)
        } else if c <= 0xbf {
            let n = c - 0xa0;
            if s.len() < 1 + n {
                ParseStep::More(1 + n - s.len())
            } else {
                ParseStep::Done(Item::StrBytes(s.subrange(1, 1 + n)), 1 + n)
            }
        } else if c >= 0xe0 {
            ParseStep::Done(Item::Signed((c - 0x100) as i64), 1)
        } else if c == 0xc0 {
            ParseStep::Done(Item::Nil, 1)
        } else if c == 0xc1 {
            ParseStep::Invalid
        } else if c == 0xc2 {
            ParseStep::Done(Item::Boolean(false), 1)
        } else if c == 0xc3 {
            ParseStep::Done(Item::Boolean(true), 1)
        } else if c == 0xc4 {
            parse_bytes_u8_len(s, true)
        } else if c == 0xc5 {
            parse_bytes_u16_len(s, true)
        } else if c == 0xc6 {
            parse_bytes_u32_len(s, true)
        } else if c == 0xc7 {
            if s.len() < 2 {
                ParseStep::More(2 - s.len())
            } else {
                parse_ext_payload(s, 2, s[1] as int)
            }
        } else if c == 0xc8 {
            if s.len() < 3 {
                ParseStep::More(3 - s.len())
            } else {
                parse_ext_payload(s, 3, be2_val(s[1], s[2]))
            }
        } else if c == 0xc9 {
            if s.len() < 5 {
                ParseStep::More(5 - s.len())
            } else {
                parse_ext_payload(s, 5, be4_val(s[1], s[2], s[3], s[4]))
            }
        } else if c == 0xca {
            if s.len() < 5 {
                ParseStep::More(5 - s.len())
            } else {
                ParseStep::Done(Item::FloatBits(be4_val(s[1], s[2], s[3], s[4]) as u32), 5)
            }
        } else if c == 0xcb {
            if s.len() < 9 {
                ParseStep::More(9 - s.len())
            } else {
                ParseStep::Done(
                    Item::DoubleBits(
                        be8_val(s[1], s[2], s[3], s[4], s[5], s[6], s[7], s[8]) as u64,
                    ),
                    9,
                )
            }
        } else if c == 0xcc {
            if s.len() < 2 {
                ParseStep::More(2 - s.len())
            } else {
                ParseStep::Done(Item::Unsigned(s[1] as u64), 2)
            }
        } else if c == 0xcd {
            if s.len() < 3 {
                ParseStep::More(3 - s.len())
            } else {
                ParseStep::Done(Item::Unsigned(be2_val(s[1], s[2]) as u64), 3)
            }
        } else if c == 0xce {
            if s.len() < 5 {
                ParseStep::More(5 - s.len())
            } else {
                ParseStep::Done(Item::Unsigned(be4_val(s[1], s[2], s[3], s[4]) as u64), 5)
            }
        } else if c == 0xcf {
            if s.len() < 9 {
                ParseStep::More(9 - s.len())
            } else {
                ParseStep::Done(
                    Item::Unsigned(be8_val(s[1], s[2], s[3], s[4], s[5], s[6], s[7], s[8]) as u64),
                    9,
                )
            }
        } else if c == 0xd0 {
            if s.len() < 2 {
                ParseStep::More(2 - s.len())
            } else {
                ParseStep::Done(Item::Signed(sig1(s[1] as int)), 2)
            }
        } else if c == 0xd1 {
            if s.len() < 3 {
                ParseStep::More(3 - s.len())
            } else {
                ParseStep::Done(Item::Signed(sig2(be2_val(s[1], s[2]))), 3)
            }
        } else if c == 0xd2 {
            if s.len() < 5 {
                ParseStep::More(5 - s.len())
            } else {
                ParseStep::Done(Item::Signed(sig4(be4_val(s[1], s[2], s[3], s[4]))), 5)
            }
        } else if c == 0xd3 {
            if s.len() < 9 {
                ParseStep::More(9 - s.len())
            } else {
                ParseStep::Done(
                    Item::Signed(sig8(be8_val(s[1], s[2], s[3], s[4], s[5], s[6], s[7], s[8]))),
                    9,
                )
            }
        } else if c == 0xd4 {
            parse_ext_payload(s, 1, 1)
        } else if c == 0xd5 {
            parse_ext_payload(s, 1, 2)
        } else if c == 0xd6 {
            parse_ext_payload(s, 1, 4)
        } else if c == 0xd7 {
            parse_ext_payload(s, 1, 8)
        } else if c == 0xd8 {
            parse_ext_payload(s, 1, 16)
        } else if c == 0xd9 {
            parse_bytes_u8_len(s, false)
        } else if c == 0xda {
            parse_bytes_u16_len(s, false)
        } else if c == 0xdb {
            parse_bytes_u32_len(s, false)
        } else if c == 0xdc {
            if s.len() < 3 {
                ParseStep::More(3 - s.len())
            } else {
                ParseStep::Done(Item::ArrayLen(be2_val(s[1], s[2]) as usize), 3)
            }
        } else if c == 0xdd {
            if s.len() < 5 {
                ParseStep::More(5 - s.len())
            } else {
                ParseStep::Done(Item::ArrayLen(be4_val(s[1], s[2], s[3], s[4]) as usize), 5)
            }
        } else if c == 0xde {
            if s.len() < 3 {
                ParseStep::More(3 - s.len())
            } else {
                ParseStep::Done(Item::MapLen(be2_val(s[1], s[2]) as usize), 3)
            }
        } else {
            // c == 0xdf
            if s.len() < 5 {
                ParseStep::More(5 - s.len())
            } else {
                ParseStep::Done(Item::MapLen(be4_val(s[1], s[2], s[3], s[4]) as usize), 5)
            }
        }
    }
}

/// A string or binary item whose one-byte length field follows the tag.
pub open spec fn parse_bytes_u8_len(s: Seq<u8>, bin: bool) -> ParseStep
    recommends
        s.len() >= 1,
{
    if s.len() < 2 {
        ParseStep::More(2 - s.len())
    } else {
        parse_bytes_payload(s, 2, s[1] as int, bin)
    }
}

/// A string or binary item whose two-byte length field follows the tag.
pub open spec fn parse_bytes_u16_len(s: Seq<u8>, bin: bool) -> ParseStep
    recommends
        s.len() >= 1,
{
    if s.len() < 3 {
        ParseStep::More(3 - s.len())
    } else {
        parse_bytes_payload(s, 3, be2_val(s[1], s[2]), bin)
    }
}

/// A string or binary item whose four-byte length field follows the tag.
pub open spec fn parse_bytes_u32_len(s: Seq<u8>, bin: bool) -> ParseStep
    recommends
        s.len() >= 1,
{
    if s.len() < 5 {
        ParseStep::More(5 - s.len())
    } else {
        parse_bytes_payload(s, 5, be4_val(s[1], s[2], s[3], s[4]), bin)
    }
}

/// The `n` payload bytes of a string or binary item whose header occupies
/// `hdr` bytes.
pub open spec fn parse_bytes_payload(s: Seq<u8>, hdr: int, n: int, bin: bool) -> ParseStep
    recommends
        1 <= hdr <= s.len(),
        0 <= n,
{
    if s.len() < hdr + n {
        ParseStep::More(hdr + n - s.len())
    } else if bin {
        ParseStep::Done(Item::BinBytes(s.subrange(hdr, hdr + n)), hdr + n)
    } else {
        ParseStep::Done(Item::StrBytes(s.subrange(hdr, hdr + n)), hdr + n)
    }
}

/// The type byte and `n` payload bytes of an extension item whose header
/// occupies `hdr` bytes.  A type byte with the sign bit set is reserved and
/// rejected.
pub open spec fn parse_ext_payload(s: Seq<u8>, hdr: int, n: int) -> ParseStep
    recommends
        1 <= hdr <= s.len(),
        0 <= n,
{
    if s.len() < hdr + 1 + n {
        ParseStep::More(hdr + 1 + n - s.len())
    } else if s[hdr] >= 0x80 {
        ParseStep::Invalid
    } else {
        ParseStep::Done(Item::ExtBytes(s[hdr] as i8, s.subrange(hdr + 1, hdr + 1 + n)), hdr + 1 + n)
    }
}

// ---------------------------------------------------------------------------
// Tag classes: which kind of item a tag byte opens
// ---------------------------------------------------------------------------

/// Tags that open an unsigned integer.
pub open spec fn is_unsigned_tag(c: u8) -> bool {
    c <= 0x7f || (0xcc <= c && c <= 0xcf)
}

/// Tags that open a signed integer.
pub open spec fn is_signed_tag(c: u8) -> bool {
    c >= 0xe0 || (0xd0 <= c && c <= 0xd3)
}

/// Tags that open a string.
pub open spec fn is_str_tag(c: u8) -> bool {
    (0xa0 <= c && c <= 0xbf) || c == 0xd9 || c == 0xda || c == 0xdb
}

/// Tags that open a binary blob.
pub open spec fn is_bin_tag(c: u8) -> bool {
    c == 0xc4 || c == 0xc5 || c == 0xc6
}

/// Tags that open an array.
pub open spec fn is_array_tag(c: u8) -> bool {
    (0x90 <= c && c <= 0x9f) || c == 0xdc || c == 0xdd
}

/// Tags that open a map.
pub open spec fn is_map_tag(c: u8) -> bool {
    (0x80 <= c && c <= 0x8f) || c == 0xde || c == 0xdf
}

/// Tags that open an extension item.
pub open spec fn is_ext_tag(c: u8) -> bool {
    (0xd4 <= c && c <= 0xd8) || c == 0xc7 || c == 0xc8 || c == 0xc9
}

// ---------------------------------------------------------------------------
// The parser accepts every canonical encoding
// ---------------------------------------------------------------------------

/// A parsed item occupies at least its tag byte and at most the whole input.
pub proof fn lemma_parse_consumed(s: Seq<u8>)
    ensures
        parse_item(s) matches ParseStep::Done(_, n) ==> 1 <= n <= s.len(),
{
}

/// The canonical unsigned encoding parses back to the same value, whatever
/// follows it.
pub proof fn lemma_parse_enc_unsigned(v: u64, rest: Seq<u8>)
    ensures
        parse_item(enc_unsigned(v) + rest) == ParseStep::Done(
            Item::Unsigned(v),
            enc_unsigned(v).len() as int,
        ),
{
    let s = enc_unsigned(v) + rest;
    if v <= 0x7f {
    } else if v <= 0xff {
    } else if v <= 0xffff {
        lemma_be2_val(v as u16);
        assert(s[1] == be2(v as u16)[0] && s[2] == be2(v as u16)[1]);
    } else if v <= 0xffff_ffff {
        lemma_be4_val(v as u32);
        assert(s[1] == be4(v as u32)[0] && s[2] == be4(v as u32)[1] && s[3] == be4(v as u32)[2]
            && s[4] == be4(v as u32)[3]);
    } else {
        lemma_be8_val(v);
        assert(s[1] == be8(v)[0] && s[2] == be8(v)[1] && s[3] == be8(v)[2] && s[4] == be8(v)[3]
            && s[5] == be8(v)[4] && s[6] == be8(v)[5] && s[7] == be8(v)[6] && s[8] == be8(v)[7]);
    }
}

/// The canonical signed encoding parses back to the same value, whatever
/// follows it.
pub proof fn lemma_parse_enc_signed(v: i64, rest: Seq<u8>)
    ensures
        parse_item(enc_signed(v) + rest) == ParseStep::Done(
            Item::Signed(v),
            enc_signed(v).len() as int,
        ),
{
    let s = enc_signed(v) + rest;
    if -32 <= v <= -1 {
    } else if -0x80 <= v <= 0x7f {
    } else if -0x8000 <= v <= 0x7fff {
        lemma_be2_val(u16_of_i(v as int));
        assert(s[1] == be2(u16_of_i(v as int))[0] && s[2] == be2(u16_of_i(v as int))[1]);
    } else if -0x8000_0000 <= v <= 0x7fff_ffff {
        lemma_be4_val(u32_of_i(v as int));
        let b = be4(u32_of_i(v as int));
        assert(s[1] == b[0] && s[2] == b[1] && s[3] == b[2] && s[4] == b[3]);
    } else {
        lemma_be8_val(u64_of_i(v as int));
        let b = be8(u64_of_i(v as int));
        assert(s[1] == b[0] && s[2] == b[1] && s[3] == b[2] && s[4] == b[3] && s[5] == b[4]
            && s[6] == b[5] && s[7] == b[6] && s[8] == b[7]);
    }
}

/// A canonical string header followed by its payload parses back to that
/// payload, whatever follows it.
pub proof fn lemma_parse_enc_str(payload: Seq<u8>, rest: Seq<u8>)
    requires
        payload.len() <= u32::MAX,
    ensures
        parse_item(enc_str_len(payload.len() as int) + payload + rest) == ParseStep::Done(
            Item::StrBytes(payload),
            enc_str_len(payload.len() as int).len() + payload.len() as int,
        ),
{
    let n = payload.len() as int;
    let hdr = enc_str_len(n);
    let s = hdr + payload + rest;
    if n <= 31 {
        assert(s.subrange(1, 1 + n) =~= payload);
    } else if n <= 0xff {
        assert(s.subrange(2, 2 + n) =~= payload);
    } else if n <= 0xffff {
        lemma_be2_val(n as u16);
        assert(s[1] == be2(n as u16)[0] && s[2] == be2(n as u16)[1]);
        assert(s.subrange(3, 3 + n) =~= payload);
    } else {
        lemma_be4_val(n as u32);
        let b = be4(n as u32);
        assert(s[1] == b[0] && s[2] == b[1] && s[3] == b[2] && s[4] == b[3]);
        assert(s.subrange(5, 5 + n) =~= payload);
    }
}

/// A canonical binary header followed by its payload parses back to that
/// payload, whatever follows it.
pub proof fn lemma_parse_enc_bin(payload: Seq<u8>, rest: Seq<u8>)
    requires
        payload.len() <= u32::MAX,
    ensures
        parse_item(enc_bin_len(payload.len() as int) + payload + rest) == ParseStep::Done(
            Item::BinBytes(payload),
            enc_bin_len(payload.len() as int).len() + payload.len() as int,
        ),
{
    let n = payload.len() as int;
    let s = enc_bin_len(n) + payload + rest;
    if n <= 0xff {
        assert(s.subrange(2, 2 + n) =~= payload);
    } else if n <= 0xffff {
        lemma_be2_val(n as u16);
        assert(s[1] == be2(n as u16)[0] && s[2] == be2(n as u16)[1]);
        assert(s.subrange(3, 3 + n) =~= payload);
    } else {
        lemma_be4_val(n as u32);
        let b = be4(n as u32);
        assert(s[1] == b[0] && s[2] == b[1] && s[3] == b[2] && s[4] == b[3]);
        assert(s.subrange(5, 5 + n) =~= payload);
    }
}

/// A canonical array header parses back to the same length announcement.
pub proof fn lemma_parse_enc_array_len(n: int, rest: Seq<u8>)
    requires
        0 <= n <= u32::MAX,
    ensures
        parse_item(enc_array_len(n) + rest) == ParseStep::Done(
            Item::ArrayLen(n as usize),
            enc_array_len(n).len() as int,
        ),
{
    let s = enc_array_len(n) + rest;
    if n <= 15 {
    } else if n <= 0xffff {
        lemma_be2_val(n as u16);
        assert(s[1] == be2(n as u16)[0] && s[2] == be2(n as u16)[1]);
    } else {
        lemma_be4_val(n as u32);
        let b = be4(n as u32);
        assert(s[1] == b[0] && s[2] == b[1] && s[3] == b[2] && s[4] == b[3]);
    }
}

/// A canonical map header parses back to the same length announcement.
pub proof fn lemma_parse_enc_map_len(n: int, rest: Seq<u8>)
    requires
        0 <= n <= u32::MAX,
    ensures
        parse_item(enc_map_len(n) + rest) == ParseStep::Done(
            Item::MapLen(n as usize),
            enc_map_len(n).len() as int,
        ),
{
    let s = enc_map_len(n) + rest;
    if n <= 15 {
    } else if n <= 0xffff {
        lemma_be2_val(n as u16);
        assert(s[1] == be2(n as u16)[0] && s[2] == be2(n as u16)[1]);
    } else {
        lemma_be4_val(n as u32);
        let b = be4(n as u32);
        assert(s[1] == b[0] && s[2] == b[1] && s[3] == b[2] && s[4] == b[3]);
    }
}

/// The float32 encoding parses back to the same bit pattern.
pub proof fn lemma_parse_enc_float(bits: u32, rest: Seq<u8>)
    ensures
        parse_item(enc_float(bits) + rest) == ParseStep::Done(Item::FloatBits(bits), 5),
{
    let s = enc_float(bits) + rest;
    lemma_be4_val(bits);
    let b = be4(bits);
    assert(s[1] == b[0] && s[2] == b[1] && s[3] == b[2] && s[4] == b[3]);
}

/// The float64 encoding parses back to the same bit pattern.
pub proof fn lemma_parse_enc_double(bits: u64, rest: Seq<u8>)
    ensures
        parse_item(enc_double(bits) + rest) == ParseStep::Done(Item::DoubleBits(bits), 9),
{
    let s = enc_double(bits) + rest;
    lemma_be8_val(bits);
    let b = be8(bits);
    assert(s[1] == b[0] && s[2] == b[1] && s[3] == b[2] && s[4] == b[3] && s[5] == b[4]
        && s[6] == b[5] && s[7] == b[6] && s[8] == b[7]);
}

/// The canonical extension encoding parses back to the same type and payload,
/// whatever follows it.
pub proof fn lemma_parse_enc_ext(t: i8, data: Seq<u8>, rest: Seq<u8>)
    requires
        0 <= t,
        data.len() <= u32::MAX,
    ensures
        parse_item(enc_ext(t, data) + rest) == ParseStep::Done(
            Item::ExtBytes(t, data),
            enc_ext(t, data).len() as int,
        ),
{
    let n = data.len() as int;
    let hdr = enc_ext_header(n);
    let s = enc_ext(t, data) + rest;
    assert(s[hdr.len() as int] == t as u8);
    if n == 1 || n == 2 || n == 4 || n == 8 || n == 16 {
        assert(s.subrange(2, 2 + n) =~= data);
    } else if n <= 0xff {
        assert(s.subrange(3, 3 + n) =~= data);
    } else if n <= 0xffff {
        lemma_be2_val(n as u16);
        assert(s[1] == be2(n as u16)[0] && s[2] == be2(n as u16)[1]);
        assert(s.subrange(4, 4 + n) =~= data);
    } else {
        lemma_be4_val(n as u32);
        let b = be4(n as u32);
        assert(s[1] == b[0] && s[2] == b[1] && s[3] == b[2] && s[4] == b[3]);
        assert(s.subrange(6, 6 + n) =~= data);
    }
}

// ---------------------------------------------------------------------------
// Resumability: parsing is stable under extension of the input
// ---------------------------------------------------------------------------

/// Parsing looks only at the bytes of the item itself: extending the input
/// past a complete item changes nothing, and a malformed item stays
/// malformed.
pub proof fn lemma_parse_prefix(s: Seq<u8>, t: Seq<u8>)
    requires
        s.len() <= t.len(),
        s == t.subrange(0, s.len() as int),
    ensures
        parse_item(s) matches ParseStep::Done(v, n) ==> parse_item(t) == ParseStep::Done(v, n),
        parse_item(s) is Invalid ==> parse_item(t) is Invalid,
{
    if s.len() == 0 {
    } else {
        assert(forall|i: int| 0 <= i < s.len() ==> s[i] == t[i]);
        if parse_item(s) matches ParseStep::Done(v, n) {
            lemma_parse_consumed(s);
            assert(forall|a: int, b: int|
                0 <= a <= b <= s.len() ==> s.subrange(a, b) =~= t.subrange(a, b));
        }
    }
}

/// Resumability: when a byte sequence holds a complete item, every prefix
/// either yields that same item (once the prefix covers it) or reports that
/// more bytes are needed — never a wrong result and never a malformed-data
/// error.
pub proof fn lemma_parse_resumable(s: Seq<u8>, k: int)
    requires
        0 <= k <= s.len(),
        parse_item(s) is Done,
    ensures
        parse_item(s) matches ParseStep::Done(v, n) ==> {
            &&& n <= k ==> parse_item(s.subrange(0, k)) == ParseStep::Done(v, n)
            &&& k < n ==> (parse_item(s.subrange(0, k)) is More || parse_item(
                s.subrange(0, k),
            ) is Eos)
        },
{
    let p = s.subrange(0, k);
    assert(p == s.subrange(0, p.len() as int));
    lemma_parse_prefix(p, s);
    lemma_parse_consumed(s);
    lemma_parse_consumed(p);
    let full = parse_item(s);
    let pre = parse_item(p);
    if let ParseStep::Done(v, n) = full {
        if n <= k {
            // The item lies wholly inside the prefix: parse it there directly.
            lemma_parse_within(s, k);
        } else {
            // The prefix cuts the item short: a complete or malformed result
            // on the prefix would contradict prefix stability.
            if pre is Done || pre is Invalid {
            }
        }
    }
}

/// A complete item at the front of `s` is found unchanged in any prefix of
/// `s` that covers it.
proof fn lemma_parse_within(s: Seq<u8>, k: int)
    requires
        0 <= k <= s.len(),
        parse_item(s) matches ParseStep::Done(v, n) && n <= k,
    ensures
        parse_item(s) matches ParseStep::Done(v, n) ==> parse_item(s.subrange(0, k)) ==
            ParseStep::Done(v, n),
{
    let p = s.subrange(0, k);
    assert(forall|i: int| 0 <= i < k ==> p[i] == s[i]);
    assert(forall|a: int, b: int| 0 <= a <= b <= k ==> p.subrange(a, b) =~= s.subrange(a, b));
}


// ---------------------------------------------------------------------------
// Liberal decoding and boundary behaviour
// ---------------------------------------------------------------------------

/// Liberal decode: every tag whose range covers an unsigned value yields
/// that same logical value, whether or not it is the canonical (smallest)
/// choice.  A value carried under the u32 tag decodes to the same item as
/// the same value carried in a fixint.
pub proof fn lemma_liberal_unsigned(v: u64, rest: Seq<u8>)
    ensures
        v <= 0x7f ==> parse_item(seq![v as u8] + rest) == ParseStep::Done(Item::Unsigned(v), 1),
        v <= 0xff ==> parse_item(seq![0xccu8, v as u8] + rest) == ParseStep::Done(
            Item::Unsigned(v),
            2,
        ),
        v <= 0xffff ==> parse_item(seq![0xcdu8] + be2(v as u16) + rest) == ParseStep::Done(
            Item::Unsigned(v),
            3,
        ),
        v <= 0xffff_ffff ==> parse_item(seq![0xceu8] + be4(v as u32) + rest) == ParseStep::Done(
            Item::Unsigned(v),
            5,
        ),
        parse_item(seq![0xcfu8] + be8(v) + rest) == ParseStep::Done(Item::Unsigned(v), 9),
{
    if v <= 0xffff {
        let s = seq![0xcdu8] + be2(v as u16) + rest;
        lemma_be2_val(v as u16);
        assert(s[1] == be2(v as u16)[0] && s[2] == be2(v as u16)[1]);
    }
    if v <= 0xffff_ffff {
        let s = seq![0xceu8] + be4(v as u32) + rest;
        lemma_be4_val(v as u32);
        let b = be4(v as u32);
        assert(s[1] == b[0] && s[2] == b[1] && s[3] == b[2] && s[4] == b[3]);
    }
    let s = seq![0xcfu8] + be8(v) + rest;
    lemma_be8_val(v);
    let b = be8(v);
    assert(s[1] == b[0] && s[2] == b[1] && s[3] == b[2] && s[4] == b[3] && s[5] == b[4] && s[6]
        == b[5] && s[7] == b[6] && s[8] == b[7]);
}

/// Boundary behaviour: each fixed (tag-embedded) form is chosen exactly up
/// to its documented threshold — fixstr up to 31 bytes, fixarray and fixmap
/// up to 15 entries, the untagged negative fixint exactly for -32..=-1.
pub proof fn lemma_format_boundaries()
    ensures
        forall|n: int|
            0 <= n <= u32::MAX ==> ((0xa0 <= #[trigger] enc_str_len(n)[0] <= 0xbf) <==> n <= 31),
        forall|n: int|
            0 <= n <= u32::MAX ==> ((0x90 <= #[trigger] enc_array_len(n)[0] <= 0x9f) <==> n
                <= 15),
        forall|n: int|
            0 <= n <= u32::MAX ==> ((0x80 <= #[trigger] enc_map_len(n)[0] <= 0x8f) <==> n <= 15),
        forall|v: i64| (#[trigger] enc_signed(v)[0] >= 0xe0) <==> (-32 <= v <= -1),
        forall|n: int| 0 <= n <= u32::MAX ==> (#[trigger] enc_str_len(n).len() == 1 <==> n <= 31),
        forall|n: int|
            0 <= n <= u32::MAX ==> (#[trigger] enc_array_len(n).len() == 1 <==> n <= 15),
{
}



/// Canonical minimality: no wire form that carries an unsigned value is
/// shorter than the canonical encoding of that value — the encoder always
/// picks the smallest tag whose range covers the value.
pub proof fn lemma_canonical_minimal_unsigned(s: Seq<u8>)
    ensures
        parse_item(s) matches ParseStep::Done(item, c) ==> (item matches Item::Unsigned(v)
            ==> enc_unsigned(v).len() <= c),
{
}

/// Canonical minimality: no wire form that carries a signed value is
/// shorter than the canonical encoding of that value.
pub proof fn lemma_canonical_minimal_signed(s: Seq<u8>)
    ensures
        parse_item(s) matches ParseStep::Done(item, c) ==> (item matches Item::Signed(v)
            ==> enc_signed(v).len() <= c),
{
}

} // verus!
