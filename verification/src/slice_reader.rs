//! The incremental zero-copy slice parser.
//!
//! [`parse_next`] parses the single item at the front of a borrowed byte
//! slice and hands back the remainder.  String, binary and extension
//! payloads are returned as sub-slices of the input, never copied; arrays
//! and maps are returned as length announcements only, and the caller pulls
//! their children by calling [`parse_next`] again on the remainder.
//!
//! The parser keeps no state between calls: on [`Error::NeedMoreData`] the
//! caller may retry from the same offset with a longer buffer, and the
//! result is the same as parsing the complete buffer from scratch (see
//! [`crate::format::lemma_parse_resumable`]).

use vstd::prelude::*;

use crate::format::{be2_val, be4_val, be8_val, parse_item, sig1, sig2, sig4, sig8, Item, ParseStep};

verus! {

/// Why the front of the slice does not hold a complete item.
#[derive(Debug, PartialEq)]
pub enum Error {
    /// The slice is empty where an item was expected.
    Eos,
    /// The leading tag is reserved or malformed.
    Invalid(&'static str),
    /// The leading tag is valid, but this many more bytes are needed for the
    /// next field of the item (`None` when the shortfall exceeds `usize`).
    NeedMoreData(Option<usize>),
}

/// One parsed item, borrowing its payload from the input slice.
#[derive(Debug, Clone, Copy, PartialEq)]
pub enum Value<'a> {
    Nil,
    Boolean(bool),
    Unsigned(u64),
    Signed(i64),
    /// A 32-bit float, as its IEEE-754 bit pattern.
    Float(u32),
    /// A 64-bit float, as its IEEE-754 bit pattern.
    Double(u64),
    /// A string payload: a sub-slice of the input.
    Text(&'a [u8]),
    /// A binary payload: a sub-slice of the input.
    Binary(&'a [u8]),
    /// An array of this many items, which follow as further items.
    Array(usize),
    /// A map of this many key/value pairs, which follow as further items.
    Mapping(usize),
    /// An extension item: its type and its payload.
    Extended(i8, &'a [u8]),
}

impl<'a> View for Value<'a> {
    type V = Item;

    open spec fn view(&self) -> Item {
        match *self {
            Value::Nil => Item::Nil,
            Value::Boolean(b) => Item::Boolean(b),
            Value::Unsigned(u) => Item::Unsigned(u),
            Value::Signed(i) => Item::Signed(i),
            Value::Float(bits) => Item::FloatBits(bits),
            Value::Double(bits) => Item::DoubleBits(bits),
            Value::Text(b) => Item::StrBytes(b@),
            Value::Binary(b) => Item::BinBytes(b@),
            Value::Array(n) => Item::ArrayLen(n),
            Value::Mapping(n) => Item::MapLen(n),
            Value::Extended(t, b) => Item::ExtBytes(t, b@),
        }
    }
}

/// What [`parse_next`] promises: its result mirrors [`parse_item`] on the
/// input bytes exactly.
pub open spec fn parse_next_post<'a>(
    data: Seq<u8>,
    r: Result<(Value<'a>, &'a [u8]), Error>,
) -> bool {
    match parse_item(data) {
        ParseStep::Eos => r == Err::<(Value<'a>, &'a [u8]), Error>(Error::Eos),
        ParseStep::Invalid => r matches Err(e) && e is Invalid,
        ParseStep::More(k) => r == Err::<(Value<'a>, &'a [u8]), Error>(
            Error::NeedMoreData(
                if k <= usize::MAX as int {
                    Some(k as usize)
                } else {
                    None
                },
            ),
        ),
        ParseStep::Done(item, c) => r matches Ok((v, rest)) && v@ == item && rest@
            == data.subrange(c, data.len() as int),
    }
}

/// Reads the two-byte big-endian field at `off`.
pub(crate) fn read_be2(data: &[u8], off: usize) -> (r: u16)
    requires
        off + 2 <= data@.len(),
    ensures
        r as int == be2_val(data@[off as int], data@[off as int + 1]),
{
    (data[off] as u16) * 0x100 + (data[off + 1] as u16)
}

/// Reads the four-byte big-endian field at `off`.
pub(crate) fn read_be4(data: &[u8], off: usize) -> (r: u32)
    requires
        off + 4 <= data@.len(),
    ensures
        r as int == be4_val(
            data@[off as int],
            data@[off as int + 1],
            data@[off as int + 2],
            data@[off as int + 3],
        ),
{
    (data[off] as u32) * 0x100_0000 + (data[off + 1] as u32) * 0x1_0000 + (data[off + 2] as u32)
        * 0x100 + (data[off + 3] as u32)
}

/// Reads the eight-byte big-endian field at `off`.
pub(crate) fn read_be8(data: &[u8], off: usize) -> (r: u64)
    requires
        off + 8 <= data@.len(),
    ensures
        r as int == be8_val(
            data@[off as int],
            data@[off as int + 1],
            data@[off as int + 2],
            data@[off as int + 3],
            data@[off as int + 4],
            data@[off as int + 5],
            data@[off as int + 6],
            data@[off as int + 7],
        ),
{
    (data[off] as u64) * 0x100_0000_0000_0000 + (data[off + 1] as u64) * 0x1_0000_0000_0000 + (
    data[off + 2] as u64) * 0x100_0000_0000 + (data[off + 3] as u64) * 0x1_0000_0000 + (data[off
        + 4] as u64) * 0x100_0000 + (data[off + 5] as u64) * 0x1_0000 + (data[off + 6] as u64)
        * 0x100 + (data[off + 7] as u64)
}

/// The slice from `from` to the end.
fn tail_from<'a>(data: &'a [u8], from: usize) -> (r: &'a [u8])
    requires
        from <= data@.len(),
    ensures
        r@ == data@.subrange(from as int, data@.len() as int),
{
    let len = data.len();
    &data[from..len]
}

/// Returns a string or binary payload of `n` bytes that starts at `hdr`,
/// or the exact shortfall.
fn take_payload<'a>(data: &'a [u8], hdr: usize, n: u64, bin: bool) -> (r: Result<
    (Value<'a>, &'a [u8]),
    Error,
>)
    requires
        1 <= hdr <= data@.len(),
        hdr + n <= u32::MAX as int + 6,
    ensures
        ({
            let step = crate::format::parse_bytes_payload(data@, hdr as int, n as int, bin);
            match step {
                ParseStep::More(k) => r == Err::<(Value<'a>, &'a [u8]), Error>(
                    Error::NeedMoreData(
                        if k <= usize::MAX as int {
                            Some(k as usize)
                        } else {
                            None
                        },
                    ),
                ),
                ParseStep::Done(item, c) => r matches Ok((v, rest)) && v@ == item && rest@
                    == data@.subrange(c, data@.len() as int),
                _ => false,
            }
        }),
{
    let len = data.len();
    let need: u64 = hdr as u64 + n;
    if (len as u64) < need {
        let short: u64 = need - len as u64;
        if short <= usize::MAX as u64 {
            Err(Error::NeedMoreData(Some(short as usize)))
        } else {
            Err(Error::NeedMoreData(None))
        }
    } else {
        let end = hdr + n as usize;
        let payload = &data[hdr..end];
        let rest = tail_from(data, end);
        if bin {
            Ok((Value::Binary(payload), rest))
        } else {
            Ok((Value::Text(payload), rest))
        }
    }
}

/// Returns an extension item whose type byte stands at `hdr` and whose `n`
/// payload bytes follow it, or the exact shortfall, or a malformed-data
/// error for a reserved type.
fn take_ext<'a>(data: &'a [u8], hdr: usize, n: u64) -> (r: Result<(Value<'a>, &'a [u8]), Error>)
    requires
        1 <= hdr <= data@.len(),
        hdr + 1 + n <= u32::MAX as int + 7,
    ensures
        ({
            let step = crate::format::parse_ext_payload(data@, hdr as int, n as int);
            match step {
                ParseStep::More(k) => r == Err::<(Value<'a>, &'a [u8]), Error>(
                    Error::NeedMoreData(
                        if k <= usize::MAX as int {
                            Some(k as usize)
                        } else {
                            None
                        },
                    ),
                ),
                ParseStep::Invalid => r matches Err(e) && e is Invalid,
                ParseStep::Done(item, c) => r matches Ok((v, rest)) && v@ == item && rest@
                    == data@.subrange(c, data@.len() as int),
                _ => false,
            }
        }),
{
    let len = data.len();
    let need: u64 = hdr as u64 + 1 + n;
    if (len as u64) < need {
        let short: u64 = need - len as u64;
        if short <= usize::MAX as u64 {
            Err(Error::NeedMoreData(Some(short as usize)))
        } else {
            Err(Error::NeedMoreData(None))
        }
    } else {
        let t = data[hdr];
        if t >= 0x80 {
            Err(Error::Invalid("Reserved type"))
        } else {
            let start = hdr + 1;
            let end = start + n as usize;
            let payload = &data[start..end];
            let rest = tail_from(data, end);
            Ok((Value::Extended(t as i8, payload), rest))
        }
    }
}

/// Parses the single item at the front of `data` and returns it with the
/// unconsumed remainder.  The parser accepts every tag whose range covers
/// the value, whether or not the sender chose the canonical form, and keeps
/// no state: all state lives in the slice itself.
pub fn parse_next<'a>(data: &'a [u8]) -> (r: Result<(Value<'a>, &'a [u8]), Error>)
    ensures
        parse_next_post(data@, r),
{
    let len = data.len();
    if len == 0 {
        return Err(Error::Eos);
    }
    let c = data[0];
    if c <= 0x7f {
        return Ok((Value::Unsigned(c as u64), tail_from(data, 1)));
    }
    if c >= 0xe0 {
        proof {
            assert(c >= 0xe0 ==> (c as i8) as i64 == c - 0x100) by (bit_vector);
        }
        return Ok((Value::Signed((c as i8) as i64), tail_from(data, 1)));
    }
    if 0xa0 <= c && c <= 0xbf {
        let n = (c - 0xa0) as u64;
        return take_payload(data, 1, n, false);
    }
    if 0x90 <= c && c <= 0x9f {
        return Ok((Value::Array((c - 0x90) as usize), tail_from(data, 1)));
    }
    if 0x80 <= c && c <= 0x8f {
        return Ok((Value::Mapping((c - 0x80) as usize), tail_from(data, 1)));
    }
    match c {
        0xc0 => Ok((Value::Nil, tail_from(data, 1))),
        0xc1 => Err(Error::Invalid("Reserved")),
        0xc2 => Ok((Value::Boolean(false), tail_from(data, 1))),
        0xc3 => Ok((Value::Boolean(true), tail_from(data, 1))),
        0xc4 | 0xd9 => {
            if len < 2 {
                Err(Error::NeedMoreData(Some(2 - len)))
            } else {
                take_payload(data, 2, data[1] as u64, c == 0xc4)
            }
        },
        0xc5 | 0xda => {
            if len < 3 {
                Err(Error::NeedMoreData(Some(3 - len)))
            } else {
                take_payload(data, 3, read_be2(data, 1) as u64, c == 0xc5)
            }
        },
        0xc6 | 0xdb => {
            if len < 5 {
                Err(Error::NeedMoreData(Some(5 - len)))
            } else {
                take_payload(data, 5, read_be4(data, 1) as u64, c == 0xc6)
            }
        },
        0xc7 => {
            if len < 2 {
                Err(Error::NeedMoreData(Some(2 - len)))
            } else {
                take_ext(data, 2, data[1] as u64)
            }
        },
        0xc8 => {
            if len < 3 {
                Err(Error::NeedMoreData(Some(3 - len)))
            } else {
                take_ext(data, 3, read_be2(data, 1) as u64)
            }
        },
        0xc9 => {
            if len < 5 {
                Err(Error::NeedMoreData(Some(5 - len)))
            } else {
                take_ext(data, 5, read_be4(data, 1) as u64)
            }
        },
        0xca => {
            if len < 5 {
                Err(Error::NeedMoreData(Some(5 - len)))
            } else {
                Ok((Value::Float(read_be4(data, 1)), tail_from(data, 5)))
            }
        },
        0xcb => {
            if len < 9 {
                Err(Error::NeedMoreData(Some(9 - len)))
            } else {
                Ok((Value::Double(read_be8(data, 1)), tail_from(data, 9)))
            }
        },
        0xcc => {
            if len < 2 {
                Err(Error::NeedMoreData(Some(2 - len)))
            } else {
                Ok((Value::Unsigned(data[1] as u64), tail_from(data, 2)))
            }
        },
        0xcd => {
            if len < 3 {
                Err(Error::NeedMoreData(Some(3 - len)))
            } else {
                Ok((Value::Unsigned(read_be2(data, 1) as u64), tail_from(data, 3)))
            }
        },
        0xce => {
            if len < 5 {
                Err(Error::NeedMoreData(Some(5 - len)))
            } else {
                Ok((Value::Unsigned(read_be4(data, 1) as u64), tail_from(data, 5)))
            }
        },
        0xcf => {
            if len < 9 {
                Err(Error::NeedMoreData(Some(9 - len)))
            } else {
                Ok((Value::Unsigned(read_be8(data, 1)), tail_from(data, 9)))
            }
        },
        0xd0 => {
            if len < 2 {
                Err(Error::NeedMoreData(Some(2 - len)))
            } else {
                let b = data[1];
                proof {
                    assert((b as i8) as i64 == sig1(b as int)) by (bit_vector);
                }
                Ok((Value::Signed((b as i8) as i64), tail_from(data, 2)))
            }
        },
        0xd1 => {
            if len < 3 {
                Err(Error::NeedMoreData(Some(3 - len)))
            } else {
                let u = read_be2(data, 1);
                proof {
                    assert((u as i16) as i64 == sig2(u as int)) by (bit_vector);
                }
                Ok((Value::Signed((u as i16) as i64), tail_from(data, 3)))
            }
        },
        0xd2 => {
            if len < 5 {
                Err(Error::NeedMoreData(Some(5 - len)))
            } else {
                let u = read_be4(data, 1);
                proof {
                    assert((u as i32) as i64 == sig4(u as int)) by (bit_vector);
                }
                Ok((Value::Signed((u as i32) as i64), tail_from(data, 5)))
            }
        },
        0xd3 => {
            if len < 9 {
                Err(Error::NeedMoreData(Some(9 - len)))
            } else {
                let u = read_be8(data, 1);
                proof {
                    assert(u as i64 == sig8(u as int)) by (bit_vector);
                }
                Ok((Value::Signed(#[verifier::truncate] (u as i64)), tail_from(data, 9)))
            }
        },
        0xd4 => take_ext(data, 1, 1),
        0xd5 => take_ext(data, 1, 2),
        0xd6 => take_ext(data, 1, 4),
        0xd7 => take_ext(data, 1, 8),
        0xd8 => take_ext(data, 1, 16),
        0xdc | 0xde => {
            if len < 3 {
                Err(Error::NeedMoreData(Some(3 - len)))
            } else {
                let n = read_be2(data, 1) as usize;
                if c == 0xdc {
                    Ok((Value::Array(n), tail_from(data, 3)))
                } else {
                    Ok((Value::Mapping(n), tail_from(data, 3)))
                }
            }
        },
        _ => {
            // 0xdd and 0xdf
            if len < 5 {
                Err(Error::NeedMoreData(Some(5 - len)))
            } else {
                let n = read_be4(data, 1) as usize;
                if c == 0xdd {
                    Ok((Value::Array(n), tail_from(data, 5)))
                } else {
                    Ok((Value::Mapping(n), tail_from(data, 5)))
                }
            }
        },
    }
}

/// A cursor over a borrowed slice: each call to [`Reader::next`] parses one
/// item and advances past it.
pub struct Reader<'a> {
    data: &'a [u8],
}

impl<'a> View for Reader<'a> {
    type V = Seq<u8>;

    closed spec fn view(&self) -> Seq<u8> {
        self.data@
    }
}

impl<'a> Reader<'a> {
    /// Creates a reader over the whole slice.
    pub fn new(data: &'a [u8]) -> (r: Reader<'a>)
        ensures
            r@ == data@,
    {
        Reader { data }
    }

    /// Parses the next item and advances past it; on failure the position is
    /// unchanged.
    pub fn next(&mut self) -> (r: Result<Value<'a>, Error>)
        ensures
            match parse_item(old(self)@) {
                ParseStep::Done(item, c) => r matches Ok(v) && v@ == item && final(self)@ == old(
                    self,
                )@.subrange(c, old(self)@.len() as int),
                _ => r matches Err(e) && final(self)@ == old(self)@ && parse_next_post(
                    old(self)@,
                    Err::<(Value<'a>, &'a [u8]), Error>(e),
                ),
            },
    {
        let r = parse_next(self.data);
        match r {
            Ok((res, rest)) => {
                self.data = rest;
                Ok(res)
            },
            Err(e) => Err(e),
        }
    }
}

} // verus!
