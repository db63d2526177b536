//! The typed decoder: reads one item at a time from a borrowed byte slice,
//! mirroring the encoder's emit operations.
//!
//! Every read consumes exactly the bytes of one item (the optional-value
//! read peeks at the tag without consuming it).  Numeric reads into narrower
//! targets check the range instead of truncating.  Failures are
//! distinguishable by kind, so callers can tell corrupt data from a schema
//! mismatch.

use vstd::prelude::*;

use crate::format::{
    is_array_tag, is_ext_tag, is_map_tag, is_signed_tag, is_str_tag, is_unsigned_tag, parse_item,
    Item, ParseStep,
};

verus! {

/// Why a decode failed.  Every failure is terminal for the surrounding
/// decode call; none is a process fault.
#[derive(Debug, Clone, Copy, PartialEq, Eq, Structural)]
pub enum DecodeError {
    /// The input ended in the middle of an item (wire truncation).
    Truncated,
    /// A reserved or malformed tag byte.
    Reserved,
    /// The wire holds an item of another kind than the one requested.
    Mismatch,
    /// A numeric value does not fit the requested narrower target.
    OutOfRange,
    /// A string payload is not valid UTF-8.
    InvalidUtf8,
    /// A fixed-arity read found a different count on the wire.
    WrongLength,
    /// A record field name on the wire differs from the expected one.
    FieldMismatch,
    /// A variant name on the wire matches none of the candidates.
    UnknownVariant,
}


// ---------------------------------------------------------------------------
// What each typed read yields, as a function of the bytes ahead
// ---------------------------------------------------------------------------

/// The outcome of reading an unsigned integer at the front of `rem`: the
/// value and the bytes consumed, or the exact failure.  Every tag whose
/// range covers an unsigned value is accepted.
#[verifier::opaque]
pub open spec fn unsigned_outcome(rem: Seq<u8>) -> Result<(u64, int), DecodeError> {
    if rem.len() == 0 {
        Err(DecodeError::Truncated)
    } else if rem[0] == 0xc1 {
        Err(DecodeError::Reserved)
    } else if !is_unsigned_tag(rem[0]) {
        Err(DecodeError::Mismatch)
    } else {
        match parse_item(rem) {
            ParseStep::Done(item, c) => match item {
                Item::Unsigned(v) => Ok((v, c)),
                _ => Err(DecodeError::Mismatch),
            },
            ParseStep::More(_) => Err(DecodeError::Truncated),
            _ => Err(DecodeError::Mismatch),
        }
    }
}

/// The outcome of reading a signed integer at the front of `rem`.
#[verifier::opaque]
pub open spec fn signed_outcome(rem: Seq<u8>) -> Result<(i64, int), DecodeError> {
    if rem.len() == 0 {
        Err(DecodeError::Truncated)
    } else if rem[0] == 0xc1 {
        Err(DecodeError::Reserved)
    } else if !is_signed_tag(rem[0]) {
        Err(DecodeError::Mismatch)
    } else {
        match parse_item(rem) {
            ParseStep::Done(item, c) => match item {
                Item::Signed(v) => Ok((v, c)),
                _ => Err(DecodeError::Mismatch),
            },
            ParseStep::More(_) => Err(DecodeError::Truncated),
            _ => Err(DecodeError::Mismatch),
        }
    }
}

/// The outcome of reading a 32-bit float's bit pattern (tag 0xca only).
#[verifier::opaque]
pub open spec fn float_outcome(rem: Seq<u8>) -> Result<(u32, int), DecodeError> {
    if rem.len() == 0 {
        Err(DecodeError::Truncated)
    } else if rem[0] == 0xc1 {
        Err(DecodeError::Reserved)
    } else if rem[0] != 0xca {
        Err(DecodeError::Mismatch)
    } else {
        match parse_item(rem) {
            ParseStep::Done(item, c) => match item {
                Item::FloatBits(v) => Ok((v, c)),
                _ => Err(DecodeError::Mismatch),
            },
            ParseStep::More(_) => Err(DecodeError::Truncated),
            _ => Err(DecodeError::Mismatch),
        }
    }
}

/// The outcome of reading a 64-bit float's bit pattern (tag 0xcb only).
#[verifier::opaque]
pub open spec fn double_outcome(rem: Seq<u8>) -> Result<(u64, int), DecodeError> {
    if rem.len() == 0 {
        Err(DecodeError::Truncated)
    } else if rem[0] == 0xc1 {
        Err(DecodeError::Reserved)
    } else if rem[0] != 0xcb {
        Err(DecodeError::Mismatch)
    } else {
        match parse_item(rem) {
            ParseStep::Done(item, c) => match item {
                Item::DoubleBits(v) => Ok((v, c)),
                _ => Err(DecodeError::Mismatch),
            },
            ParseStep::More(_) => Err(DecodeError::Truncated),
            _ => Err(DecodeError::Mismatch),
        }
    }
}

/// The outcome of reading an array header at the front of `rem`.
#[verifier::opaque]
pub open spec fn array_len_outcome(rem: Seq<u8>) -> Result<(usize, int), DecodeError> {
    if rem.len() == 0 {
        Err(DecodeError::Truncated)
    } else if rem[0] == 0xc1 {
        Err(DecodeError::Reserved)
    } else if !is_array_tag(rem[0]) {
        Err(DecodeError::Mismatch)
    } else {
        match parse_item(rem) {
            ParseStep::Done(item, c) => match item {
                Item::ArrayLen(n) => Ok((n, c)),
                _ => Err(DecodeError::Mismatch),
            },
            ParseStep::More(_) => Err(DecodeError::Truncated),
            _ => Err(DecodeError::Mismatch),
        }
    }
}

/// The outcome of reading a map header at the front of `rem`.
#[verifier::opaque]
pub open spec fn map_len_outcome(rem: Seq<u8>) -> Result<(usize, int), DecodeError> {
    if rem.len() == 0 {
        Err(DecodeError::Truncated)
    } else if rem[0] == 0xc1 {
        Err(DecodeError::Reserved)
    } else if !is_map_tag(rem[0]) {
        Err(DecodeError::Mismatch)
    } else {
        match parse_item(rem) {
            ParseStep::Done(item, c) => match item {
                Item::MapLen(n) => Ok((n, c)),
                _ => Err(DecodeError::Mismatch),
            },
            ParseStep::More(_) => Err(DecodeError::Truncated),
            _ => Err(DecodeError::Mismatch),
        }
    }
}

/// The outcome of reading a string's raw bytes at the front of `rem`.
#[verifier::opaque]
pub open spec fn str_bytes_outcome(rem: Seq<u8>) -> Result<(Seq<u8>, int), DecodeError> {
    if rem.len() == 0 {
        Err(DecodeError::Truncated)
    } else if rem[0] == 0xc1 {
        Err(DecodeError::Reserved)
    } else if !is_str_tag(rem[0]) {
        Err(DecodeError::Mismatch)
    } else {
        match parse_item(rem) {
            ParseStep::Done(item, c) => match item {
                Item::StrBytes(b) => Ok((b, c)),
                _ => Err(DecodeError::Mismatch),
            },
            ParseStep::More(_) => Err(DecodeError::Truncated),
            _ => Err(DecodeError::Mismatch),
        }
    }
}

/// The outcome of reading a string at the front of `rem`: its characters,
/// once the payload proves to be valid UTF-8.
#[verifier::opaque]
pub open spec fn str_outcome(rem: Seq<u8>) -> Result<(Seq<char>, int), DecodeError> {
    match str_bytes_outcome(rem) {
        Err(e) => Err(e),
        Ok((b, c)) => if vstd::utf8::valid_utf8(b) {
            Ok((vstd::utf8::decode_utf8(b), c))
        } else {
            Err(DecodeError::InvalidUtf8)
        },
    }
}

/// A successful read consumes at least the tag byte and at most the input.
pub proof fn lemma_unsigned_outcome_bounds(rem: Seq<u8>)
    ensures
        unsigned_outcome(rem) matches Ok((_v, c)) ==> 1 <= c <= rem.len(),
{
    reveal(unsigned_outcome);
    crate::format::lemma_parse_consumed(rem);
}

/// A successful read consumes at least the tag byte and at most the input.
pub proof fn lemma_array_len_outcome_bounds(rem: Seq<u8>)
    ensures
        array_len_outcome(rem) matches Ok((_n, c)) ==> 1 <= c <= rem.len(),
{
    reveal(array_len_outcome);
    crate::format::lemma_parse_consumed(rem);
}

/// A successful read consumes at least the tag byte and at most the input.
pub proof fn lemma_str_outcome_bounds(rem: Seq<u8>)
    ensures
        str_outcome(rem) matches Ok((_v, c)) ==> 1 <= c <= rem.len(),
{
    reveal(str_outcome);
    reveal(str_bytes_outcome);
    crate::format::lemma_parse_consumed(rem);
}

// ---------------------------------------------------------------------------
// The decoder
// ---------------------------------------------------------------------------

/// A structure for decoding values from a borrowed byte slice.  It holds the
/// slice and a cursor; `remaining()` is the bytes not yet consumed.
pub struct Decoder<'a> {
    data: &'a [u8],
    pos: usize,
}

impl<'a> Decoder<'a> {
    /// The cursor never runs past the end of the slice.
    pub closed spec fn wf(self) -> bool {
        self.pos <= self.data@.len()
    }

    /// The bytes not yet consumed.
    pub closed spec fn remaining(self) -> Seq<u8> {
        self.data@.subrange(self.pos as int, self.data@.len() as int)
    }

    /// Creates a decoder for decoding from the given bytes.
    pub fn new(data: &'a [u8]) -> (d: Decoder<'a>)
        ensures
            d.wf(),
            d.remaining() == data@,
    {
        let d = Decoder { data, pos: 0 };
        proof {
            assert(d.remaining() =~= data@);
        }
        d
    }

    /// True when every byte has been consumed.
    pub fn is_at_end(&self) -> (r: bool)
        requires
            self.wf(),
        ensures
            r == (self.remaining().len() == 0),
    {
        self.pos == self.data.len()
    }

    /// Moves the cursor forward over `n` consumed bytes.
    fn advance(&mut self, n: usize)
        requires
            old(self).wf(),
            n <= old(self).remaining().len(),
        ensures
            final(self).wf(),
            final(self).remaining() == old(self).remaining().skip(n as int),
    {
        let total = self.data.len();
        proof {
            assert(old(self).remaining().len() == total - self.pos);
        }
        self.pos = self.pos + n;
        proof {
            assert(self.remaining() =~= old(self).remaining().skip(n as int));
        }
    }

    /// Looks at the next byte without consuming it: the lookahead on which
    /// the optional-value read decides presence.
    fn _peek_byte(&self) -> (r: Result<u8, DecodeError>)
        requires
            self.wf(),
        ensures
            match r {
                Ok(b) => self.remaining().len() > 0 && b == self.remaining()[0],
                Err(e) => e == DecodeError::Truncated && self.remaining().len() == 0,
            },
    {
        if self.pos < self.data.len() {
            Ok(self.data[self.pos])
        } else {
            Err(DecodeError::Truncated)
        }
    }

    /// Consumes and returns the next byte.
    fn _read_byte(&mut self) -> (r: Result<u8, DecodeError>)
        requires
            old(self).wf(),
        ensures
            final(self).wf(),
            match r {
                Ok(b) => old(self).remaining().len() > 0 && b == old(self).remaining()[0] && final(self).remaining() == old(self).remaining().skip(1),
                Err(e) => e == DecodeError::Truncated && old(self).remaining().len() == 0 && final(self).remaining() == old(self).remaining(),
            },
    {
        if self.pos < self.data.len() {
            let b = self.data[self.pos];
            self.advance(1);
            Ok(b)
        } else {
            Err(DecodeError::Truncated)
        }
    }

    /// Reads one unsigned-integer item, whatever covering tag the sender
    /// chose.
    fn _read_unsigned(&mut self) -> (r: Result<u64, DecodeError>)
        requires
            old(self).wf(),
        ensures
            final(self).wf(),
            match unsigned_outcome(old(self).remaining()) {
                Ok((v, c)) => r == Ok::<u64, DecodeError>(v) && final(self).remaining() == old(self).remaining().skip(c),
                Err(e) => r == Err::<u64, DecodeError>(e),
            },
    {
        proof {
            reveal(unsigned_outcome);
        }
        let ghost rem = self.remaining();
        proof {
            assert(forall|i: int|
                0 <= i < rem.len() ==> rem[i] == self.data@[self.pos + i]);
        }
        let len = self.data.len();
        if self.pos == len {
            return Err(DecodeError::Truncated);
        }
        let avail = len - self.pos;
        let c = self.data[self.pos];
        if c <= 0x7f {
            self.advance(1);
            Ok(c as u64)
        } else if c == 0xcc {
            if avail < 2 {
                return Err(DecodeError::Truncated);
            }
            let v = self.data[self.pos + 1] as u64;
            self.advance(2);
            Ok(v)
        } else if c == 0xcd {
            if avail < 3 {
                return Err(DecodeError::Truncated);
            }
            let v = crate::slice_reader::read_be2(self.data, self.pos + 1) as u64;
            self.advance(3);
            Ok(v)
        } else if c == 0xce {
            if avail < 5 {
                return Err(DecodeError::Truncated);
            }
            let v = crate::slice_reader::read_be4(self.data, self.pos + 1) as u64;
            self.advance(5);
            Ok(v)
        } else if c == 0xcf {
            if avail < 9 {
                return Err(DecodeError::Truncated);
            }
            let v = crate::slice_reader::read_be8(self.data, self.pos + 1);
            self.advance(9);
            Ok(v)
        } else if c == 0xc1 {
            Err(DecodeError::Reserved)
        } else {
            Err(DecodeError::Mismatch)
        }
    }

    /// Reads one signed-integer item, whatever covering tag the sender
    /// chose.
    fn _read_signed(&mut self) -> (r: Result<i64, DecodeError>)
        requires
            old(self).wf(),
        ensures
            final(self).wf(),
            match signed_outcome(old(self).remaining()) {
                Ok((v, c)) => r == Ok::<i64, DecodeError>(v) && final(self).remaining() == old(self).remaining().skip(c),
                Err(e) => r == Err::<i64, DecodeError>(e),
            },
    {
        proof {
            reveal(signed_outcome);
        }
        let ghost rem = self.remaining();
        proof {
            assert(forall|i: int|
                0 <= i < rem.len() ==> rem[i] == self.data@[self.pos + i]);
        }
        let len = self.data.len();
        if self.pos == len {
            return Err(DecodeError::Truncated);
        }
        let avail = len - self.pos;
        let c = self.data[self.pos];
        if c >= 0xe0 {
            proof {
                assert(c >= 0xe0 ==> (c as i8) as i64 == c - 0x100) by (bit_vector);
            }
            self.advance(1);
            Ok((c as i8) as i64)
        } else if c == 0xd0 {
            if avail < 2 {
                return Err(DecodeError::Truncated);
            }
            let b = self.data[self.pos + 1];
            proof {
                assert((b as i8) as i64 == crate::format::sig1(b as int)) by (bit_vector);
            }
            self.advance(2);
            Ok((b as i8) as i64)
        } else if c == 0xd1 {
            if avail < 3 {
                return Err(DecodeError::Truncated);
            }
            let u = crate::slice_reader::read_be2(self.data, self.pos + 1);
            proof {
                assert((u as i16) as i64 == crate::format::sig2(u as int)) by (bit_vector);
            }
            self.advance(3);
            Ok((u as i16) as i64)
        } else if c == 0xd2 {
            if avail < 5 {
                return Err(DecodeError::Truncated);
            }
            let u = crate::slice_reader::read_be4(self.data, self.pos + 1);
            proof {
                assert((u as i32) as i64 == crate::format::sig4(u as int)) by (bit_vector);
            }
            self.advance(5);
            Ok((u as i32) as i64)
        } else if c == 0xd3 {
            if avail < 9 {
                return Err(DecodeError::Truncated);
            }
            let u = crate::slice_reader::read_be8(self.data, self.pos + 1);
            proof {
                assert(u as i64 == crate::format::sig8(u as int)) by (bit_vector);
            }
            self.advance(9);
            Ok(#[verifier::truncate] (u as i64))
        } else if c == 0xc1 {
            Err(DecodeError::Reserved)
        } else {
            Err(DecodeError::Mismatch)
        }
    }
}


impl<'a> Decoder<'a> {
    /// Reads a nil item.
    pub fn read_nil(&mut self) -> (r: Result<(), DecodeError>)
        requires
            old(self).wf(),
        ensures
            final(self).wf(),
            ({
                let rem = old(self).remaining();
                if rem.len() == 0 {
                    r == Err::<(), DecodeError>(DecodeError::Truncated)
                } else if rem[0] == 0xc0 {
                    r == Ok::<(), DecodeError>(()) && final(self).remaining() == rem.skip(1)
                } else if rem[0] == 0xc1 {
                    r == Err::<(), DecodeError>(DecodeError::Reserved)
                } else {
                    r == Err::<(), DecodeError>(DecodeError::Mismatch)
                }
            }),
    {
        match self._read_byte() {
            Ok(0xc0) => Ok(()),
            Ok(0xc1) => Err(DecodeError::Reserved),
            Ok(_) => Err(DecodeError::Mismatch),
            Err(e) => Err(e),
        }
    }

    /// Reads a boolean item.
    pub fn read_bool(&mut self) -> (r: Result<bool, DecodeError>)
        requires
            old(self).wf(),
        ensures
            final(self).wf(),
            ({
                let rem = old(self).remaining();
                if rem.len() == 0 {
                    r == Err::<bool, DecodeError>(DecodeError::Truncated)
                } else if rem[0] == 0xc2 {
                    r == Ok::<bool, DecodeError>(false) && final(self).remaining() == rem.skip(1)
                } else if rem[0] == 0xc3 {
                    r == Ok::<bool, DecodeError>(true) && final(self).remaining() == rem.skip(1)
                } else if rem[0] == 0xc1 {
                    r == Err::<bool, DecodeError>(DecodeError::Reserved)
                } else {
                    r == Err::<bool, DecodeError>(DecodeError::Mismatch)
                }
            }),
    {
        match self._read_byte() {
            Ok(0xc2) => Ok(false),
            Ok(0xc3) => Ok(true),
            Ok(0xc1) => Err(DecodeError::Reserved),
            Ok(_) => Err(DecodeError::Mismatch),
            Err(e) => Err(e),
        }
    }

    /// Reads an unsigned integer, whatever covering tag the sender chose.
    pub fn read_u64(&mut self) -> (r: Result<u64, DecodeError>)
        requires
            old(self).wf(),
        ensures
            final(self).wf(),
            match unsigned_outcome(old(self).remaining()) {
                Ok((v, c)) => r == Ok::<u64, DecodeError>(v) && final(self).remaining() == old(self).remaining().skip(c),
                Err(e) => r == Err::<u64, DecodeError>(e),
            },
    {
        self._read_unsigned()
    }

    /// Reads an unsigned integer and checks that it fits 32 bits.
    pub fn read_u32(&mut self) -> (r: Result<u32, DecodeError>)
        requires
            old(self).wf(),
        ensures
            final(self).wf(),
            match unsigned_outcome(old(self).remaining()) {
                Ok((v, c)) => if v <= u32::MAX {
                    r == Ok::<u32, DecodeError>(v as u32) && final(self).remaining() == old(self).remaining().skip(c)
                } else {
                    r == Err::<u32, DecodeError>(DecodeError::OutOfRange)
                },
                Err(e) => r == Err::<u32, DecodeError>(e),
            },
    {
        match self._read_unsigned() {
            Ok(v) => if v <= u32::MAX as u64 {
                Ok(v as u32)
            } else {
                Err(DecodeError::OutOfRange)
            },
            Err(e) => Err(e),
        }
    }

    /// Reads an unsigned integer and checks that it fits 16 bits.
    pub fn read_u16(&mut self) -> (r: Result<u16, DecodeError>)
        requires
            old(self).wf(),
        ensures
            final(self).wf(),
            match unsigned_outcome(old(self).remaining()) {
                Ok((v, c)) => if v <= u16::MAX {
                    r == Ok::<u16, DecodeError>(v as u16) && final(self).remaining() == old(self).remaining().skip(c)
                } else {
                    r == Err::<u16, DecodeError>(DecodeError::OutOfRange)
                },
                Err(e) => r == Err::<u16, DecodeError>(e),
            },
    {
        match self._read_unsigned() {
            Ok(v) => if v <= u16::MAX as u64 {
                Ok(v as u16)
            } else {
                Err(DecodeError::OutOfRange)
            },
            Err(e) => Err(e),
        }
    }

    /// Reads an unsigned integer and checks that it fits 8 bits.
    pub fn read_u8(&mut self) -> (r: Result<u8, DecodeError>)
        requires
            old(self).wf(),
        ensures
            final(self).wf(),
            match unsigned_outcome(old(self).remaining()) {
                Ok((v, c)) => if v <= u8::MAX {
                    r == Ok::<u8, DecodeError>(v as u8) && final(self).remaining() == old(self).remaining().skip(c)
                } else {
                    r == Err::<u8, DecodeError>(DecodeError::OutOfRange)
                },
                Err(e) => r == Err::<u8, DecodeError>(e),
            },
    {
        match self._read_unsigned() {
            Ok(v) => if v <= u8::MAX as u64 {
                Ok(v as u8)
            } else {
                Err(DecodeError::OutOfRange)
            },
            Err(e) => Err(e),
        }
    }

    /// Reads an unsigned integer and checks that it fits `usize`.
    pub fn read_usize(&mut self) -> (r: Result<usize, DecodeError>)
        requires
            old(self).wf(),
        ensures
            final(self).wf(),
            match unsigned_outcome(old(self).remaining()) {
                Ok((v, c)) => if v <= usize::MAX {
                    r == Ok::<usize, DecodeError>(v as usize) && final(self).remaining() == old(self).remaining().skip(c)
                } else {
                    r == Err::<usize, DecodeError>(DecodeError::OutOfRange)
                },
                Err(e) => r == Err::<usize, DecodeError>(e),
            },
    {
        match self._read_unsigned() {
            Ok(v) => if v <= usize::MAX as u64 {
                Ok(v as usize)
            } else {
                Err(DecodeError::OutOfRange)
            },
            Err(e) => Err(e),
        }
    }

    /// Reads a signed integer, whatever covering tag the sender chose.
    pub fn read_i64(&mut self) -> (r: Result<i64, DecodeError>)
        requires
            old(self).wf(),
        ensures
            final(self).wf(),
            match signed_outcome(old(self).remaining()) {
                Ok((v, c)) => r == Ok::<i64, DecodeError>(v) && final(self).remaining() == old(self).remaining().skip(c),
                Err(e) => r == Err::<i64, DecodeError>(e),
            },
    {
        self._read_signed()
    }

    /// Reads a signed integer and checks that it fits 32 bits.
    pub fn read_i32(&mut self) -> (r: Result<i32, DecodeError>)
        requires
            old(self).wf(),
        ensures
            final(self).wf(),
            match signed_outcome(old(self).remaining()) {
                Ok((v, c)) => if i32::MIN <= v <= i32::MAX {
                    r == Ok::<i32, DecodeError>(v as i32) && final(self).remaining() == old(self).remaining().skip(c)
                } else {
                    r == Err::<i32, DecodeError>(DecodeError::OutOfRange)
                },
                Err(e) => r == Err::<i32, DecodeError>(e),
            },
    {
        match self._read_signed() {
            Ok(v) => if i32::MIN as i64 <= v && v <= i32::MAX as i64 {
                Ok(v as i32)
            } else {
                Err(DecodeError::OutOfRange)
            },
            Err(e) => Err(e),
        }
    }

    /// Reads a signed integer and checks that it fits 16 bits.
    pub fn read_i16(&mut self) -> (r: Result<i16, DecodeError>)
        requires
            old(self).wf(),
        ensures
            final(self).wf(),
            match signed_outcome(old(self).remaining()) {
                Ok((v, c)) => if i16::MIN <= v <= i16::MAX {
                    r == Ok::<i16, DecodeError>(v as i16) && final(self).remaining() == old(self).remaining().skip(c)
                } else {
                    r == Err::<i16, DecodeError>(DecodeError::OutOfRange)
                },
                Err(e) => r == Err::<i16, DecodeError>(e),
            },
    {
        match self._read_signed() {
            Ok(v) => if i16::MIN as i64 <= v && v <= i16::MAX as i64 {
                Ok(v as i16)
            } else {
                Err(DecodeError::OutOfRange)
            },
            Err(e) => Err(e),
        }
    }

    /// Reads a signed integer and checks that it fits 8 bits.
    pub fn read_i8(&mut self) -> (r: Result<i8, DecodeError>)
        requires
            old(self).wf(),
        ensures
            final(self).wf(),
            match signed_outcome(old(self).remaining()) {
                Ok((v, c)) => if i8::MIN <= v <= i8::MAX {
                    r == Ok::<i8, DecodeError>(v as i8) && final(self).remaining() == old(self).remaining().skip(c)
                } else {
                    r == Err::<i8, DecodeError>(DecodeError::OutOfRange)
                },
                Err(e) => r == Err::<i8, DecodeError>(e),
            },
    {
        match self._read_signed() {
            Ok(v) => if i8::MIN as i64 <= v && v <= i8::MAX as i64 {
                Ok(v as i8)
            } else {
                Err(DecodeError::OutOfRange)
            },
            Err(e) => Err(e),
        }
    }

    /// Reads a signed integer and checks that it fits `isize`.
    pub fn read_isize(&mut self) -> (r: Result<isize, DecodeError>)
        requires
            old(self).wf(),
        ensures
            final(self).wf(),
            match signed_outcome(old(self).remaining()) {
                Ok((v, c)) => if isize::MIN <= v <= isize::MAX {
                    r == Ok::<isize, DecodeError>(v as isize) && final(self).remaining() == old(self).remaining().skip(c)
                } else {
                    r == Err::<isize, DecodeError>(DecodeError::OutOfRange)
                },
                Err(e) => r == Err::<isize, DecodeError>(e),
            },
    {
        match self._read_signed() {
            Ok(v) => if isize::MIN as i64 <= v && v <= isize::MAX as i64 {
                Ok(v as isize)
            } else {
                Err(DecodeError::OutOfRange)
            },
            Err(e) => Err(e),
        }
    }

    /// Reads a 32-bit float item and returns its IEEE-754 bit pattern.
    pub fn read_f32_bits(&mut self) -> (r: Result<u32, DecodeError>)
        requires
            old(self).wf(),
        ensures
            final(self).wf(),
            match float_outcome(old(self).remaining()) {
                Ok((v, c)) => r == Ok::<u32, DecodeError>(v) && final(self).remaining() == old(self).remaining().skip(c),
                Err(e) => r == Err::<u32, DecodeError>(e),
            },
    {
        proof {
            reveal(float_outcome);
        }
        let ghost rem = self.remaining();
        proof {
            assert(forall|i: int| 0 <= i < rem.len() ==> rem[i] == self.data@[self.pos + i]);
        }
        let len = self.data.len();
        if self.pos == len {
            return Err(DecodeError::Truncated);
        }
        let avail = len - self.pos;
        let c = self.data[self.pos];
        if c == 0xca {
            if avail < 5 {
                return Err(DecodeError::Truncated);
            }
            let v = crate::slice_reader::read_be4(self.data, self.pos + 1);
            self.advance(5);
            Ok(v)
        } else if c == 0xc1 {
            Err(DecodeError::Reserved)
        } else {
            Err(DecodeError::Mismatch)
        }
    }

    /// Reads a 64-bit float item and returns its IEEE-754 bit pattern.
    pub fn read_f64_bits(&mut self) -> (r: Result<u64, DecodeError>)
        requires
            old(self).wf(),
        ensures
            final(self).wf(),
            match double_outcome(old(self).remaining()) {
                Ok((v, c)) => r == Ok::<u64, DecodeError>(v) && final(self).remaining() == old(self).remaining().skip(c),
                Err(e) => r == Err::<u64, DecodeError>(e),
            },
    {
        proof {
            reveal(double_outcome);
        }
        let ghost rem = self.remaining();
        proof {
            assert(forall|i: int| 0 <= i < rem.len() ==> rem[i] == self.data@[self.pos + i]);
        }
        let len = self.data.len();
        if self.pos == len {
            return Err(DecodeError::Truncated);
        }
        let avail = len - self.pos;
        let c = self.data[self.pos];
        if c == 0xcb {
            if avail < 9 {
                return Err(DecodeError::Truncated);
            }
            let v = crate::slice_reader::read_be8(self.data, self.pos + 1);
            self.advance(9);
            Ok(v)
        } else if c == 0xc1 {
            Err(DecodeError::Reserved)
        } else {
            Err(DecodeError::Mismatch)
        }
    }

    /// Reads an array header and returns the announced element count; the
    /// caller reads exactly that many items next.
    fn _read_vec_len(&mut self) -> (r: Result<usize, DecodeError>)
        requires
            old(self).wf(),
        ensures
            final(self).wf(),
            match array_len_outcome(old(self).remaining()) {
                Ok((n, c)) => r == Ok::<usize, DecodeError>(n) && final(self).remaining() == old(self).remaining().skip(c),
                Err(e) => r == Err::<usize, DecodeError>(e),
            },
    {
        proof {
            reveal(array_len_outcome);
        }
        let ghost rem = self.remaining();
        proof {
            assert(forall|i: int| 0 <= i < rem.len() ==> rem[i] == self.data@[self.pos + i]);
        }
        let len = self.data.len();
        if self.pos == len {
            return Err(DecodeError::Truncated);
        }
        let avail = len - self.pos;
        let c = self.data[self.pos];
        if 0x90 <= c && c <= 0x9f {
            self.advance(1);
            Ok((c - 0x90) as usize)
        } else if c == 0xdc {
            if avail < 3 {
                return Err(DecodeError::Truncated);
            }
            let n = crate::slice_reader::read_be2(self.data, self.pos + 1) as usize;
            self.advance(3);
            Ok(n)
        } else if c == 0xdd {
            if avail < 5 {
                return Err(DecodeError::Truncated);
            }
            let n = crate::slice_reader::read_be4(self.data, self.pos + 1) as usize;
            self.advance(5);
            Ok(n)
        } else if c == 0xc1 {
            Err(DecodeError::Reserved)
        } else {
            Err(DecodeError::Mismatch)
        }
    }

    /// Reads a map header and returns the announced pair count; the caller
    /// reads exactly `2 * count` items (key, value, ...) next.
    fn _read_map_len(&mut self) -> (r: Result<usize, DecodeError>)
        requires
            old(self).wf(),
        ensures
            final(self).wf(),
            match map_len_outcome(old(self).remaining()) {
                Ok((n, c)) => r == Ok::<usize, DecodeError>(n) && final(self).remaining() == old(self).remaining().skip(c),
                Err(e) => r == Err::<usize, DecodeError>(e),
            },
    {
        proof {
            reveal(map_len_outcome);
        }
        let ghost rem = self.remaining();
        proof {
            assert(forall|i: int| 0 <= i < rem.len() ==> rem[i] == self.data@[self.pos + i]);
        }
        let len = self.data.len();
        if self.pos == len {
            return Err(DecodeError::Truncated);
        }
        let avail = len - self.pos;
        let c = self.data[self.pos];
        if 0x80 <= c && c <= 0x8f {
            self.advance(1);
            Ok((c - 0x80) as usize)
        } else if c == 0xde {
            if avail < 3 {
                return Err(DecodeError::Truncated);
            }
            let n = crate::slice_reader::read_be2(self.data, self.pos + 1) as usize;
            self.advance(3);
            Ok(n)
        } else if c == 0xdf {
            if avail < 5 {
                return Err(DecodeError::Truncated);
            }
            let n = crate::slice_reader::read_be4(self.data, self.pos + 1) as usize;
            self.advance(5);
            Ok(n)
        } else if c == 0xc1 {
            Err(DecodeError::Reserved)
        } else {
            Err(DecodeError::Mismatch)
        }
    }

    /// Opens a sequence: reads its header and returns the element count read
    /// from the wire, so the caller learns how many element reads to issue.
    pub fn read_seq(&mut self) -> (r: Result<usize, DecodeError>)
        requires
            old(self).wf(),
        ensures
            final(self).wf(),
            match array_len_outcome(old(self).remaining()) {
                Ok((n, c)) => r == Ok::<usize, DecodeError>(n) && final(self).remaining() == old(self).remaining().skip(c),
                Err(e) => r == Err::<usize, DecodeError>(e),
            },
    {
        self._read_vec_len()
    }

    /// Opens a mapping: reads its header and returns the pair count read
    /// from the wire.
    pub fn read_map(&mut self) -> (r: Result<usize, DecodeError>)
        requires
            old(self).wf(),
        ensures
            final(self).wf(),
            match map_len_outcome(old(self).remaining()) {
                Ok((n, c)) => r == Ok::<usize, DecodeError>(n) && final(self).remaining() == old(self).remaining().skip(c),
                Err(e) => r == Err::<usize, DecodeError>(e),
            },
    {
        self._read_map_len()
    }

    /// Opens a tuple of a known arity, encoded as an array: fails when the
    /// wire announces a different count.
    pub fn read_tuple(&mut self, exp_len: usize) -> (r: Result<(), DecodeError>)
        requires
            old(self).wf(),
        ensures
            final(self).wf(),
            match array_len_outcome(old(self).remaining()) {
                Ok((n, c)) => if n == exp_len {
                    r == Ok::<(), DecodeError>(()) && final(self).remaining() == old(self).remaining().skip(c)
                } else {
                    r == Err::<(), DecodeError>(DecodeError::WrongLength)
                },
                Err(e) => r == Err::<(), DecodeError>(e),
            },
    {
        match self._read_vec_len() {
            Ok(n) => if n == exp_len {
                Ok(())
            } else {
                Err(DecodeError::WrongLength)
            },
            Err(e) => Err(e),
        }
    }

    /// Opens a record of a known field count, encoded as a mapping: fails
    /// when the wire announces a different count.
    pub fn read_struct(&mut self, exp_len: usize) -> (r: Result<(), DecodeError>)
        requires
            old(self).wf(),
        ensures
            final(self).wf(),
            match map_len_outcome(old(self).remaining()) {
                Ok((n, c)) => if n == exp_len {
                    r == Ok::<(), DecodeError>(()) && final(self).remaining() == old(self).remaining().skip(c)
                } else {
                    r == Err::<(), DecodeError>(DecodeError::WrongLength)
                },
                Err(e) => r == Err::<(), DecodeError>(e),
            },
    {
        match self._read_map_len() {
            Ok(n) => if n == exp_len {
                Ok(())
            } else {
                Err(DecodeError::WrongLength)
            },
            Err(e) => Err(e),
        }
    }

    /// Decides whether an optional value is present: peeks at the next tag
    /// without consuming it, consumes the nil tag when the value is absent,
    /// and leaves a present value in place for the caller's typed read.
    pub fn read_option(&mut self) -> (r: Result<bool, DecodeError>)
        requires
            old(self).wf(),
        ensures
            final(self).wf(),
            ({
                let rem = old(self).remaining();
                if rem.len() == 0 {
                    r == Err::<bool, DecodeError>(DecodeError::Truncated)
                } else if rem[0] == 0xc0 {
                    r == Ok::<bool, DecodeError>(false) && final(self).remaining() == rem.skip(1)
                } else {
                    r == Ok::<bool, DecodeError>(true) && final(self).remaining() == rem
                }
            }),
    {
        match self._peek_byte() {
            Ok(0xc0) => {
                let _ = self._read_byte();
                Ok(false)
            },
            Ok(_) => Ok(true),
            Err(e) => Err(e),
        }
    }
}


// ---------------------------------------------------------------------------
// Strings, record fields and variant names
// ---------------------------------------------------------------------------

/// Relies on String::from_utf8 from std: it succeeds exactly on valid UTF-8
/// input, and the returned string's characters are the decoding of that
/// input.
#[verifier::external_body]
fn string_from_utf8(v: Vec<u8>) -> (r: Option<String>)
    ensures
        match r {
            Some(s) => vstd::utf8::valid_utf8(v@) && s@ == vstd::utf8::decode_utf8(v@),
            None => !vstd::utf8::valid_utf8(v@),
        },
{
    match String::from_utf8(v) {
        Ok(s) => Some(s),
        Err(_) => None,
    }
}

/// The position of the first name equal to `s`, if any.
pub open spec fn name_index(names: Seq<Seq<char>>, s: Seq<char>) -> Option<int>
    decreases names.len(),
{
    if names.len() == 0 {
        None
    } else if names[0] == s {
        Some(0int)
    } else {
        match name_index(names.skip(1), s) {
            Some(i) => Some(i + 1),
            None => None,
        }
    }
}

/// What [`name_index`] finds: the first match, or no match anywhere.
pub proof fn lemma_name_index(names: Seq<Seq<char>>, s: Seq<char>)
    ensures
        match name_index(names, s) {
            Some(i) => 0 <= i < names.len() && names[i] == s && (forall|j: int|
                0 <= j < i ==> names[j] != s),
            None => forall|j: int| 0 <= j < names.len() ==> names[j] != s,
        },
    decreases names.len(),
{
    if names.len() > 0 && names[0] != s {
        lemma_name_index(names.skip(1), s);
        assert(forall|j: int| 1 <= j < names.len() ==> names[j] == names.skip(1)[j - 1]);
    }
}

/// The outcome of reading a variant opening at the front of `rem`: the
/// array header, then the variant name, resolved against the candidates.
pub open spec fn variant_outcome(rem: Seq<u8>, names: Seq<Seq<char>>) -> Result<
    (int, int),
    DecodeError,
> {
    match array_len_outcome(rem) {
        Err(e) => Err(e),
        Ok((_n, c1)) => match str_outcome(rem.skip(c1)) {
            Err(e) => Err(e),
            Ok((chars, c2)) => match name_index(names, chars) {
                Some(i) => Ok((i, c1 + c2)),
                None => Err(DecodeError::UnknownVariant),
            },
        },
    }
}

impl<'a> Decoder<'a> {
    /// Copies the next `len` raw bytes out of the input.
    fn _read_raw(&mut self, len: usize) -> (r: Result<Vec<u8>, DecodeError>)
        requires
            old(self).wf(),
        ensures
            final(self).wf(),
            if old(self).remaining().len() >= len {
                r matches Ok(v) && v@ == old(self).remaining().take(len as int) && final(self).remaining() == old(self).remaining().skip(len as int)
            } else {
                r == Err::<Vec<u8>, DecodeError>(DecodeError::Truncated)
            },
    {
        let total = self.data.len();
        let avail = total - self.pos;
        if len <= avail {
            let sl = vstd::slice::slice_subrange(self.data, self.pos, self.pos + len);
            let v = vstd::slice::slice_to_vec(sl);
            proof {
                assert(v@ =~= old(self).remaining().take(len as int));
            }
            self.advance(len);
            Ok(v)
        } else {
            Err(DecodeError::Truncated)
        }
    }

    /// Reads the raw bytes of one string item.
    fn _read_str_bytes(&mut self) -> (r: Result<Vec<u8>, DecodeError>)
        requires
            old(self).wf(),
        ensures
            final(self).wf(),
            match str_bytes_outcome(old(self).remaining()) {
                Ok((b, c)) => r matches Ok(v) && v@ == b && final(self).remaining() == old(self).remaining().skip(c),
                Err(e) => r == Err::<Vec<u8>, DecodeError>(e),
            },
    {
        proof {
            reveal(str_bytes_outcome);
        }
        let ghost rem = self.remaining();
        proof {
            assert(forall|i: int| 0 <= i < rem.len() ==> rem[i] == self.data@[self.pos + i]);
        }
        let len = self.data.len();
        if self.pos == len {
            return Err(DecodeError::Truncated);
        }
        let avail = len - self.pos;
        let c = self.data[self.pos];
        let hdr: usize;
        let n: usize;
        if 0xa0 <= c && c <= 0xbf {
            hdr = 1;
            n = (c - 0xa0) as usize;
        } else if c == 0xd9 {
            if avail < 2 {
                return Err(DecodeError::Truncated);
            }
            hdr = 2;
            n = self.data[self.pos + 1] as usize;
        } else if c == 0xda {
            if avail < 3 {
                return Err(DecodeError::Truncated);
            }
            hdr = 3;
            n = crate::slice_reader::read_be2(self.data, self.pos + 1) as usize;
        } else if c == 0xdb {
            if avail < 5 {
                return Err(DecodeError::Truncated);
            }
            hdr = 5;
            n = crate::slice_reader::read_be4(self.data, self.pos + 1) as usize;
        } else if c == 0xc1 {
            return Err(DecodeError::Reserved);
        } else {
            return Err(DecodeError::Mismatch);
        }
        self.advance(hdr);
        match self._read_raw(n) {
            Err(_) => Err(DecodeError::Truncated),
            Ok(bytes) => {
                proof {
                    assert(rem.skip(hdr as int).take(n as int) =~= rem.subrange(
                        hdr as int,
                        hdr as int + n as int,
                    ));
                    assert(rem.skip(hdr as int).skip(n as int) =~= rem.skip(hdr as int + n as int));
                }
                Ok(bytes)
            },
        }
    }

    /// Reads one string item, checking that its payload is valid UTF-8.
    pub fn read_str(&mut self) -> (r: Result<String, DecodeError>)
        requires
            old(self).wf(),
        ensures
            final(self).wf(),
            match str_outcome(old(self).remaining()) {
                Ok((chars, c)) => r matches Ok(s) && s@ == chars && final(self).remaining() == old(self).remaining().skip(c),
                Err(e) => r matches Err(e2) && e2 == e,
            },
    {
        proof {
            reveal(str_outcome);
        }
        match self._read_str_bytes() {
            Err(e) => Err(e),
            Ok(bytes) => match string_from_utf8(bytes) {
                Some(s) => Ok(s),
                None => Err(DecodeError::InvalidUtf8),
            },
        }
    }

    /// Reads one string item that must hold exactly one character.
    pub fn read_char(&mut self) -> (r: Result<char, DecodeError>)
        requires
            old(self).wf(),
        ensures
            final(self).wf(),
            match str_outcome(old(self).remaining()) {
                Ok((chars, c)) => if chars.len() == 1 {
                    r == Ok::<char, DecodeError>(chars[0]) && final(self).remaining() == old(self).remaining().skip(c)
                } else {
                    r == Err::<char, DecodeError>(DecodeError::Mismatch)
                },
                Err(e) => r == Err::<char, DecodeError>(e),
            },
    {
        match self.read_str() {
            Err(e) => Err(e),
            Ok(s) => {
                if s.as_str().unicode_len() == 1 {
                    Ok(s.as_str().get_char(0))
                } else {
                    Err(DecodeError::Mismatch)
                }
            },
        }
    }

    /// Reads one record field name and checks it against the expected one;
    /// fields stand on the wire in their declared order.
    pub fn read_struct_field(&mut self, name: &str) -> (r: Result<(), DecodeError>)
        requires
            old(self).wf(),
        ensures
            final(self).wf(),
            match str_outcome(old(self).remaining()) {
                Ok((chars, c)) => if chars == name@ {
                    r == Ok::<(), DecodeError>(()) && final(self).remaining() == old(self).remaining().skip(c)
                } else {
                    r == Err::<(), DecodeError>(DecodeError::FieldMismatch)
                },
                Err(e) => r == Err::<(), DecodeError>(e),
            },
    {
        match self.read_str() {
            Err(e) => Err(e),
            Ok(s) => {
                if s == name.to_owned() {
                    Ok(())
                } else {
                    Err(DecodeError::FieldMismatch)
                }
            },
        }
    }

    /// Opens a tagged variant: reads the array header and the variant name,
    /// and resolves the name against the candidates by exact match.  On
    /// success the caller decodes the remaining arguments.
    #[verifier::loop_isolation(false)]
    #[verifier::rlimit(100)]
    #[verifier::spinoff_prover]
    pub fn read_enum_variant(&mut self, names: &[&str]) -> (r: Result<usize, DecodeError>)
        requires
            old(self).wf(),
        ensures
            final(self).wf(),
            match variant_outcome(old(self).remaining(), names@.map_values(|n: &str| n@)) {
                Ok((i, c)) => r == Ok::<usize, DecodeError>(i as usize) && final(self).remaining()
                    == old(self).remaining().skip(c),
                Err(e) => r == Err::<usize, DecodeError>(e),
            },
    {
        let ghost cand = names@.map_values(|n: &str| n@);
        if let Err(e) = self._read_vec_len() {
            return Err(e);
        }
        let s = match self.read_str() {
            Err(e) => {
                return Err(e);
            },
            Ok(s) => s,
        };
        proof {
            lemma_name_index(cand, s@);
            lemma_array_len_outcome_bounds(old(self).remaining());
            if let Ok((_n0, c1)) = array_len_outcome(old(self).remaining()) {
                lemma_str_outcome_bounds(old(self).remaining().skip(c1));
                if let Ok((_ch, c2)) = str_outcome(old(self).remaining().skip(c1)) {
                    assert(old(self).remaining().skip(c1).skip(c2) =~= old(self).remaining().skip(
                        c1 + c2,
                    ));
                }
            }
        }
        let mut i: usize = 0;
        while i < names.len()
            invariant
                i <= names.len(),
                cand == names@.map_values(|n: &str| n@),
                forall|j: int| 0 <= j < i ==> cand[j] != s@,
            decreases names.len() - i,
        {
            if s == names[i].to_owned() {
                proof {
                    assert(cand[i as int] == names@[i as int]@);
                    lemma_name_index(cand, s@);
                }
                return Ok(i);
            }
            i = i + 1;
        }
        Err(DecodeError::UnknownVariant)
    }
}


/// The outcome of reading a binary blob's raw bytes at the front of `rem`.
#[verifier::opaque]
pub open spec fn bin_bytes_outcome(rem: Seq<u8>) -> Result<(Seq<u8>, int), DecodeError> {
    if rem.len() == 0 {
        Err(DecodeError::Truncated)
    } else if rem[0] == 0xc1 {
        Err(DecodeError::Reserved)
    } else if !crate::format::is_bin_tag(rem[0]) {
        Err(DecodeError::Mismatch)
    } else {
        match parse_item(rem) {
            ParseStep::Done(item, c) => match item {
                Item::BinBytes(b) => Ok((b, c)),
                _ => Err(DecodeError::Mismatch),
            },
            ParseStep::More(_) => Err(DecodeError::Truncated),
            _ => Err(DecodeError::Mismatch),
        }
    }
}

/// The outcome of reading an extension item at the front of `rem`; a
/// reserved (negative) type is malformed data.
#[verifier::opaque]
pub open spec fn ext_outcome(rem: Seq<u8>) -> Result<((i8, Seq<u8>), int), DecodeError> {
    if rem.len() == 0 {
        Err(DecodeError::Truncated)
    } else if rem[0] == 0xc1 {
        Err(DecodeError::Reserved)
    } else if !is_ext_tag(rem[0]) {
        Err(DecodeError::Mismatch)
    } else {
        match parse_item(rem) {
            ParseStep::Done(item, c) => match item {
                Item::ExtBytes(t, b) => Ok(((t, b), c)),
                _ => Err(DecodeError::Mismatch),
            },
            ParseStep::More(_) => Err(DecodeError::Truncated),
            ParseStep::Invalid => Err(DecodeError::Reserved),
            _ => Err(DecodeError::Mismatch),
        }
    }
}

impl<'a> Decoder<'a> {
    /// Reads the raw bytes of one binary item.
    pub(crate) fn _read_bin_bytes(&mut self) -> (r: Result<Vec<u8>, DecodeError>)
        requires
            old(self).wf(),
        ensures
            final(self).wf(),
            match bin_bytes_outcome(old(self).remaining()) {
                Ok((b, c)) => r matches Ok(v) && v@ == b && final(self).remaining() == old(self).remaining().skip(c),
                Err(e) => r == Err::<Vec<u8>, DecodeError>(e),
            },
    {
        proof {
            reveal(bin_bytes_outcome);
        }
        let ghost rem = self.remaining();
        proof {
            assert(forall|i: int| 0 <= i < rem.len() ==> rem[i] == self.data@[self.pos + i]);
        }
        let len = self.data.len();
        if self.pos == len {
            return Err(DecodeError::Truncated);
        }
        let avail = len - self.pos;
        let c = self.data[self.pos];
        let hdr: usize;
        let n: usize;
        if c == 0xc4 {
            if avail < 2 {
                return Err(DecodeError::Truncated);
            }
            hdr = 2;
            n = self.data[self.pos + 1] as usize;
        } else if c == 0xc5 {
            if avail < 3 {
                return Err(DecodeError::Truncated);
            }
            hdr = 3;
            n = crate::slice_reader::read_be2(self.data, self.pos + 1) as usize;
        } else if c == 0xc6 {
            if avail < 5 {
                return Err(DecodeError::Truncated);
            }
            hdr = 5;
            n = crate::slice_reader::read_be4(self.data, self.pos + 1) as usize;
        } else if c == 0xc1 {
            return Err(DecodeError::Reserved);
        } else {
            return Err(DecodeError::Mismatch);
        }
        self.advance(hdr);
        match self._read_raw(n) {
            Err(_) => Err(DecodeError::Truncated),
            Ok(bytes) => {
                proof {
                    assert(rem.skip(hdr as int).take(n as int) =~= rem.subrange(
                        hdr as int,
                        hdr as int + n as int,
                    ));
                    assert(rem.skip(hdr as int).skip(n as int) =~= rem.skip(hdr as int + n as int));
                }
                Ok(bytes)
            },
        }
    }

    /// Reads one extension item: its type byte and its raw payload.
    #[verifier::rlimit(100)]
    pub(crate) fn _read_ext(&mut self) -> (r: Result<(i8, Vec<u8>), DecodeError>)
        requires
            old(self).wf(),
        ensures
            final(self).wf(),
            match ext_outcome(old(self).remaining()) {
                Ok(((t, b), c)) => r matches Ok((t2, v)) && t2 == t && v@ == b && final(self).remaining() == old(self).remaining().skip(c),
                Err(e) => r == Err::<(i8, Vec<u8>), DecodeError>(e),
            },
    {
        proof {
            reveal(ext_outcome);
        }
        let ghost rem = self.remaining();
        proof {
            assert(forall|i: int| 0 <= i < rem.len() ==> rem[i] == self.data@[self.pos + i]);
        }
        let len = self.data.len();
        if self.pos == len {
            return Err(DecodeError::Truncated);
        }
        let avail = len - self.pos;
        let c = self.data[self.pos];
        let hdr: usize;
        let n: usize;
        if c == 0xd4 {
            hdr = 1;
            n = 1;
        } else if c == 0xd5 {
            hdr = 1;
            n = 2;
        } else if c == 0xd6 {
            hdr = 1;
            n = 4;
        } else if c == 0xd7 {
            hdr = 1;
            n = 8;
        } else if c == 0xd8 {
            hdr = 1;
            n = 16;
        } else if c == 0xc7 {
            if avail < 2 {
                return Err(DecodeError::Truncated);
            }
            hdr = 2;
            n = self.data[self.pos + 1] as usize;
        } else if c == 0xc8 {
            if avail < 3 {
                return Err(DecodeError::Truncated);
            }
            hdr = 3;
            n = crate::slice_reader::read_be2(self.data, self.pos + 1) as usize;
        } else if c == 0xc9 {
            if avail < 5 {
                return Err(DecodeError::Truncated);
            }
            hdr = 5;
            n = crate::slice_reader::read_be4(self.data, self.pos + 1) as usize;
        } else if c == 0xc1 {
            return Err(DecodeError::Reserved);
        } else {
            return Err(DecodeError::Mismatch);
        }
        if (avail as u64) < hdr as u64 + 1 + n as u64 {
            return Err(DecodeError::Truncated);
        }
        let t = self.data[self.pos + hdr];
        if t >= 0x80 {
            return Err(DecodeError::Reserved);
        }
        self.advance(hdr + 1);
        match self._read_raw(n) {
            Err(_) => Err(DecodeError::Truncated),
            Ok(bytes) => {
                proof {
                    assert(rem.skip(hdr + 1 as int).take(n as int) =~= rem.subrange(
                        hdr + 1 as int,
                        hdr + 1 + n as int,
                    ));
                    assert(rem.skip(hdr + 1 as int).skip(n as int) =~= rem.skip(
                        hdr + 1 + n as int,
                    ));
                }
                Ok((t as i8, bytes))
            },
        }
    }
}


// ---------------------------------------------------------------------------
// Decoding a whole self-describing value tree
// ---------------------------------------------------------------------------

impl<'a> Decoder<'a> {
    /// Decodes the whole value tree at the front of the input: one item and,
    /// for arrays and maps, exactly as many children as its header announces.
    #[verifier::loop_isolation(false)]
    #[verifier::rlimit(100)]
    pub fn decode_value(&mut self) -> (r: Result<crate::value::Value, DecodeError>)
        requires
            old(self).wf(),
        ensures
            final(self).wf(),
            match crate::value::dec_value(old(self).remaining()) {
                Ok((sv, c)) => r matches Ok(v) && crate::value::view_value(v) == sv && final(self).remaining() == old(self).remaining().skip(c),
                Err(e) => r matches Err(e2) && e2 == e,
            },
        decreases self.remaining().len(), 0int,
    {
        proof {
            reveal(crate::value::dec_value);
            reveal(crate::value::dec_values);
            reveal(crate::value::dec_pairs);
            reveal(array_len_outcome);
            reveal(map_len_outcome);
        }
        let ghost rem = self.remaining();
        let tag = match self._peek_byte() {
            Ok(t) => t,
            Err(e) => {
                return Err(e);
            },
        };
        if !((0x90 <= tag && tag <= 0x9f) || tag == 0xdc || tag == 0xdd || (0x80 <= tag && tag
            <= 0x8f) || tag == 0xde || tag == 0xdf) {
            self.decode_leaf(tag)
        } else if (0x90 <= tag && tag <= 0x9f) || tag == 0xdc || tag == 0xdd {
            let n = match self._read_vec_len() {
                Ok(n) => n,
                Err(e) => {
                    return Err(e);
                },
            };
            match self.decode_array(n) {
                Ok(vs) => {
                    proof {
                        if let Ok((_n1, c1)) = array_len_outcome(rem) {
                            crate::format::lemma_parse_consumed(rem);
                            crate::value::lemma_dec_values_bounds(rem.skip(c1), n as int);
                            if let Ok((_items, c2)) = crate::value::dec_values(
                                rem.skip(c1),
                                n as int,
                            ) {
                                assert(rem.skip(c1).skip(c2) =~= rem.skip(c1 + c2));
                                assert(rem.subrange(c1, rem.len() as int) =~= rem.skip(c1));
                            }
                        }
                    }
                    Ok(crate::value::Value::Array(vs))
                },
                Err(e) => Err(e),
            }
        } else {
            let n = match self._read_map_len() {
                Ok(n) => n,
                Err(e) => {
                    return Err(e);
                },
            };
            match self.decode_map(n) {
                Ok(ps) => {
                    proof {
                        if let Ok((_n1, c1)) = map_len_outcome(rem) {
                            crate::format::lemma_parse_consumed(rem);
                            crate::value::lemma_dec_pairs_bounds(rem.skip(c1), n as int);
                            if let Ok((_items, c2)) = crate::value::dec_pairs(
                                rem.skip(c1),
                                n as int,
                            ) {
                                assert(rem.skip(c1).skip(c2) =~= rem.skip(c1 + c2));
                                assert(rem.subrange(c1, rem.len() as int) =~= rem.skip(c1));
                            }
                        }
                    }
                    Ok(crate::value::Value::Mapping(ps))
                },
                Err(e) => Err(e),
            }
        }
    }

    /// Decodes one non-composite item (everything but arrays and maps).
    #[verifier::rlimit(100)]
    #[verifier::spinoff_prover]
    fn decode_leaf(&mut self, tag: u8) -> (r: Result<crate::value::Value, DecodeError>)
        requires
            old(self).wf(),
            old(self).remaining().len() > 0,
            tag == old(self).remaining()[0],
            !crate::format::is_array_tag(tag),
            !crate::format::is_map_tag(tag),
        ensures
            final(self).wf(),
            match crate::value::dec_value(old(self).remaining()) {
                Ok((sv, c)) => r matches Ok(v) && crate::value::view_value(v) == sv && final(self).remaining() == old(self).remaining().skip(c),
                Err(e) => r matches Err(e2) && e2 == e,
            },
    {
        proof {
            reveal(crate::value::dec_value);
            reveal(unsigned_outcome);
            reveal(signed_outcome);
            reveal(float_outcome);
            reveal(double_outcome);
            reveal(str_bytes_outcome);
            reveal(bin_bytes_outcome);
            reveal(ext_outcome);
        }
        if tag <= 0x7f || (0xcc <= tag && tag <= 0xcf) {
            match self.read_u64() {
                Ok(v) => Ok(crate::value::Value::Unsigned(v)),
                Err(e) => Err(e),
            }
        } else if tag >= 0xe0 || (0xd0 <= tag && tag <= 0xd3) {
            match self.read_i64() {
                Ok(v) => Ok(crate::value::Value::Integer(v)),
                Err(e) => Err(e),
            }
        } else if tag == 0xc0 {
            match self.read_nil() {
                Ok(_) => Ok(crate::value::Value::Nil),
                Err(e) => Err(e),
            }
        } else if tag == 0xc2 || tag == 0xc3 {
            match self.read_bool() {
                Ok(b) => Ok(crate::value::Value::Boolean(b)),
                Err(e) => Err(e),
            }
        } else if tag == 0xca {
            match self.read_f32_bits() {
                Ok(bits) => Ok(crate::value::Value::Float(bits)),
                Err(e) => Err(e),
            }
        } else if tag == 0xcb {
            match self.read_f64_bits() {
                Ok(bits) => Ok(crate::value::Value::Double(bits)),
                Err(e) => Err(e),
            }
        } else if (0xa0 <= tag && tag <= 0xbf) || tag == 0xd9 || tag == 0xda || tag == 0xdb {
            match self._read_str_bytes() {
                Ok(b) => Ok(crate::value::Value::Str(b)),
                Err(e) => Err(e),
            }
        } else if tag == 0xc4 || tag == 0xc5 || tag == 0xc6 {
            match self._read_bin_bytes() {
                Ok(b) => Ok(crate::value::Value::Binary(b)),
                Err(e) => Err(e),
            }
        } else if (0xd4 <= tag && tag <= 0xd8) || tag == 0xc7 || tag == 0xc8 || tag == 0xc9 {
            match self._read_ext() {
                Ok((t, b)) => Ok(crate::value::Value::Extended(t, b)),
                Err(e) => Err(e),
            }
        } else {
            // tag == 0xc1, the reserved byte
            Err(DecodeError::Reserved)
        }
    }

    /// Decodes `len` consecutive value trees.
    #[verifier::loop_isolation(false)]
    #[verifier::rlimit(100)]
    fn decode_array(&mut self, len: usize) -> (r: Result<Vec<crate::value::Value>, DecodeError>)
        requires
            old(self).wf(),
        ensures
            final(self).wf(),
            match crate::value::dec_values(old(self).remaining(), len as int) {
                Ok((items, c)) => r matches Ok(vs) && crate::value::view_values(vs@) == items
                    && final(self).remaining() == old(self).remaining().skip(c),
                Err(e) => r matches Err(e2) && e2 == e,
            },
        decreases self.remaining().len(), 1int,
    {
        proof {
            reveal(crate::value::dec_values);
            reveal(crate::value::dec_value);
        }
        let ghost s0 = self.remaining();
        let mut vs: Vec<crate::value::Value> = Vec::new();
        let ghost mut k: int = 0;
        let mut i: usize = 0;
        proof {
            assert(s0.skip(0) =~= s0);
        }
        while i < len
            invariant
                self.wf(),
                i <= len,
                vs@.len() == i as int,
                0 <= k <= s0.len(),
                self.remaining() == s0.skip(k),
                crate::value::dec_values(s0, len as int) == (match crate::value::dec_values(
                    s0.skip(k),
                    len - i,
                ) {
                    Ok((more, c2)) => Ok::<(Seq<crate::value::SpecValue>, int), DecodeError>(
                        (crate::value::view_values(vs@) + more, k + c2),
                    ),
                    Err(e) => Err::<(Seq<crate::value::SpecValue>, int), DecodeError>(e),
                }),
            decreases len - i,
        {
            let ghost vs_old = vs@;
            let ghost k_old = k;
            proof {
                reveal(crate::value::dec_values);
                reveal(crate::value::dec_value);
            }
            match self.decode_value() {
                Err(e) => {
                    return Err(e);
                },
                Ok(v) => {
                    proof {
                        reveal(crate::value::dec_values);
                        reveal(crate::value::dec_value);
                        if let Ok((sv, c)) = crate::value::dec_value(s0.skip(k_old)) {
                            crate::value::lemma_dec_value_bounds(s0.skip(k_old));
                            assert(s0.skip(k_old).skip(c) =~= s0.skip(k_old + c));
                            crate::value::lemma_view_values_push(vs_old, v);
                            if let Ok((more2, _c3)) = crate::value::dec_values(
                                s0.skip(k_old + c),
                                len - (i + 1),
                            ) {
                                assert(crate::value::view_values(vs_old) + (seq![
                                    crate::value::view_value(v),
                                ] + more2) =~= crate::value::view_values(vs_old.push(v)) + more2);
                            }
                            k = k_old + c;
                        }
                    }
                    vs.push(v);
                    i = i + 1;
                },
            }
        }
        proof {
            assert(crate::value::view_values(vs@) + Seq::<crate::value::SpecValue>::empty()
                =~= crate::value::view_values(vs@));
        }
        Ok(vs)
    }

    /// Decodes `len` consecutive key/value pairs.
    #[verifier::loop_isolation(false)]
    #[verifier::rlimit(100)]
    fn decode_map(&mut self, len: usize) -> (r: Result<
        Vec<(crate::value::Value, crate::value::Value)>,
        DecodeError,
    >)
        requires
            old(self).wf(),
        ensures
            final(self).wf(),
            match crate::value::dec_pairs(old(self).remaining(), len as int) {
                Ok((items, c)) => r matches Ok(ps) && crate::value::view_pairs(ps@) == items
                    && final(self).remaining() == old(self).remaining().skip(c),
                Err(e) => r matches Err(e2) && e2 == e,
            },
        decreases self.remaining().len(), 1int,
    {
        proof {
            reveal(crate::value::dec_pairs);
            reveal(crate::value::dec_value);
        }
        let ghost s0 = self.remaining();
        let mut ps: Vec<(crate::value::Value, crate::value::Value)> = Vec::new();
        let ghost mut k: int = 0;
        let mut i: usize = 0;
        proof {
            assert(s0.skip(0) =~= s0);
        }
        while i < len
            invariant
                self.wf(),
                i <= len,
                ps@.len() == i as int,
                0 <= k <= s0.len(),
                self.remaining() == s0.skip(k),
                crate::value::dec_pairs(s0, len as int) == (match crate::value::dec_pairs(
                    s0.skip(k),
                    len - i,
                ) {
                    Ok((more, c2)) => Ok::<
                        (Seq<(crate::value::SpecValue, crate::value::SpecValue)>, int),
                        DecodeError,
                    >((crate::value::view_pairs(ps@) + more, k + c2)),
                    Err(e) => Err::<
                        (Seq<(crate::value::SpecValue, crate::value::SpecValue)>, int),
                        DecodeError,
                    >(e),
                }),
            decreases len - i,
        {
            let ghost ps_old = ps@;
            let ghost k_old = k;
            proof {
                reveal(crate::value::dec_pairs);
                reveal(crate::value::dec_value);
            }
            let kv = match self.decode_value() {
                Err(e) => {
                    return Err(e);
                },
                Ok(kv) => kv,
            };
            proof {
                reveal(crate::value::dec_pairs);
                reveal(crate::value::dec_value);
                if let Ok((_svk, ck)) = crate::value::dec_value(s0.skip(k_old)) {
                    crate::value::lemma_dec_value_bounds(s0.skip(k_old));
                    assert(s0.skip(k_old).skip(ck) =~= s0.skip(k_old + ck));
                    k = k_old + ck;
                }
            }
            let ghost k_mid = k;
            let vv = match self.decode_value() {
                Err(e) => {
                    return Err(e);
                },
                Ok(vv) => vv,
            };
            proof {
                reveal(crate::value::dec_pairs);
                reveal(crate::value::dec_value);
                if let Ok((_svk, ck)) = crate::value::dec_value(s0.skip(k_old)) {
                    if let Ok((_svv, cv)) = crate::value::dec_value(s0.skip(k_mid)) {
                        crate::value::lemma_dec_value_bounds(s0.skip(k_old));
                        crate::value::lemma_dec_value_bounds(s0.skip(k_mid));
                        let sfull = s0.skip(k_old);
                        assert(sfull.subrange(ck, sfull.len() as int) =~= s0.skip(k_mid));
                        assert(s0.skip(k_mid).skip(cv) =~= s0.skip(k_mid + cv));
                        assert(sfull.subrange(ck + cv, sfull.len() as int) =~= s0.skip(
                            k_mid + cv,
                        ));
                        crate::value::lemma_view_pairs_push(ps_old, (kv, vv));
                        if let Ok((more2, _c3)) = crate::value::dec_pairs(
                            s0.skip(k_mid + cv),
                            len - (i + 1),
                        ) {
                            assert(crate::value::view_pairs(ps_old) + (seq![
                                (crate::value::view_value(kv), crate::value::view_value(vv)),
                            ] + more2) =~= crate::value::view_pairs(ps_old.push((kv, vv)))
                                + more2);
                        }
                        k = k_mid + cv;
                    }
                }
            }
            ps.push((kv, vv));
            i = i + 1;
        }
        proof {
            assert(crate::value::view_pairs(ps@) + Seq::<
                (crate::value::SpecValue, crate::value::SpecValue),
            >::empty() =~= crate::value::view_pairs(ps@));
        }
        Ok(ps)
    }
}


/// Variant round trip: what the encoder writes for a tagged variant (an
/// array header for the name and the arguments, then the name) resolves
/// back to the same candidate, leaving the arguments to be read next.
#[verifier::rlimit(100)]
#[verifier::spinoff_prover]
pub proof fn lemma_variant_round_trip(
    names: Seq<Seq<char>>,
    name: Seq<char>,
    cnt: int,
    rest: Seq<u8>,
)
    requires
        0 <= cnt && cnt + 1 <= u32::MAX,
        vstd::utf8::encode_utf8(name).len() <= u32::MAX,
        name_index(names, name) is Some,
    ensures
        ({
            let bytes = vstd::utf8::encode_utf8(name);
            let wire = crate::format::enc_array_len(cnt + 1) + crate::format::enc_str_len(
                bytes.len() as int,
            ) + bytes + rest;
            variant_outcome(wire, names) == Ok::<(int, int), DecodeError>(
                (
                    name_index(names, name)->Some_0,
                    wire.len() - rest.len(),
                ),
            )
        }),
{
    reveal(array_len_outcome);
    reveal(str_outcome);
    reveal(str_bytes_outcome);
    let bytes = vstd::utf8::encode_utf8(name);
    let strpart = crate::format::enc_str_len(bytes.len() as int) + bytes + rest;
    let wire = crate::format::enc_array_len(cnt + 1) + crate::format::enc_str_len(
        bytes.len() as int,
    ) + bytes + rest;
    assert(wire =~= crate::format::enc_array_len(cnt + 1) + strpart);
    crate::format::lemma_parse_enc_array_len(cnt + 1, strpart);
    let c1 = crate::format::enc_array_len(cnt + 1).len() as int;
    crate::format::lemma_parse_consumed(wire);
    assert(wire.skip(c1) =~= strpart);
    crate::format::lemma_parse_enc_str(bytes, rest);
    vstd::utf8::encode_utf8_valid_utf8(name);
    vstd::utf8::encode_utf8_decode_utf8(name);
    crate::format::lemma_parse_consumed(strpart);
}


impl<'a> Decoder<'a> {
    /// Reads an unsigned integer and checks that it fits `usize`.
    pub fn read_uint(&mut self) -> (r: Result<usize, DecodeError>)
        requires
            old(self).wf(),
        ensures
            final(self).wf(),
            match unsigned_outcome(old(self).remaining()) {
                Ok((v, c)) => if v <= usize::MAX {
                    r == Ok::<usize, DecodeError>(v as usize) && final(self).remaining() == old(self).remaining().skip(c)
                } else {
                    r == Err::<usize, DecodeError>(DecodeError::OutOfRange)
                },
                Err(e) => r == Err::<usize, DecodeError>(e),
            },
    {
        self.read_usize()
    }

    /// Reads a signed integer and checks that it fits `isize`.
    pub fn read_int(&mut self) -> (r: Result<isize, DecodeError>)
        requires
            old(self).wf(),
        ensures
            final(self).wf(),
            match signed_outcome(old(self).remaining()) {
                Ok((v, c)) => if isize::MIN <= v <= isize::MAX {
                    r == Ok::<isize, DecodeError>(v as isize) && final(self).remaining() == old(self).remaining().skip(c)
                } else {
                    r == Err::<isize, DecodeError>(DecodeError::OutOfRange)
                },
                Err(e) => r == Err::<isize, DecodeError>(e),
            },
    {
        self.read_isize()
    }

    /// Reads one whole binary item and hands its payload over.
    pub fn read_bin(&mut self) -> (r: Result<Vec<u8>, DecodeError>)
        requires
            old(self).wf(),
        ensures
            final(self).wf(),
            match bin_bytes_outcome(old(self).remaining()) {
                Ok((b, c)) => r matches Ok(v) && v@ == b && final(self).remaining() == old(self).remaining().skip(c),
                Err(e) => r == Err::<Vec<u8>, DecodeError>(e),
            },
    {
        self._read_bin_bytes()
    }

    /// Reads one whole extension item: its type and its payload.
    pub fn read_ext(&mut self) -> (r: Result<(i8, Vec<u8>), DecodeError>)
        requires
            old(self).wf(),
        ensures
            final(self).wf(),
            match ext_outcome(old(self).remaining()) {
                Ok(((t, b), c)) => r matches Ok((t2, v)) && t2 == t && v@ == b && final(self).remaining() == old(self).remaining().skip(c),
                Err(e) => r == Err::<(i8, Vec<u8>), DecodeError>(e),
            },
    {
        self._read_ext()
    }

    /// Opens an enum: nothing stands on the wire before its variant.
    pub fn read_enum(&mut self) -> (r: Result<(), DecodeError>)
        requires
            old(self).wf(),
        ensures
            final(self).wf(),
            r == Ok::<(), DecodeError>(()),
            final(self).remaining() == old(self).remaining(),
    {
        Ok(())
    }

    /// Reads one argument of a variant: the argument's own read follows.
    pub fn read_enum_variant_arg(&mut self) -> (r: Result<(), DecodeError>)
        requires
            old(self).wf(),
        ensures
            final(self).wf(),
            r == Ok::<(), DecodeError>(()),
            final(self).remaining() == old(self).remaining(),
    {
        Ok(())
    }

    /// Opens a struct variant: resolved exactly as a tagged variant.
    pub fn read_enum_struct_variant(&mut self, names: &[&str]) -> (r: Result<usize, DecodeError>)
        requires
            old(self).wf(),
        ensures
            final(self).wf(),
            match variant_outcome(old(self).remaining(), names@.map_values(|n: &str| n@)) {
                Ok((i, c)) => r == Ok::<usize, DecodeError>(i as usize) && final(self).remaining()
                    == old(self).remaining().skip(c),
                Err(e) => r == Err::<usize, DecodeError>(e),
            },
    {
        self.read_enum_variant(names)
    }

    /// Reads one field of a struct variant: the field's own read follows.
    pub fn read_enum_struct_variant_field(&mut self) -> (r: Result<(), DecodeError>)
        requires
            old(self).wf(),
        ensures
            final(self).wf(),
            r == Ok::<(), DecodeError>(()),
            final(self).remaining() == old(self).remaining(),
    {
        Ok(())
    }

    /// Reads one element of a sequence: the element's own read follows.
    pub fn read_seq_elt(&mut self) -> (r: Result<(), DecodeError>)
        requires
            old(self).wf(),
        ensures
            final(self).wf(),
            r == Ok::<(), DecodeError>(()),
            final(self).remaining() == old(self).remaining(),
    {
        Ok(())
    }

    /// Reads one key of a mapping: the key's own read follows.
    pub fn read_map_elt_key(&mut self) -> (r: Result<(), DecodeError>)
        requires
            old(self).wf(),
        ensures
            final(self).wf(),
            r == Ok::<(), DecodeError>(()),
            final(self).remaining() == old(self).remaining(),
    {
        Ok(())
    }

    /// Reads one value of a mapping: the value's own read follows.
    pub fn read_map_elt_val(&mut self) -> (r: Result<(), DecodeError>)
        requires
            old(self).wf(),
        ensures
            final(self).wf(),
            r == Ok::<(), DecodeError>(()),
            final(self).remaining() == old(self).remaining(),
    {
        Ok(())
    }

    /// Reads one argument of a tuple: the argument's own read follows.
    pub fn read_tuple_arg(&mut self) -> (r: Result<(), DecodeError>)
        requires
            old(self).wf(),
        ensures
            final(self).wf(),
            r == Ok::<(), DecodeError>(()),
            final(self).remaining() == old(self).remaining(),
    {
        Ok(())
    }

    /// Opens a named tuple of a known arity, encoded as an array.
    pub fn read_tuple_struct(&mut self, exp_len: usize) -> (r: Result<(), DecodeError>)
        requires
            old(self).wf(),
        ensures
            final(self).wf(),
            match array_len_outcome(old(self).remaining()) {
                Ok((n, c)) => if n == exp_len {
                    r == Ok::<(), DecodeError>(()) && final(self).remaining() == old(self).remaining().skip(c)
                } else {
                    r == Err::<(), DecodeError>(DecodeError::WrongLength)
                },
                Err(e) => r == Err::<(), DecodeError>(e),
            },
    {
        self.read_tuple(exp_len)
    }

    /// Reads one argument of a named tuple: the argument's read follows.
    pub fn read_tuple_struct_arg(&mut self) -> (r: Result<(), DecodeError>)
        requires
            old(self).wf(),
        ensures
            final(self).wf(),
            r == Ok::<(), DecodeError>(()),
            final(self).remaining() == old(self).remaining(),
    {
        Ok(())
    }
}


/// Scalar round trip on the typed path: reading an unsigned integer back
/// from its own canonical encoding yields the value, whatever follows it.
pub proof fn lemma_read_back_unsigned(v: u64, rest: Seq<u8>)
    ensures
        unsigned_outcome(crate::format::enc_unsigned(v) + rest) == Ok::<(u64, int), DecodeError>(
            (v, crate::format::enc_unsigned(v).len() as int),
        ),
{
    reveal(unsigned_outcome);
    crate::format::lemma_parse_enc_unsigned(v, rest);
    let s = crate::format::enc_unsigned(v) + rest;
    assert(s[0] == crate::format::enc_unsigned(v)[0]);
}

/// Scalar round trip on the typed path: reading a signed integer back from
/// its own canonical encoding yields the value, whatever follows it.
pub proof fn lemma_read_back_signed(v: i64, rest: Seq<u8>)
    ensures
        signed_outcome(crate::format::enc_signed(v) + rest) == Ok::<(i64, int), DecodeError>(
            (v, crate::format::enc_signed(v).len() as int),
        ),
{
    reveal(signed_outcome);
    crate::format::lemma_parse_enc_signed(v, rest);
    let s = crate::format::enc_signed(v) + rest;
    assert(s[0] == crate::format::enc_signed(v)[0]);
}

/// String round trip on the typed path: reading a string back from what the
/// encoder writes for it yields the same characters, whatever follows.
pub proof fn lemma_read_back_str(chars: Seq<char>, rest: Seq<u8>)
    requires
        vstd::utf8::encode_utf8(chars).len() <= u32::MAX,
    ensures
        ({
            let bytes = vstd::utf8::encode_utf8(chars);
            str_outcome(crate::format::enc_str_len(bytes.len() as int) + bytes + rest)
                == Ok::<(Seq<char>, int), DecodeError>(
                (
                    chars,
                    crate::format::enc_str_len(bytes.len() as int).len() + bytes.len() as int,
                ),
            )
        }),
{
    reveal(str_outcome);
    reveal(str_bytes_outcome);
    let bytes = vstd::utf8::encode_utf8(chars);
    crate::format::lemma_parse_enc_str(bytes, rest);
    vstd::utf8::encode_utf8_valid_utf8(chars);
    vstd::utf8::encode_utf8_decode_utf8(chars);
    let s = crate::format::enc_str_len(bytes.len() as int) + bytes + rest;
    assert(s[0] == (crate::format::enc_str_len(bytes.len() as int) + bytes)[0]);
}

} // verus!
