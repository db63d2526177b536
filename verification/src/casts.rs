//! Range checks used by the narrowing reads: whether a wide integer value
//! fits a narrower type, computed by masking its high bits.

use vstd::prelude::*;

verus! {

/// True when `v` fits an 8-bit signed integer.
pub fn can_cast_i16_to_i8(v: i16) -> (r: bool)
    ensures
        r == (-0x80 <= v <= 0x7f),
{
    let m: u16 = 0xff80;
    let u = #[verifier::truncate] (v as u16);
    proof {
        assert(((v as u16) & 0xff80u16 == 0 || (v as u16) & 0xff80u16 == 0xff80u16) == (-0x80 <= v
            <= 0x7f)) by (bit_vector);
    }
    (u & m == 0) || (u & m == m)
}

/// True when `v` fits a 16-bit signed integer.
pub fn can_cast_i32_to_i16(v: i32) -> (r: bool)
    ensures
        r == (-0x8000 <= v <= 0x7fff),
{
    let m: u32 = 0xffff_8000;
    let u = #[verifier::truncate] (v as u32);
    proof {
        assert(((v as u32) & 0xffff_8000u32 == 0 || (v as u32) & 0xffff_8000u32 == 0xffff_8000u32)
            == (-0x8000 <= v <= 0x7fff)) by (bit_vector);
    }
    (u & m == 0) || (u & m == m)
}

/// True when `v` fits a 32-bit signed integer.
pub fn can_cast_i64_to_i32(v: i64) -> (r: bool)
    ensures
        r == (-0x8000_0000 <= v <= 0x7fff_ffff),
{
    let m: u64 = 0xffff_ffff_8000_0000;
    let u = #[verifier::truncate] (v as u64);
    proof {
        assert(((v as u64) & 0xffff_ffff_8000_0000u64 == 0 || (v as u64)
            & 0xffff_ffff_8000_0000u64 == 0xffff_ffff_8000_0000u64) == (-0x8000_0000 <= v
            <= 0x7fff_ffff)) by (bit_vector);
    }
    (u & m == 0) || (u & m == m)
}

/// True when `v` fits a 16-bit signed integer.
pub fn can_cast_i64_to_i16(v: i64) -> (r: bool)
    ensures
        r == (-0x8000 <= v <= 0x7fff),
{
    can_cast_i64_to_i32(v) && can_cast_i32_to_i16(v as i32)
}

/// True when `v` fits an 8-bit signed integer.
pub fn can_cast_i64_to_i8(v: i64) -> (r: bool)
    ensures
        r == (-0x80 <= v <= 0x7f),
{
    can_cast_i64_to_i32(v) && can_cast_i32_to_i16(v as i32) && can_cast_i16_to_i8(v as i16)
}

/// True when `v` fits an 8-bit unsigned integer.
pub fn can_cast_u64_to_u8(v: u64) -> (r: bool)
    ensures
        r == (v <= 0xff),
{
    proof {
        assert((v & 0xffff_ffff_ffff_ff00u64 == 0) == (v <= 0xff)) by (bit_vector);
    }
    v & 0xffff_ffff_ffff_ff00 == 0
}

/// True when `v` fits a 16-bit unsigned integer.
pub fn can_cast_u64_to_u16(v: u64) -> (r: bool)
    ensures
        r == (v <= 0xffff),
{
    proof {
        assert((v & 0xffff_ffff_ffff_0000u64 == 0) == (v <= 0xffff)) by (bit_vector);
    }
    v & 0xffff_ffff_ffff_0000 == 0
}

/// True when `v` fits a 32-bit unsigned integer.
pub fn can_cast_u64_to_u32(v: u64) -> (r: bool)
    ensures
        r == (v <= 0xffff_ffff),
{
    proof {
        assert((v & 0xffff_ffff_0000_0000u64 == 0) == (v <= 0xffff_ffff)) by (bit_vector);
    }
    v & 0xffff_ffff_0000_0000 == 0
}

/// True when `v` fits an 8-bit unsigned integer.
pub fn can_cast_u32_to_u8(v: u32) -> (r: bool)
    ensures
        r == (v <= 0xff),
{
    proof {
        assert((v & 0xffff_ff00u32 == 0) == (v <= 0xff)) by (bit_vector);
    }
    v & 0xffff_ff00 == 0
}

/// True when `v` fits a 16-bit unsigned integer.
pub fn can_cast_u32_to_u16(v: u32) -> (r: bool)
    ensures
        r == (v <= 0xffff),
{
    proof {
        assert((v & 0xffff_0000u32 == 0) == (v <= 0xffff)) by (bit_vector);
    }
    v & 0xffff_0000 == 0
}

/// True when `v` fits an 8-bit unsigned integer.
pub fn can_cast_u16_to_u8(v: u16) -> (r: bool)
    ensures
        r == (v <= 0xff),
{
    proof {
        assert((v & 0xff00u16 == 0) == (v <= 0xff)) by (bit_vector);
    }
    v & 0xff00 == 0
}

/// True when `v` fits the platform's `usize`.
pub fn can_cast_u64_to_uint(v: u64) -> (r: bool)
    ensures
        r == (v <= usize::MAX),
{
    v <= usize::MAX as u64
}

/// True when `v` fits the platform's `isize`.
pub fn can_cast_i64_to_int(v: i64) -> (r: bool)
    ensures
        r == (isize::MIN <= v <= isize::MAX),
{
    isize::MIN as i64 <= v && v <= isize::MAX as i64
}

} // verus!
