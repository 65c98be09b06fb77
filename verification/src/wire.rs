//! Byte-level helpers shared by the parsers and the TTL patcher: big-endian
//! integer fields, ASCII case folding, and the saturating TTL subtraction.

use vstd::prelude::*;

verus! {

/// The big-endian 16-bit integer stored at `s[i]`, `s[i + 1]`.
pub open spec fn be16(s: Seq<u8>, i: int) -> u16 {
    ((s[i] as int) * 0x100 + (s[i + 1] as int)) as u16
}

/// The big-endian 32-bit integer stored at `s[i]` .. `s[i + 3]`.
pub open spec fn be32(s: Seq<u8>, i: int) -> u32 {
    ((s[i] as int) * 0x1000000 + (s[i + 1] as int) * 0x10000 + (s[i + 2] as int) * 0x100 + (s[i
        + 3] as int)) as u32
}

/// `s` with the four bytes at `i` .. `i + 3` replaced by `v` in big-endian order.
pub open spec fn write_be32(s: Seq<u8>, i: int, v: u32) -> Seq<u8> {
    s.update(i, (v / 0x1000000) as u8).update(i + 1, ((v / 0x10000) % 0x100) as u8).update(
        i + 2,
        ((v / 0x100) % 0x100) as u8,
    ).update(i + 3, (v % 0x100) as u8)
}

/// `a - b`, floored at zero.
pub open spec fn sat_sub32(a: u32, b: u32) -> u32 {
    if a >= b {
        (a - b) as u32
    } else {
        0
    }
}

/// An ASCII uppercase letter (0x41 'A' .. 0x5A 'Z') mapped to its lowercase
/// form; any other byte unchanged.
pub open spec fn lower_byte(b: u8) -> u8 {
    if 0x41 <= b && b <= 0x5A {
        (b + 0x20) as u8
    } else {
        b
    }
}

/// Every byte of `s` case-folded with `lower_byte`.
pub open spec fn lower_bytes(s: Seq<u8>) -> Seq<u8> {
    s.map_values(|b: u8| lower_byte(b))
}

/// Reads the big-endian 16-bit field at `i`.
pub fn read_be16(s: &[u8], i: usize) -> (r: u16)
    requires
        i + 1 < s@.len(),
    ensures
        r == be16(s@, i as int),
{
    (s[i] as u16) * 0x100 + (s[i + 1] as u16)
}

/// Reads the big-endian 32-bit field at `i`.
pub fn read_be32(s: &[u8], i: usize) -> (r: u32)
    requires
        i + 3 < s@.len(),
    ensures
        r == be32(s@, i as int),
{
    (s[i] as u32) * 0x1000000 + (s[i + 1] as u32) * 0x10000 + (s[i + 2] as u32) * 0x100 + (s[i
        + 3] as u32)
}

} // verus!
