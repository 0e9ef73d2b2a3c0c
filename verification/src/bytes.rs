//! Little-endian integer decoding over byte sequences, shared by every
//! on-disk structure parser.

use vstd::prelude::*;

verus! {

/// The unsigned little-endian value of `s[at..at + 2]`.
pub open spec fn le16(s: Seq<u8>, at: int) -> int {
    s[at] + 256 * s[at + 1]
}

/// The unsigned little-endian value of `s[at..at + 4]`.
pub open spec fn le32(s: Seq<u8>, at: int) -> int {
    le16(s, at) + 65536 * le16(s, at + 2)
}

/// The unsigned little-endian value of `s[at..at + 8]`.
pub open spec fn le64(s: Seq<u8>, at: int) -> int {
    le32(s, at) + 4294967296 * le32(s, at + 4)
}

/// Reads a little-endian `u16` at `at`.
pub fn read_u16_le(s: &[u8], at: usize) -> (r: u16)
    requires
        at + 2 <= s@.len(),
    ensures
        r == le16(s@, at as int),
{
    s[at] as u16 + 256 * (s[at + 1] as u16)
}

/// Reads a little-endian `u32` at `at`.
pub fn read_u32_le(s: &[u8], at: usize) -> (r: u32)
    requires
        at + 4 <= s@.len(),
    ensures
        r == le32(s@, at as int),
{
    let _n = s.len();
    let lo = read_u16_le(s, at);
    let hi = read_u16_le(s, at + 2);
    lo as u32 + 65536 * (hi as u32)
}

/// Reads a little-endian `u64` at `at`.
pub fn read_u64_le(s: &[u8], at: usize) -> (r: u64)
    requires
        at + 8 <= s@.len(),
    ensures
        r == le64(s@, at as int),
{
    let _n = s.len();
    let lo = read_u32_le(s, at);
    let hi = read_u32_le(s, at + 4);
    lo as u64 + 4294967296 * (hi as u64)
}

} // verus!
