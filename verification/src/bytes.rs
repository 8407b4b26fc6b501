//! Numbers in bytes.
use vstd::prelude::*;

verus! {

/// The number that two bytes write, the lower first.
pub open spec fn le16(b: Seq<u8>, at: int) -> int {
    b[at] + b[at + 1] * 256
}

/// The number that two bytes write, the higher first.
pub open spec fn be16(b: Seq<u8>, at: int) -> int {
    b[at] * 256 + b[at + 1]
}

/// The number that four bytes write, the lowest first.
pub open spec fn le32(b: Seq<u8>, at: int) -> int {
    b[at] + b[at + 1] * 0x100 + b[at + 2] * 0x1_0000 + b[at + 3] * 0x100_0000
}

/// The number that four bytes write, the highest first.
pub open spec fn be32(b: Seq<u8>, at: int) -> int {
    b[at] * 0x100_0000 + b[at + 1] * 0x1_0000 + b[at + 2] * 0x100 + b[at + 3]
}

/// The signed number that four bytes write in two's complement, the highest first.
pub open spec fn be32_signed(b: Seq<u8>, at: int) -> int {
    let v = be32(b, at);
    if v >= 0x8000_0000 {
        v - 0x1_0000_0000
    } else {
        v
    }
}

/// The signed number that eight bytes write in two's complement, the highest first.
pub open spec fn be64_signed(b: Seq<u8>, at: int) -> int {
    be32_signed(b, at) * 0x1_0000_0000 + be32(b, at + 4)
}

/// The number that two bytes write, the lower first.
pub fn le_u16(b: &[u8], at: usize) -> (r: u16)
    requires
        at + 2 <= b.len(),
    ensures
        r == le16(b@, at as int),
{
    b[at] as u16 + b[at + 1] as u16 * 256
}

/// The number that two bytes write, the higher first.
pub fn be_u16(b: &[u8], at: usize) -> (r: u16)
    requires
        at + 2 <= b.len(),
    ensures
        r == be16(b@, at as int),
{
    b[at] as u16 * 256 + b[at + 1] as u16
}

/// The number that four bytes write, the lowest first.
pub fn le_u32(b: &[u8], at: usize) -> (r: u32)
    requires
        at + 4 <= b.len(),
    ensures
        r == le32(b@, at as int),
{
    b[at] as u32 + b[at + 1] as u32 * 0x100 + b[at + 2] as u32 * 0x1_0000 + b[at + 3] as u32
        * 0x100_0000
}

/// The number that four bytes write, the highest first.
pub fn be_u32(b: &[u8], at: usize) -> (r: u32)
    requires
        at + 4 <= b.len(),
    ensures
        r == be32(b@, at as int),
{
    b[at] as u32 * 0x100_0000 + b[at + 1] as u32 * 0x1_0000 + b[at + 2] as u32 * 0x100 + b[at
        + 3] as u32
}

/// The signed number that four bytes write, the highest first.
pub fn be_i32(b: &[u8], at: usize) -> (r: i32)
    requires
        at + 4 <= b.len(),
    ensures
        r == be32_signed(b@, at as int),
{
    let v: u32 = be_u32(b, at);
    if v >= 0x8000_0000 {
        (v as i64 - 0x1_0000_0000) as i32
    } else {
        v as i32
    }
}

/// The signed number that eight bytes write, the highest first.
pub fn be_i64(b: &[u8], at: usize) -> (r: i64)
    requires
        at + 8 <= b.len(),
    ensures
        r == be64_signed(b@, at as int),
{
    be_i32(b, at) as i64 * 0x1_0000_0000 + be_u32(b, at + 4) as i64
}

/// The bytes from `lo` to `hi`.
pub fn copy(b: &[u8], lo: usize, hi: usize) -> (r: Vec<u8>)
    requires
        lo <= hi <= b.len(),
    ensures
        r@ == b@.subrange(lo as int, hi as int),
{
    let mut out: Vec<u8> = Vec::new();
    let mut i: usize = lo;
    while i < hi
        invariant
            lo <= i <= hi <= b.len(),
            out@ == b@.subrange(lo as int, i as int),
        decreases hi - i,
    {
        out.push(b[i]);
        i = i + 1;
        assert(b@.subrange(lo as int, i as int) =~= b@.subrange(lo as int, i - 1).push(b@[i - 1]));
    }
    out
}

/// A number is read back from the bytes of its two's complement, in either order.
pub proof fn law_numbers_from_bytes(b: Seq<u8>, at: int, v: int)
    ensures
        0 <= v < 0x1_0000 && b[at] == v % 0x100 && b[at + 1] == v / 0x100 ==> le16(b, at) == v,
        0 <= v < 0x1_0000 && b[at] == v / 0x100 && b[at + 1] == v % 0x100 ==> be16(b, at) == v,
        0 <= v < 0x1_0000_0000 && b[at] == v % 0x100 && b[at + 1] == v / 0x100 % 0x100 && b[at + 2] == v
            / 0x1_0000 % 0x100 && b[at + 3] == v / 0x100_0000 ==> le32(b, at) == v,
        0 <= v < 0x1_0000_0000 && b[at + 3] == v % 0x100 && b[at + 2] == v / 0x100 % 0x100 && b[at + 1] == v
            / 0x1_0000 % 0x100 && b[at] == v / 0x100_0000 ==> be32(b, at) == v,
        -0x8000_0000 <= v < 0x8000_0000 && b[at + 3] == v % 0x100 && b[at + 2] == v / 0x100 % 0x100 && b[at
            + 1] == v / 0x1_0000 % 0x100 && b[at] == v / 0x100_0000 % 0x100 ==> be32_signed(b, at) == v,
{
}

/// A number of eight bytes is one of four, signed, and behind it one of four that is not.
pub proof fn law_long_numbers_from_bytes(b: Seq<u8>, at: int, high: int, low: int)
    requires
        be32_signed(b, at) == high,
        be32(b, at + 4) == low,
    ensures
        be64_signed(b, at) == high * 0x1_0000_0000 + low,
        0 <= low < 0x1_0000_0000,
        be64_signed(b, at) / 0x1_0000_0000 == high,
        be64_signed(b, at) % 0x1_0000_0000 == low,
{
}

} // verus!
