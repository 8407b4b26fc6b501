//! The glyphs of ASCII, eight rows of eight pixels each; the lowest bit is the leftmost pixel.
use vstd::prelude::*;

verus! {

/// The rows of each glyph, from the top. Control characters are empty.
pub const FONT8X8_BASIC: [[u8; 8]; 128] = [
    [0x00, 0x00, 0x00, 0x00, 0x00, 0x00, 0x00, 0x00],
    [0x00, 0x00, 0x00, 0x00, 0x00, 0x00, 0x00, 0x00],
    [0x00, 0x00, 0x00, 0x00, 0x00, 0x00, 0x00, 0x00],
    [0x00, 0x00, 0x00, 0x00, 0x00, 0x00, 0x00, 0x00],
    [0x00, 0x00, 0x00, 0x00, 0x00, 0x00, 0x00, 0x00],
    [0x00, 0x00, 0x00, 0x00, 0x00, 0x00, 0x00, 0x00],
    [0x00, 0x00, 0x00, 0x00, 0x00, 0x00, 0x00, 0x00],
    [0x00, 0x00, 0x00, 0x00, 0x00, 0x00, 0x00, 0x00],
    [0x00, 0x00, 0x00, 0x00, 0x00, 0x00, 0x00, 0x00],
    [0x00, 0x00, 0x00, 0x00, 0x00, 0x00, 0x00, 0x00],
    [0x00, 0x00, 0x00, 0x00, 0x00, 0x00, 0x00, 0x00],
    [0x00, 0x00, 0x00, 0x00, 0x00, 0x00, 0x00, 0x00],
    [0x00, 0x00, 0x00, 0x00, 0x00, 0x00, 0x00, 0x00],
    [0x00, 0x00, 0x00, 0x00, 0x00, 0x00, 0x00, 0x00],
    [0x00, 0x00, 0x00, 0x00, 0x00, 0x00, 0x00, 0x00],
    [0x00, 0x00, 0x00, 0x00, 0x00, 0x00, 0x00, 0x00],
    [0x00, 0x00, 0x00, 0x00, 0x00, 0x00, 0x00, 0x00],
    [0x00, 0x00, 0x00, 0x00, 0x00, 0x00, 0x00, 0x00],
    [0x00, 0x00, 0x00, 0x00, 0x00, 0x00, 0x00, 0x00],
    [0x00, 0x00, 0x00, 0x00, 0x00, 0x00, 0x00, 0x00],
    [0x00, 0x00, 0x00, 0x00, 0x00, 0x00, 0x00, 0x00],
    [0x00, 0x00, 0x00, 0x00, 0x00, 0x00, 0x00, 0x00],
    [0x00, 0x00, 0x00, 0x00, 0x00, 0x00, 0x00, 0x00],
    [0x00, 0x00, 0x00, 0x00, 0x00, 0x00, 0x00, 0x00],
    [0x00, 0x00, 0x00, 0x00, 0x00, 0x00, 0x00, 0x00],
    [0x00, 0x00, 0x00, 0x00, 0x00, 0x00, 0x00, 0x00],
    [0x00, 0x00, 0x00, 0x00, 0x00, 0x00, 0x00, 0x00],
    [0x00, 0x00, 0x00, 0x00, 0x00, 0x00, 0x00, 0x00],
    [0x00, 0x00, 0x00, 0x00, 0x00, 0x00, 0x00, 0x00],
    [0x00, 0x00, 0x00, 0x00, 0x00, 0x00, 0x00, 0x00],
    [0x00, 0x00, 0x00, 0x00, 0x00, 0x00, 0x00, 0x00],
    [0x00, 0x00, 0x00, 0x00, 0x00, 0x00, 0x00, 0x00],
    [0x00, 0x00, 0x00, 0x00, 0x00, 0x00, 0x00, 0x00],
    [0x18, 0x3c, 0x3c, 0x18, 0x18, 0x00, 0x18, 0x00],
    [0x36, 0x36, 0x00, 0x00, 0x00, 0x00, 0x00, 0x00],
    [0x36, 0x36, 0x7f, 0x36, 0x7f, 0x36, 0x36, 0x00],
    [0x0c, 0x3e, 0x03, 0x1e, 0x30, 0x1f, 0x0c, 0x00],
    [0x00, 0x63, 0x33, 0x18, 0x0c, 0x66, 0x63, 0x00],
    [0x1c, 0x36, 0x1c, 0x6e, 0x3b, 0x33, 0x6e, 0x00],
    [0x06, 0x06, 0x03, 0x00, 0x00, 0x00, 0x00, 0x00],
    [0x18, 0x0c, 0x06, 0x06, 0x06, 0x0c, 0x18, 0x00],
    [0x06, 0x0c, 0x18, 0x18, 0x18, 0x0c, 0x06, 0x00],
    [0x00, 0x66, 0x3c, 0xff, 0x3c, 0x66, 0x00, 0x00],
    [0x00, 0x0c, 0x0c, 0x3f, 0x0c, 0x0c, 0x00, 0x00],
    [0x00, 0x00, 0x00, 0x00, 0x00, 0x0c, 0x0c, 0x06],
    [0x00, 0x00, 0x00, 0x3f, 0x00, 0x00, 0x00, 0x00],
    [0x00, 0x00, 0x00, 0x00, 0x00, 0x0c, 0x0c, 0x00],
    [0x60, 0x30, 0x18, 0x0c, 0x06, 0x03, 0x01, 0x00],
    [0x3e, 0x63, 0x73, 0x7b, 0x6f, 0x67, 0x3e, 0x00],
    [0x0c, 0x0e, 0x0c, 0x0c, 0x0c, 0x0c, 0x3f, 0x00],
    [0x1e, 0x33, 0x30, 0x1c, 0x06, 0x33, 0x3f, 0x00],
    [0x1e, 0x33, 0x30, 0x1c, 0x30, 0x33, 0x1e, 0x00],
    [0x38, 0x3c, 0x36, 0x33, 0x7f, 0x30, 0x78, 0x00],
    [0x3f, 0x03, 0x1f, 0x30, 0x30, 0x33, 0x1e, 0x00],
    [0x1c, 0x06, 0x03, 0x1f, 0x33, 0x33, 0x1e, 0x00],
    [0x3f, 0x33, 0x30, 0x18, 0x0c, 0x0c, 0x0c, 0x00],
    [0x1e, 0x33, 0x33, 0x1e, 0x33, 0x33, 0x1e, 0x00],
    [0x1e, 0x33, 0x33, 0x3e, 0x30, 0x18, 0x0e, 0x00],
    [0x00, 0x0c, 0x0c, 0x00, 0x00, 0x0c, 0x0c, 0x00],
    [0x00, 0x0c, 0x0c, 0x00, 0x00, 0x0c, 0x0c, 0x06],
    [0x18, 0x0c, 0x06, 0x03, 0x06, 0x0c, 0x18, 0x00],
    [0x00, 0x00, 0x3f, 0x00, 0x00, 0x3f, 0x00, 0x00],
    [0x06, 0x0c, 0x18, 0x30, 0x18, 0x0c, 0x06, 0x00],
    [0x1e, 0x33, 0x30, 0x18, 0x0c, 0x00, 0x0c, 0x00],
    [0x3e, 0x63, 0x7b, 0x7b, 0x7b, 0x03, 0x1e, 0x00],
    [0x0c, 0x1e, 0x33, 0x33, 0x3f, 0x33, 0x33, 0x00],
    [0x3f, 0x66, 0x66, 0x3e, 0x66, 0x66, 0x3f, 0x00],
    [0x3c, 0x66, 0x03, 0x03, 0x03, 0x66, 0x3c, 0x00],
    [0x1f, 0x36, 0x66, 0x66, 0x66, 0x36, 0x1f, 0x00],
    [0x7f, 0x46, 0x16, 0x1e, 0x16, 0x46, 0x7f, 0x00],
    [0x7f, 0x46, 0x16, 0x1e, 0x16, 0x06, 0x0f, 0x00],
    [0x3c, 0x66, 0x03, 0x03, 0x73, 0x66, 0x7c, 0x00],
    [0x33, 0x33, 0x33, 0x3f, 0x33, 0x33, 0x33, 0x00],
    [0x1e, 0x0c, 0x0c, 0x0c, 0x0c, 0x0c, 0x1e, 0x00],
    [0x78, 0x30, 0x30, 0x30, 0x33, 0x33, 0x1e, 0x00],
    [0x67, 0x66, 0x36, 0x1e, 0x36, 0x66, 0x67, 0x00],
    [0x0f, 0x06, 0x06, 0x06, 0x46, 0x66, 0x7f, 0x00],
    [0x63, 0x77, 0x7f, 0x7f, 0x6b, 0x63, 0x63, 0x00],
    [0x63, 0x67, 0x6f, 0x7b, 0x73, 0x63, 0x63, 0x00],
    [0x1c, 0x36, 0x63, 0x63, 0x63, 0x36, 0x1c, 0x00],
    [0x3f, 0x66, 0x66, 0x3e, 0x06, 0x06, 0x0f, 0x00],
    [0x1e, 0x33, 0x33, 0x33, 0x3b, 0x1e, 0x38, 0x00],
    [0x3f, 0x66, 0x66, 0x3e, 0x36, 0x66, 0x67, 0x00],
    [0x1e, 0x33, 0x07, 0x0e, 0x38, 0x33, 0x1e, 0x00],
    [0x3f, 0x2d, 0x0c, 0x0c, 0x0c, 0x0c, 0x1e, 0x00],
    [0x33, 0x33, 0x33, 0x33, 0x33, 0x33, 0x3f, 0x00],
    [0x33, 0x33, 0x33, 0x33, 0x33, 0x1e, 0x0c, 0x00],
    [0x63, 0x63, 0x63, 0x6b, 0x7f, 0x77, 0x63, 0x00],
    [0x63, 0x63, 0x36, 0x1c, 0x1c, 0x36, 0x63, 0x00],
    [0x33, 0x33, 0x33, 0x1e, 0x0c, 0x0c, 0x1e, 0x00],
    [0x7f, 0x63, 0x31, 0x18, 0x4c, 0x66, 0x7f, 0x00],
    [0x1e, 0x06, 0x06, 0x06, 0x06, 0x06, 0x1e, 0x00],
    [0x03, 0x06, 0x0c, 0x18, 0x30, 0x60, 0x40, 0x00],
    [0x1e, 0x18, 0x18, 0x18, 0x18, 0x18, 0x1e, 0x00],
    [0x08, 0x1c, 0x36, 0x63, 0x00, 0x00, 0x00, 0x00],
    [0x00, 0x00, 0x00, 0x00, 0x00, 0x00, 0x00, 0xff],
    [0x0c, 0x0c, 0x18, 0x00, 0x00, 0x00, 0x00, 0x00],
    [0x00, 0x00, 0x1e, 0x30, 0x3e, 0x33, 0x6e, 0x00],
    [0x07, 0x06, 0x06, 0x3e, 0x66, 0x66, 0x3b, 0x00],
    [0x00, 0x00, 0x1e, 0x33, 0x03, 0x33, 0x1e, 0x00],
    [0x38, 0x30, 0x30, 0x3e, 0x33, 0x33, 0x6e, 0x00],
    [0x00, 0x00, 0x1e, 0x33, 0x3f, 0x03, 0x1e, 0x00],
    [0x1c, 0x36, 0x06, 0x0f, 0x06, 0x06, 0x0f, 0x00],
    [0x00, 0x00, 0x6e, 0x33, 0x33, 0x3e, 0x30, 0x1f],
    [0x07, 0x06, 0x36, 0x6e, 0x66, 0x66, 0x67, 0x00],
    [0x0c, 0x00, 0x0e, 0x0c, 0x0c, 0x0c, 0x1e, 0x00],
    [0x30, 0x00, 0x30, 0x30, 0x30, 0x33, 0x33, 0x1e],
    [0x07, 0x06, 0x66, 0x36, 0x1e, 0x36, 0x67, 0x00],
    [0x0e, 0x0c, 0x0c, 0x0c, 0x0c, 0x0c, 0x1e, 0x00],
    [0x00, 0x00, 0x33, 0x7f, 0x7f, 0x6b, 0x63, 0x00],
    [0x00, 0x00, 0x1f, 0x33, 0x33, 0x33, 0x33, 0x00],
    [0x00, 0x00, 0x1e, 0x33, 0x33, 0x33, 0x1e, 0x00],
    [0x00, 0x00, 0x3b, 0x66, 0x66, 0x3e, 0x06, 0x0f],
    [0x00, 0x00, 0x6e, 0x33, 0x33, 0x3e, 0x30, 0x78],
    [0x00, 0x00, 0x3b, 0x6e, 0x66, 0x06, 0x0f, 0x00],
    [0x00, 0x00, 0x3e, 0x03, 0x1e, 0x30, 0x1f, 0x00],
    [0x08, 0x0c, 0x3e, 0x0c, 0x0c, 0x2c, 0x18, 0x00],
    [0x00, 0x00, 0x33, 0x33, 0x33, 0x33, 0x6e, 0x00],
    [0x00, 0x00, 0x33, 0x33, 0x33, 0x1e, 0x0c, 0x00],
    [0x00, 0x00, 0x63, 0x6b, 0x7f, 0x7f, 0x36, 0x00],
    [0x00, 0x00, 0x63, 0x36, 0x1c, 0x36, 0x63, 0x00],
    [0x00, 0x00, 0x33, 0x33, 0x33, 0x3e, 0x30, 0x1f],
    [0x00, 0x00, 0x3f, 0x19, 0x0c, 0x26, 0x3f, 0x00],
    [0x38, 0x0c, 0x0c, 0x07, 0x0c, 0x0c, 0x38, 0x00],
    [0x18, 0x18, 0x18, 0x00, 0x18, 0x18, 0x18, 0x00],
    [0x07, 0x0c, 0x0c, 0x38, 0x0c, 0x0c, 0x07, 0x00],
    [0x6e, 0x3b, 0x00, 0x00, 0x00, 0x00, 0x00, 0x00],
    [0x00, 0x00, 0x00, 0x00, 0x00, 0x00, 0x00, 0x00],
];

/// The rows of the glyph of the character with the code `c`, from the top.
#[verifier::opaque]
pub open spec fn rows_of(c: int) -> [u8; 8] {
    FONT8X8_BASIC@[c]
}

/// The rows of the glyph of the character with the code `c`, from the top.
pub fn glyph(c: u8) -> (r: [u8; 8])
    requires
        c < 128,
    ensures
        r == rows_of(c as int),
{
    reveal(rows_of);
    FONT8X8_BASIC[c as usize]
}

} // verus!
