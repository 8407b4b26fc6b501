//! Colors, the text of the time, and a canvas of premultiplied `0xAARRGGBB` pixels.
use crate::strings;
use crate::strings::{chars_are, chars_of, in_set, lower_all, push_number, push_two, same, split_words, trim};
use crate::text::{Glyph, GlyphBody, Run};
use vstd::arithmetic::div_mod;
use vstd::prelude::*;

verus! {

// ---- colors ----

/// The color `0xRRGGBB` with these components.
pub fn rgb(r: u32, g: u32, b: u32) -> (c: u32)
    ensures
        c == (r << 16) | (g << 8) | b,
        r <= 255 && g <= 255 && b <= 255 ==> c == r * 0x1_0000 + g * 0x100 + b,
{
    assert(r <= 255 && g <= 255 && b <= 255 ==> (r << 16) | (g << 8) | b == r * 0x1_0000 + g
        * 0x100 + b) by (bit_vector);
    (r << 16) | (g << 8) | b
}

/// The component of a color that is `shift` bits up: 24 alpha, 16 red, 8 green, 0 blue.
pub open spec fn channel(c: u32, shift: u32) -> int {
    ((c >> shift) & 0xff) as int
}

/// The pixel of the color `color` with the alpha `a`: each component is scaled by it, rounded down.
pub open spec fn premultiplied(color: u32, a: u8) -> int {
    a * 0x100_0000 + channel(color, 16) * a / 255 * 0x1_0000 + channel(color, 8) * a / 255 * 0x100
        + channel(color, 0) * a / 255
}

proof fn lemma_scaled(c: int, a: int)
    requires
        0 <= c <= 255,
        0 <= a <= 255,
    ensures
        0 <= c * a / 255 <= a,
        c * a / 255 <= 255,
{
    assert(0 <= c * a <= 255 * a) by (nonlinear_arith)
        requires
            0 <= c <= 255,
            0 <= a <= 255,
    ;
}

proof fn lemma_channel(c: u32, shift: u32)
    ensures
        0 <= channel(c, shift) <= 255,
{
    assert((c >> shift) & 0xff <= 255) by (bit_vector);
}

/// The component of a color that is `shift` bits up.
fn part(c: u32, shift: u32) -> (r: u32)
    requires
        shift <= 24,
    ensures
        r == channel(c, shift),
        r <= 255,
{
    proof {
        lemma_channel(c, shift);
    }
    (c >> shift) & 0xff
}

/// The premultiplied pixel of a color and an alpha.
pub fn premultiply(color: u32, alpha: u8) -> (r: u32)
    ensures
        r == premultiplied(color, alpha),
{
    let a: u32 = alpha as u32;
    proof {
        lemma_channel(color, 16);
        lemma_channel(color, 8);
        lemma_channel(color, 0);
        lemma_scaled(channel(color, 16), a as int);
        lemma_scaled(channel(color, 8), a as int);
        lemma_scaled(channel(color, 0), a as int);
    }
    let r: u32 = scale(part(color, 16), a);
    let g: u32 = scale(part(color, 8), a);
    let b: u32 = scale(part(color, 0), a);
    a * 0x100_0000 + r * 0x1_0000 + g * 0x100 + b
}

/// `c * a / 255`.
fn scale(c: u32, a: u32) -> (r: u32)
    requires
        c <= 255,
        a <= 255,
    ensures
        r == c * a / 255,
        r <= 255,
{
    proof {
        lemma_scaled(c as int, a as int);
        assert(c * a <= 65_025) by (nonlinear_arith)
            requires
                c <= 255,
                a <= 255,
        ;
    }
    c * a / 255
}

/// An opaque pixel keeps its color, and a transparent one is black.
pub proof fn law_premultiply(color: u32)
    ensures
        color <= 0xff_ffff ==> premultiplied(color, 255) == 0xff00_0000 + color,
        premultiplied(color, 0) == 0,
{
    lemma_channel(color, 16);
    lemma_channel(color, 8);
    lemma_channel(color, 0);
    if color <= 0xff_ffff {
        assert(color <= 0xff_ffff ==> ((color >> 16) & 0xff) * 0x1_0000 + ((color >> 8) & 0xff)
            * 0x100 + ((color >> 0) & 0xff) == color) by (bit_vector);
    }
    assert(channel(color, 16) * 0 == 0 && channel(color, 8) * 0 == 0 && channel(color, 0) * 0 == 0)
        by (nonlinear_arith);
}

/// The names of colors.
pub const NAMED: [(&'static str, u32); 30] = [
    ("white", 0xffffff),
    ("black", 0x000000),
    ("red", 0xff0000),
    ("lime", 0x00ff00),
    ("blue", 0x0000ff),
    ("yellow", 0xffff00),
    ("cyan", 0x00ffff),
    ("magenta", 0xff00ff),
    ("silver", 0xc0c0c0),
    ("gray", 0x808080),
    ("maroon", 0x800000),
    ("olive", 0x808000),
    ("green", 0x008000),
    ("purple", 0x800080),
    ("teal", 0x008080),
    ("navy", 0x000080),
    ("orange", 0xffa500),
    ("pink", 0xffc0cb),
    ("brown", 0xa52a2a),
    ("violet", 0xee82ee),
    ("indigo", 0x4b0082),
    ("gold", 0xffd700),
    ("coral", 0xff7f50),
    ("salmon", 0xfa8072),
    ("khaki", 0xf0e68c),
    ("plum", 0xdda0dd),
    ("azure", 0xf0ffff),
    ("ivory", 0xfffff0),
    ("wheat", 0xf5deb3),
    ("snow", 0xfffafa),
];

/// The color with the name `s`, in upper or lower case, among the names from `i` on.
pub open spec fn named_from(s: Seq<char>, i: int) -> Option<u32>
    decreases 30 - i,
{
    if i < 0 || i >= 30 {
        None
    } else if strings::lowered(s) == NAMED@[i].0@ {
        Some(NAMED@[i].1)
    } else {
        named_from(s, i + 1)
    }
}

/// What may stand between the three numbers of a color.
pub open spec fn separators() -> Seq<char> {
    seq![' ', '\t', ',', ';', '|', '，', '；']
}

/// The body of `rgb(...)`, or all of `s` without it; `None` where the bracket is not closed.
pub open spec fn triplet_body(s: Seq<char>) -> Option<Seq<char>> {
    if s.len() >= 4 && strings::lowered(s.subrange(0, 4)) == "rgb("@ {
        if s.last() == ')' && s.len() > 4 {
            Some(s.subrange(4, s.len() - 1))
        } else {
            None
        }
    } else {
        Some(s)
    }
}

/// The color that three numbers up to 255 write, with separators between them.
pub open spec fn triplet(s: Seq<char>) -> Option<u32> {
    match triplet_body(s) {
        None => None,
        Some(body) => {
            let parts = strings::words(body, separators());
            let separated = exists|i: int|
                0 <= i < body.len() && separators().contains(#[trigger] body[i]);
            if !separated || parts.len() != 3 {
                None
            } else {
                match (
                    strings::unsigned_upto(parts[0], 255),
                    strings::unsigned_upto(parts[1], 255),
                    strings::unsigned_upto(parts[2], 255),
                ) {
                    (Some(r), Some(g), Some(b)) => Some(
                        (r * 0x1_0000 + g * 0x100 + b) as u32,
                    ),
                    _ => None,
                }
            }
        },
    }
}

/// The value of a hexadecimal digit.
pub open spec fn hex_value(c: char) -> Option<int> {
    if '0' <= c <= '9' {
        Some(c as int - '0' as int)
    } else if 'a' <= c <= 'f' {
        Some(c as int - 'a' as int + 10)
    } else if 'A' <= c <= 'F' {
        Some(c as int - 'A' as int + 10)
    } else {
        None
    }
}

/// Whether each character is a hexadecimal digit.
pub open spec fn all_hex(s: Seq<char>) -> bool {
    forall|i: int| 0 <= i < s.len() ==> hex_value(#[trigger] s[i]) is Some
}

/// The number that hexadecimal digits write.
pub open spec fn hex_number(s: Seq<char>) -> int
    decreases s.len(),
{
    if s.len() == 0 {
        0
    } else {
        hex_number(s.drop_last()) * 16 + hex_value(s.last())->0
    }
}

/// `s` without the `#`, `0x` or `0X` that it may begin with.
pub open spec fn hex_body(s: Seq<char>) -> Seq<char> {
    if s.len() >= 1 && s[0] == '#' {
        s.subrange(1, s.len() as int)
    } else if s.len() >= 2 && s[0] == '0' && (s[1] == 'x' || s[1] == 'X') {
        s.subrange(2, s.len() as int)
    } else {
        s
    }
}

/// The color that six hexadecimal digits write, or three that each count twice.
pub open spec fn hex_color(s: Seq<char>) -> Option<u32> {
    let h = hex_body(s);
    if h.len() == 3 && all_hex(h) {
        Some(
            ((hex_value(h[0])->0) * 17 * 0x1_0000 + (hex_value(h[1])->0) * 17 * 0x100 + (hex_value(
                h[2],
            )->0) * 17) as u32,
        )
    } else if h.len() == 6 && all_hex(h) {
        Some(hex_number(h) as u32)
    } else {
        None
    }
}

/// The color that `s` writes: a name, three numbers, or hexadecimal digits.
pub open spec fn color(s: Seq<char>) -> Option<u32> {
    let t = strings::trimmed(s);
    if t.len() == 0 {
        None
    } else {
        match named_from(t, 0) {
            Some(c) => Some(c),
            None => match triplet(t) {
                Some(c) => Some(c),
                None => hex_color(t),
            },
        }
    }
}

/// The color with the name `s`.
fn named_color(s: &[char]) -> (r: Option<u32>)
    ensures
        r == named_from(s@, 0),
{
    let low = lower_all(s);
    let mut i: usize = 0;
    while i < 30
        invariant
            i <= 30,
            low@ == strings::lowered(s@),
            named_from(s@, 0) == named_from(s@, i as int),
        decreases 30 - i,
    {
        if chars_are(&low, NAMED[i].0) {
            return Some(NAMED[i].1);
        }
        i = i + 1;
    }
    None
}

/// The color that three numbers write.
fn parse_triplet(s: &[char]) -> (r: Option<u32>)
    ensures
        r == triplet(s@),
{
    let prefixed = s.len() >= 4 && chars_are(&lower_all(&s[0..4]), "rgb(");
    let body = if prefixed {
        if s[s.len() - 1] != ')' || s.len() == 4 {
            return None;
        }
        &s[4..s.len() - 1]
    } else {
        s
    };
    assert(triplet_body(s@) == Some(body@));
    let seps: [char; 7] = [' ', '\t', ',', ';', '|', '，', '；'];
    assert(seps@ =~= separators());
    let mut separated = false;
    let mut i: usize = 0;
    while i < body.len()
        invariant
            i <= body@.len(),
            seps@ == separators(),
            separated == (exists|j: int|
                0 <= j < i && separators().contains(#[trigger] body@[j])),
        decreases body@.len() - i,
    {
        if in_set(&seps, body[i]) {
            separated = true;
            assert(separators().contains(body@[i as int]));
        }
        i = i + 1;
    }
    let parts = split_words(body, &seps);
    let ghost p = strings::rows(parts@);
    assert(p.len() == parts@.len());
    if !separated || parts.len() != 3 {
        return None;
    }
    assert(p[0] == parts@[0]@ && p[1] == parts@[1]@ && p[2] == parts@[2]@);
    match (
        strings::parse_upto(&parts[0], 255),
        strings::parse_upto(&parts[1], 255),
        strings::parse_upto(&parts[2], 255),
    ) {
        (Some(r), Some(g), Some(b)) => Some(rgb(r as u32, g as u32, b as u32)),
        _ => None,
    }
}

/// The value of a hexadecimal digit.
pub fn nibble(c: char) -> (r: Option<u32>)
    ensures
        match hex_value(c) {
            Some(v) => r == Some(v as u32) && 0 <= v <= 15,
            None => r is None,
        },
{
    if '0' <= c && c <= '9' {
        Some(c as u32 - '0' as u32)
    } else if 'a' <= c && c <= 'f' {
        Some(c as u32 - 'a' as u32 + 10)
    } else if 'A' <= c && c <= 'F' {
        Some(c as u32 - 'A' as u32 + 10)
    } else {
        None
    }
}

/// The values of hexadecimal digits.
pub fn nibbles(s: &[char]) -> (r: Option<Vec<u32>>)
    ensures
        r is Some <==> all_hex(s@),
        r matches Some(v) ==> v@.len() == s@.len() && forall|i: int|
            0 <= i < s@.len() ==> hex_value(s@[i]) == Some(#[trigger] v@[i] as int) && v@[i] <= 15,
{
    let mut out: Vec<u32> = Vec::new();
    let mut i: usize = 0;
    while i < s.len()
        invariant
            i <= s@.len(),
            out@.len() == i,
            forall|j: int|
                0 <= j < i ==> hex_value(s@[j]) == Some(#[trigger] out@[j] as int) && out@[j] <= 15,
        decreases s@.len() - i,
    {
        match nibble(s[i]) {
            Some(v) => {
                out.push(v);
            },
            None => {
                assert(hex_value(s@[i as int]) is None);
                return None;
            },
        }
        i = i + 1;
    }
    assert forall|i: int| 0 <= i < s@.len() implies hex_value(#[trigger] s@[i]) is Some by {
        assert(hex_value(s@[i]) == Some(out@[i] as int));
    }
    Some(out)
}

/// The color that hexadecimal digits write.
fn parse_hex(s: &[char]) -> (r: Option<u32>)
    ensures
        r == hex_color(s@),
{
    let h = if s.len() >= 1 && s[0] == '#' {
        &s[1..s.len()]
    } else if s.len() >= 2 && s[0] == '0' && (s[1] == 'x' || s[1] == 'X') {
        &s[2..s.len()]
    } else {
        s
    };
    assert(h@ == hex_body(s@));
    if h.len() != 3 && h.len() != 6 {
        return None;
    }
    let v = match nibbles(h) {
        Some(v) => v,
        None => {
            return None;
        },
    };
    if h.len() == 3 {
        assert(hex_value(h@[0]) == Some(v@[0] as int) && hex_value(h@[1]) == Some(v@[1] as int)
            && hex_value(h@[2]) == Some(v@[2] as int));
        return Some(rgb(v[0] * 17, v[1] * 17, v[2] * 17));
    }
    let mut n: u32 = 0;
    let mut i: usize = 0;
    while i < 6
        invariant
            i <= 6,
            h@.len() == 6,
            v@.len() == 6,
            forall|j: int|
                0 <= j < 6 ==> hex_value(h@[j]) == Some(#[trigger] v@[j] as int) && v@[j] <= 15,
            n == hex_number(h@.take(i as int)),
            i == 0 ==> n == 0,
            i == 1 ==> n < 0x10,
            i == 2 ==> n < 0x100,
            i == 3 ==> n < 0x1000,
            i == 4 ==> n < 0x1_0000,
            i == 5 ==> n < 0x10_0000,
            i == 6 ==> n < 0x100_0000,
        decreases 6 - i,
    {
        proof {
            assert(h@.take(i + 1).drop_last() =~= h@.take(i as int));
            assert(h@.take(i + 1).last() == h@[i as int]);
            assert(hex_value(h@[i as int]) == Some(v@[i as int] as int));
        }
        n = n * 16 + v[i];
        i = i + 1;
    }
    assert(h@.take(6) =~= h@);
    Some(n)
}

/// The color that `s` writes: `#RRGGBB`, `0xRRGGBB` or six bare digits, `#RGB` for the same with
/// each digit doubled, one of the names in `NAMED`, or three numbers up to 255 with commas,
/// semicolons, spaces or bars between them and, if one likes, `rgb(...)` around them.
pub fn parse_color(s: &str) -> (r: Option<u32>)
    ensures
        r == color(s@),
{
    let chars = chars_of(s);
    parse_color_chars(&chars)
}

/// The color that the characters write.
pub fn parse_color_chars(s: &[char]) -> (r: Option<u32>)
    ensures
        r == color(s@),
{
    let t = trim(s);
    if t.len() == 0 {
        return None;
    }
    match named_color(t) {
        Some(c) => {
            return Some(c);
        },
        None => {},
    }
    match parse_triplet(t) {
        Some(c) => {
            return Some(c);
        },
        None => {},
    }
    parse_hex(t)
}

/// The hexadecimal digit with the value `d`.
pub open spec fn hex_char(d: int) -> char {
    if d < 10 {
        ('0' as int + d) as char
    } else {
        ('a' as int + d - 10) as char
    }
}

/// The hexadecimal digits of `n`, with zeros in front where there are fewer than `width`.
pub open spec fn hex_text(n: nat, width: nat) -> Seq<char>
    decreases n + width,
{
    if n < 16 && width <= 1 {
        seq![hex_char(n as int)]
    } else {
        hex_text(n / 16, if width > 0 { (width - 1) as nat } else { 0 }).push(hex_char((n % 16) as int))
    }
}

/// Appends the hexadecimal digits of `n`, with zeros in front where there are fewer than `width`.
pub fn push_hex(out: &mut String, n: u32, width: u32)
    ensures
        final(out)@ == old(out)@ + hex_text(n as nat, width as nat),
    decreases n + width,
{
    let d: u32 = n % 16;
    let c: char = if d < 10 {
        (('0' as u8) + d as u8) as char
    } else {
        (('a' as u8) + (d - 10) as u8) as char
    };
    if n < 16 && width <= 1 {
        out.push(c);
    } else {
        push_hex(
            out,
            n / 16,
            if width > 0 {
                width - 1
            } else {
                0
            },
        );
        out.push(c);
    }
    assert(out@ =~= old(out)@ + hex_text(n as nat, width as nat));
}

/// Whether each character is a digit or a small letter up to `f`.
pub open spec fn plain_hex(s: Seq<char>) -> bool {
    forall|i: int| 0 <= i < s.len() ==> '0' <= #[trigger] s[i] <= '9' || 'a' <= s[i] <= 'f'
}

proof fn lemma_hex_text(n: nat, width: nat)
    ensures
        plain_hex(hex_text(n, width)),
        hex_number(hex_text(n, width)) == n,
        hex_text(n, width).len() >= width,
        hex_text(n, width).len() >= 1,
    decreases n + width,
{
    let s = hex_text(n, width);
    if n < 16 && width <= 1 {
        assert(s.drop_last() =~= Seq::<char>::empty());
        assert(hex_number(s.drop_last()) == 0);
        assert(s.last() == hex_char(n as int));
    } else {
        let w = if width > 0 {
            (width - 1) as nat
        } else {
            0
        };
        lemma_hex_text(n / 16, w);
        assert(s.drop_last() =~= hex_text(n / 16, w));
        assert(s.last() == hex_char((n % 16) as int));
    }
}

proof fn lemma_hex_len(n: nat, width: nat)
    requires
        1 <= width <= 6,
        width == 1 ==> n < 0x10,
        width == 2 ==> n < 0x100,
        width == 3 ==> n < 0x1000,
        width == 4 ==> n < 0x1_0000,
        width == 5 ==> n < 0x10_0000,
        width == 6 ==> n < 0x100_0000,
    ensures
        hex_text(n, width).len() == width,
    decreases width,
{
    if width > 1 {
        lemma_hex_len(n / 16, (width - 1) as nat);
    }
}

/// The name of a color begins and ends with a letter, and one of its first two is none of `a` to
/// `f`.
proof fn lemma_names(i: int)
    requires
        0 <= i < 30,
    ensures
        ({
            let n = NAMED@[i].0@;
            &&& n.len() >= 3
            &&& 'a' <= n[0] <= 'z'
            &&& ('g' <= n[0] <= 'z' || 'g' <= n[1] <= 'z')
            &&& 'a' <= n.last() <= 'z'
        }),
{
    reveal_strlit("white");
    reveal_strlit("black");
    reveal_strlit("red");
    reveal_strlit("lime");
    reveal_strlit("blue");
    reveal_strlit("yellow");
    reveal_strlit("cyan");
    reveal_strlit("magenta");
    reveal_strlit("silver");
    reveal_strlit("gray");
    reveal_strlit("maroon");
    reveal_strlit("olive");
    reveal_strlit("green");
    reveal_strlit("purple");
    reveal_strlit("teal");
    reveal_strlit("navy");
    reveal_strlit("orange");
    reveal_strlit("pink");
    reveal_strlit("brown");
    reveal_strlit("violet");
    reveal_strlit("indigo");
    reveal_strlit("gold");
    reveal_strlit("coral");
    reveal_strlit("salmon");
    reveal_strlit("khaki");
    reveal_strlit("plum");
    reveal_strlit("azure");
    reveal_strlit("ivory");
    reveal_strlit("wheat");
    reveal_strlit("snow");
}

proof fn lemma_no_name(s: Seq<char>, i: int)
    requires
        0 <= i <= 30,
        s.len() > 0,
        s[0] == '#' || plain_hex(s) || strings::is_digit(s[0]) || s.last() == ')',
    ensures
        named_from(s, i) is None,
    decreases 30 - i,
{
    if i < 30 {
        lemma_names(i);
        let n = NAMED@[i].0@;
        if strings::lowered(s) == n {
            assert(strings::lowered(s)[0] == n[0]);
            assert(strings::lowered(s)[1] == n[1]);
            assert(strings::lowered(s)[0] == strings::ascii_lower(s[0]));
            assert(strings::lowered(s)[1] == strings::ascii_lower(s[1]));
            assert(strings::lowered(s).last() == strings::ascii_lower(s.last()));
        }
        lemma_no_name(s, i + 1);
    }
}

/// A color is read back from its six hexadecimal digits, with `#` or `0x` in front or without.
pub proof fn law_color_roundtrip(c: u32)
    requires
        c <= 0xff_ffff,
    ensures
        color(hex_text(c as nat, 6)) == Some(c),
        color(seq!['#'] + hex_text(c as nat, 6)) == Some(c),
        color(seq!['0', 'x'] + hex_text(c as nat, 6)) == Some(c),
        hex_text(c as nat, 6).len() == 6,
        plain_hex(hex_text(c as nat, 6)),
{
    let h = hex_text(c as nat, 6);
    lemma_hex_text(c as nat, 6);
    lemma_hex_len(c as nat, 6);
    lemma_hex_reads(h, h, c);
    let marked = seq!['#'] + h;
    assert(marked.subrange(1, 7) =~= h);
    lemma_hex_reads(marked, h, c);
    let prefixed = seq!['0', 'x'] + h;
    assert(prefixed.subrange(2, 8) =~= h);
    lemma_hex_reads(prefixed, h, c);
}

proof fn lemma_hex_reads(s: Seq<char>, h: Seq<char>, c: u32)
    requires
        h.len() == 6,
        plain_hex(h),
        hex_number(h) == c,
        s == h || (s == seq!['#'] + h && s.subrange(1, s.len() as int) == h) || (s == seq![
            '0',
            'x',
        ] + h && s.subrange(2, s.len() as int) == h),
    ensures
        color(s) == Some(c),
{
    let front = s.len() - h.len();
    assert forall|i: int| 0 <= i < s.len() implies s[i] == '#' || s[i] == 'x' || '0'
        <= #[trigger] s[i] <= '9' || 'a' <= s[i] <= 'f' by {
        if i >= front {
            assert(s[i] == h[i - front]);
        }
    }
    assert(!strings::is_space(s[0]) && !strings::is_space(s[s.len() - 1]));
    strings::lemma_trimmed(s);
    lemma_no_name(s, 0);
    assert(triplet_body(s) == Some(s)) by {
        reveal_strlit("rgb(");
        assert(strings::lowered(s.subrange(0, 4))[0] == strings::ascii_lower(s[0]));
    }
    assert forall|i: int| 0 <= i < s.len() implies !separators().contains(#[trigger] s[i]) by {
        let seps = separators();
        if seps.contains(s[i]) {
            let k = choose|k: int| 0 <= k < seps.len() && seps[k] == s[i];
            assert(k < 7);
        }
    }
    assert(triplet(s) is None);
    assert(hex_body(s) == h) by {
        if s == h {
            assert('0' <= s[0] <= '9' || 'a' <= s[0] <= 'f');
            assert('0' <= s[1] <= '9' || 'a' <= s[1] <= 'f');
        }
    }
    assert(all_hex(h)) by {
        assert forall|i: int| 0 <= i < h.len() implies hex_value(#[trigger] h[i]) is Some by {
            assert('0' <= h[i] <= '9' || 'a' <= h[i] <= 'f');
        }
    }
}

/// The text of three numbers with `gap` between them.
pub open spec fn triplet_text(r: u32, g: u32, b: u32, gap: Seq<char>) -> Seq<char> {
    strings::digits(r as nat) + gap + strings::digits(g as nat) + gap + strings::digits(b as nat)
}

/// Digits hold no separator and no white space.
proof fn lemma_digits_plain(n: u32)
    ensures
        strings::digits(n as nat).len() > 0,
        strings::all_digits(strings::digits(n as nat)),
        strings::free_of(strings::digits(n as nat), separators()),
        strings::trimmed(strings::digits(n as nat)) == strings::digits(n as nat),
{
    let d = strings::digits(n as nat);
    strings::lemma_digits(n as nat);
    assert(strings::is_digit(d[0]) && strings::is_digit(d[d.len() - 1]));
    strings::lemma_trimmed(d);
    assert forall|i: int| 0 <= i < d.len() implies !separators().contains(#[trigger] d[i]) by {
        let seps = separators();
        if seps.contains(d[i]) {
            let k = choose|k: int| 0 <= k < seps.len() && seps[k] == d[i];
            assert(k < 7);
        }
    }
}

/// A gap of one separator, or of two, keeps the words on its two sides apart.
proof fn lemma_gap(s: Seq<char>, gap: Seq<char>, n: u32)
    requires
        1 <= gap.len() <= 2,
        forall|i: int| 0 <= i < gap.len() ==> separators().contains(#[trigger] gap[i]),
    ensures
        strings::words(s + gap + strings::digits(n as nat), separators()) == strings::words(
            s,
            separators(),
        ).push(strings::digits(n as nat)),
{
    let d = strings::digits(n as nat);
    lemma_digits_plain(n);
    let none = Seq::<char>::empty();
    if gap.len() == 1 {
        assert(s + gap + d =~= s.push(gap[0]) + d);
        strings::lemma_words_append(s, gap[0], d, separators());
    } else {
        let first = s.push(gap[0]);
        assert(s + gap + d =~= first.push(gap[1]) + d);
        assert(first =~= s.push(gap[0]) + none);
        strings::lemma_words_append(s, gap[0], none, separators());
        strings::lemma_words_append(first, gap[1], d, separators());
    }
}

/// The three numbers that a text of them is cut into.
proof fn lemma_triplet_words(r: u32, g: u32, b: u32, gap: Seq<char>)
    requires
        1 <= gap.len() <= 2,
        forall|i: int| 0 <= i < gap.len() ==> separators().contains(#[trigger] gap[i]),
    ensures
        strings::words(triplet_text(r, g, b, gap), separators()) == seq![
            strings::digits(r as nat),
            strings::digits(g as nat),
            strings::digits(b as nat),
        ],
{
    let d = strings::digits(r as nat);
    lemma_digits_plain(r);
    strings::lemma_one_piece(d, separators());
    let all = strings::pieces(d, separators()).map_values(|p: Seq<char>| strings::trimmed(p));
    assert(all =~= seq![d]);
    reveal(Seq::filter);
    assert(all.drop_last() =~= Seq::<Seq<char>>::empty());
    assert(all.drop_last().filter(|p: Seq<char>| p.len() > 0).len() == 0);
    assert(strings::words(d, separators()) =~= seq![d]);
    lemma_gap(d, gap, g);
    lemma_gap(d + gap + strings::digits(g as nat), gap, b);
}

/// A text of three numbers is the color of them.
proof fn lemma_triplet_color(s: Seq<char>, r: u32, g: u32, b: u32, gap: Seq<char>)
    requires
        r <= 255 && g <= 255 && b <= 255,
        1 <= gap.len() <= 2,
        forall|i: int| 0 <= i < gap.len() ==> separators().contains(#[trigger] gap[i]),
        triplet_body(s) == Some(triplet_text(r, g, b, gap)),
    ensures
        triplet(s) == Some((r * 0x1_0000 + g * 0x100 + b) as u32),
{
    let body = triplet_text(r, g, b, gap);
    let dr = strings::digits(r as nat);
    lemma_triplet_words(r, g, b, gap);
    strings::law_number_roundtrip(r as nat);
    strings::law_number_roundtrip(g as nat);
    strings::law_number_roundtrip(b as nat);
    assert(body[dr.len() as int] == gap[0]);
    assert(separators().contains(body[dr.len() as int]));
}

/// A text of three numbers begins and ends with a digit.
proof fn lemma_triplet_ends(r: u32, g: u32, b: u32, gap: Seq<char>)
    ensures
        triplet_text(r, g, b, gap).len() > 0,
        strings::is_digit(triplet_text(r, g, b, gap)[0]),
        strings::is_digit(triplet_text(r, g, b, gap).last()),
{
    let (dr, db) = (strings::digits(r as nat), strings::digits(b as nat));
    strings::lemma_digits(r as nat);
    strings::lemma_digits(b as nat);
    assert(triplet_text(r, g, b, gap)[0] == dr[0] && strings::is_digit(dr[0]));
    assert(triplet_text(r, g, b, gap).last() == db.last() && strings::is_digit(db[db.len() - 1]));
}

/// The same color can be written in any of its forms: the three numbers with a separator (or two)
/// between them, these in the brackets of `rgb(...)`, and the six hexadecimal digits with `#`, with
/// `0x` and with nothing in front.
#[verifier::rlimit(30)]
#[verifier::spinoff_prover]
pub proof fn law_color_forms_agree(r: u32, g: u32, b: u32, gap: Seq<char>)
    requires
        r <= 255 && g <= 255 && b <= 255,
        1 <= gap.len() <= 2,
        forall|i: int| 0 <= i < gap.len() ==> separators().contains(#[trigger] gap[i]),
    ensures
        ({
            let c = (r * 0x1_0000 + g * 0x100 + b) as u32;
            let hex = hex_text(c as nat, 6);
            &&& color(triplet_text(r, g, b, gap)) == Some(c)
            &&& color("rgb("@ + triplet_text(r, g, b, gap) + seq![')']) == Some(c)
            &&& color(hex) == Some(c)
            &&& color(seq!['#'] + hex) == Some(c)
            &&& color(seq!['0', 'x'] + hex) == Some(c)
        }),
{
    let c = (r * 0x1_0000 + g * 0x100 + b) as u32;
    law_color_roundtrip(c);
    let body = triplet_text(r, g, b, gap);
    let bracketed = "rgb("@ + body + seq![')'];
    lemma_triplet_ends(r, g, b, gap);
    reveal_strlit("rgb(");
    assert(color(body) == Some(c)) by {
        assert(triplet_body(body) == Some(body)) by {
            if body.len() >= 4 {
                assert(strings::lowered(body.subrange(0, 4))[0] == strings::ascii_lower(body[0]));
            }
        }
        lemma_triplet_color(body, r, g, b, gap);
        strings::lemma_trimmed(body);
        lemma_no_name(body, 0);
    }
    assert(color(bracketed) == Some(c)) by {
        assert(bracketed.subrange(0, 4) =~= "rgb("@);
        assert(strings::lowered(bracketed.subrange(0, 4)) =~= "rgb("@);
        assert(bracketed.last() == ')' && bracketed[0] == 'r');
        assert(bracketed.subrange(4, bracketed.len() - 1) =~= body);
        lemma_triplet_color(bracketed, r, g, b, gap);
        strings::lemma_trimmed(bracketed);
        lemma_no_name(bracketed, 0);
    }
}

proof fn lemma_named_bound(s: Seq<char>, i: int)
    requires
        0 <= i <= 30,
    ensures
        named_from(s, i) matches Some(c) ==> c <= 0xff_ffff,
    decreases 30 - i,
{
    if i < 30 {
        assert(forall|k: int| 0 <= k < 30 ==> (#[trigger] NAMED@[k]).1 <= 0xff_ffff);
        lemma_named_bound(s, i + 1);
    }
}

proof fn lemma_hex_bound(h: Seq<char>)
    requires
        all_hex(h),
        h.len() <= 6,
    ensures
        0 <= hex_number(h),
        h.len() == 0 ==> hex_number(h) == 0,
        h.len() == 1 ==> hex_number(h) < 0x10,
        h.len() == 2 ==> hex_number(h) < 0x100,
        h.len() == 3 ==> hex_number(h) < 0x1000,
        h.len() == 4 ==> hex_number(h) < 0x1_0000,
        h.len() == 5 ==> hex_number(h) < 0x10_0000,
        h.len() == 6 ==> hex_number(h) < 0x100_0000,
    decreases h.len(),
{
    if h.len() > 0 {
        assert(hex_value(h[h.len() - 1]) is Some);
        assert forall|i: int| 0 <= i < h.drop_last().len() implies hex_value(
            #[trigger] h.drop_last()[i],
        ) is Some by {
            assert(hex_value(h[i]) is Some);
        }
        lemma_hex_bound(h.drop_last());
    }
}

/// A color has three components and nothing above them.
pub proof fn law_color_is_opaque(s: Seq<char>)
    ensures
        color(s) matches Some(c) ==> c <= 0xff_ffff,
{
    let t = strings::trimmed(s);
    lemma_named_bound(t, 0);
    let h = hex_body(t);
    if h.len() == 6 && all_hex(h) {
        lemma_hex_bound(h);
    }
    if h.len() == 3 && all_hex(h) {
        assert(hex_value(h[0]) is Some && hex_value(h[1]) is Some && hex_value(
            h[2],
        ) is Some);
    }
}

// ---- the text of the time ----

/// How many zeros the time is written with.
#[derive(Clone, Copy, Debug, PartialEq, Eq, Structural)]
pub enum Pad {
    /// As few as can be: `45s`, `12:34`, `1:01:01`.
    Plain,
    /// Two digits for each unit that is there: `00:45`, `12:34`, `01:01:01`.
    Zero,
    /// Always hours, minutes and seconds: `00:00:45`.
    Full,
}

impl Default for Pad {
    fn default() -> (r: Self)
        ensures
            r == Pad::Plain,
    {
        Pad::Plain
    }
}

/// Each way to pad, in the order of the menu.
pub const PADS: [Pad; 3] = [Pad::Plain, Pad::Zero, Pad::Full];

impl Pad {
    /// The name in the configuration.
    pub open spec fn text(self) -> Seq<char> {
        match self {
            Pad::Plain => "none"@,
            Pad::Zero => "zero"@,
            Pad::Full => "full"@,
        }
    }

    /// The label in the menu.
    pub open spec fn label_text(self) -> Seq<char> {
        match self {
            Pad::Plain => "不补零（45s）"@,
            Pad::Zero => "补两位（00:45）"@,
            Pad::Full => "总是时分秒（00:00:45）"@,
        }
    }

    /// The way to pad with this name in the configuration.
    pub fn from_name(name: &str) -> (r: Option<Pad>)
        ensures
            r == pad_named(name@),
    {
        if same(name, "none") {
            Some(Pad::Plain)
        } else if same(name, "zero") {
            Some(Pad::Zero)
        } else if same(name, "full") {
            Some(Pad::Full)
        } else {
            None
        }
    }

    /// The name in the configuration.
    pub fn name(self) -> (r: &'static str)
        ensures
            r@ == self.text(),
    {
        match self {
            Pad::Plain => "none",
            Pad::Zero => "zero",
            Pad::Full => "full",
        }
    }

    /// The label in the menu.
    pub fn label(self) -> (r: &'static str)
        ensures
            r@ == self.label_text(),
    {
        match self {
            Pad::Plain => "不补零（45s）",
            Pad::Zero => "补两位（00:45）",
            Pad::Full => "总是时分秒（00:00:45）",
        }
    }
}

/// The way to pad with this name in the configuration.
pub open spec fn pad_named(s: Seq<char>) -> Option<Pad> {
    if s == "none"@ {
        Some(Pad::Plain)
    } else if s == "zero"@ {
        Some(Pad::Zero)
    } else if s == "full"@ {
        Some(Pad::Full)
    } else {
        None
    }
}

/// A way to pad is read back from its name.
pub proof fn law_pad_names_roundtrip(p: Pad)
    ensures
        pad_named(p.text()) == Some(p),
{
    reveal_strlit("none");
    reveal_strlit("zero");
    reveal_strlit("full");
    assert("none"@[0] == 'n' && "zero"@[0] == 'z' && "full"@[0] == 'f');
}

/// The hundredths behind the seconds, where they are shown.
pub open spec fn fraction_text(cs: Option<u32>) -> Seq<char> {
    match cs {
        Some(c) => seq!['.'] + strings::two_digits((c % 100) as nat),
        None => Seq::empty(),
    }
}

/// The text of a time in seconds, with hundredths where they are shown.
pub open spec fn time_text(secs: u32, cs: Option<u32>, pad: Pad) -> Seq<char> {
    let h = (secs / 3600) as nat;
    let m = (secs % 3600 / 60) as nat;
    let s = (secs % 60) as nat;
    let tail = seq![':'] + strings::two_digits(s) + fraction_text(cs);
    let long = seq![':'] + strings::two_digits(m) + tail;
    match pad {
        Pad::Plain => if secs < 60 {
            strings::digits(secs as nat) + fraction_text(cs) + seq!['s']
        } else if h > 0 {
            strings::digits(h) + long
        } else {
            strings::digits(m) + tail
        },
        Pad::Zero => if h > 0 {
            strings::two_digits(h) + long
        } else {
            strings::two_digits(m) + tail
        },
        Pad::Full => strings::two_digits(h) + long,
    }
}

/// Appends the hundredths.
fn push_fraction(out: &mut String, cs: Option<u32>)
    ensures
        final(out)@ == old(out)@ + fraction_text(cs),
{
    match cs {
        Some(c) => {
            out.push('.');
            push_two(out, (c % 100) as u64);
            assert(out@ =~= old(out)@ + fraction_text(cs));
        },
        None => {
            assert(out@ =~= old(out)@ + fraction_text(cs));
        },
    }
}

/// The text of a time in seconds, with hundredths where they are shown.
#[verifier::rlimit(40)]
#[verifier::spinoff_prover]
fn format_parts(total_secs: u32, cs: Option<u32>, pad: Pad) -> (r: String)
    ensures
        r@ == time_text(total_secs, cs, pad),
{
    let mut out = String::new();
    if pad == Pad::Plain && total_secs < 60 {
        push_number(&mut out, total_secs as u64);
        push_fraction(&mut out, cs);
        out.push('s');
        assert(out@ =~= time_text(total_secs, cs, pad));
        return out;
    }
    let h: u32 = total_secs / 3600;
    let m: u32 = total_secs % 3600 / 60;
    let s: u32 = total_secs % 60;
    match pad {
        Pad::Plain => {
            if h > 0 {
                push_number(&mut out, h as u64);
                out.push(':');
                push_two(&mut out, m as u64);
            } else {
                push_number(&mut out, m as u64);
            }
        },
        Pad::Zero => {
            if h > 0 {
                push_two(&mut out, h as u64);
                out.push(':');
            }
            push_two(&mut out, m as u64);
        },
        Pad::Full => {
            push_two(&mut out, h as u64);
            out.push(':');
            push_two(&mut out, m as u64);
        },
    }
    out.push(':');
    push_two(&mut out, s as u64);
    push_fraction(&mut out, cs);
    assert(out@ =~= time_text(total_secs, cs, pad));
    out
}

/// The text of a time in seconds.
pub fn format_time(secs: u32, pad: Pad) -> (r: String)
    ensures
        r@ == time_text(secs, None, pad),
{
    format_parts(secs, None, pad)
}

/// The text of a time in hundredths of a second.
pub fn format_centis(cs: u32, pad: Pad) -> (r: String)
    ensures
        r@ == time_text(cs / 100, Some((cs % 100) as u32), pad),
{
    format_parts(cs / 100, Some(cs % 100), pad)
}

/// With two digits for each unit, the text is as long a second later, until a unit is added: the
/// line does not shift.
pub proof fn law_padded_width_is_fixed(a: u32, b: u32, cs: Option<u32>, ct: Option<u32>)
    requires
        a < 360_000,
        b < 360_000,
        cs is Some <==> ct is Some,
    ensures
        time_text(a, cs, Pad::Full).len() == time_text(b, ct, Pad::Full).len(),
        (a < 3600 <==> b < 3600) ==> time_text(a, cs, Pad::Zero).len() == time_text(
            b,
            ct,
            Pad::Zero,
        ).len(),
{
    lemma_two_digits((a / 3600) as nat);
    lemma_two_digits((b / 3600) as nat);
    lemma_two_digits((a % 3600 / 60) as nat);
    lemma_two_digits((b % 3600 / 60) as nat);
    lemma_two_digits((a % 60) as nat);
    lemma_two_digits((b % 60) as nat);
    if let Some(c) = cs {
        lemma_two_digits((c % 100) as nat);
    }
    if let Some(c) = ct {
        lemma_two_digits((c % 100) as nat);
    }
}

/// How a time reads with zeros: below an hour minutes and seconds, with two digits each, and with
/// zeros for the hours in front where those always show; from an hour on the same both ways, eight
/// characters below a hundred hours.
pub proof fn law_padded_forms(secs: u32)
    ensures
        secs < 3600 ==> time_text(secs, None, Pad::Zero).len() == 5,
        secs < 3600 ==> time_text(secs, None, Pad::Full) == "00:"@ + time_text(
            secs,
            None,
            Pad::Zero,
        ),
        secs >= 3600 ==> time_text(secs, None, Pad::Zero) == time_text(secs, None, Pad::Full),
        3600 <= secs < 360_000 ==> time_text(secs, None, Pad::Full).len() == 8,
{
    lemma_two_digits((secs % 3600 / 60) as nat);
    lemma_two_digits((secs % 60) as nat);
    if secs < 360_000 {
        lemma_two_digits((secs / 3600) as nat);
    }
    if secs < 3600 {
        reveal_strlit("00:");
        assert(strings::two_digits(0) =~= seq!['0', '0']) by {
            assert(strings::digits(0) =~= seq!['0']);
        }
        assert(time_text(secs, None, Pad::Full) =~= "00:"@ + time_text(secs, None, Pad::Zero));
    }
}

/// The hundredths of a time in hundredths stand behind the time in seconds, after a point; only a
/// time that reads `5s` has them before its `s`.
pub proof fn law_hundredths_follow(cs: u32, pad: Pad)
    ensures
        ({
            let fine = seq!['.'] + strings::two_digits((cs % 100) as nat);
            let shown = time_text(cs / 100, Some((cs % 100) as u32), pad);
            if pad != Pad::Plain || cs >= 6000 {
                shown == time_text(cs / 100, None, pad) + fine
            } else {
                shown == strings::digits((cs / 100) as nat) + fine + seq!['s']
            }
        }),
{
    let fine = seq!['.'] + strings::two_digits((cs % 100) as nat);
    let shown = time_text(cs / 100, Some((cs % 100) as u32), pad);
    assert((cs % 100) % 100 == cs % 100);
    assert(fraction_text(Some((cs % 100) as u32)) =~= fine);
    if pad != Pad::Plain || cs >= 6000 {
        assert(shown =~= time_text(cs / 100, None, pad) + fine);
    }
}

proof fn lemma_two_digits(n: nat)
    requires
        n < 100,
    ensures
        strings::two_digits(n).len() == 2,
{
    reveal_with_fuel(strings::digits, 3);
}

// ---- the canvas ----

/// One component of a pixel `dst` under a premultiplied `src`: their sum, or `src` over `dst`.
pub open spec fn mixed(dst: u32, src: u32, shift: u32, additive: bool) -> int {
    let s = channel(src, shift);
    let d = channel(dst, shift);
    if additive {
        if s + d > 255 {
            255
        } else {
            s + d
        }
    } else {
        s + d * (255 - channel(src, 24)) / 255
    }
}

/// The pixel `dst` under a premultiplied `src`: a transparent one leaves it, and an opaque one that
/// is not added covers it.
pub open spec fn blended(dst: u32, src: u32, additive: bool) -> u32 {
    if channel(src, 24) == 0 {
        dst
    } else if channel(src, 24) == 255 && !additive {
        src
    } else {
        ((mixed(dst, src, 24, additive) as u32) << 24) | ((mixed(dst, src, 16, additive) as u32)
            << 16) | ((mixed(dst, src, 8, additive) as u32) << 8) | (mixed(dst, src, 0, additive) as u32)
    }
}

proof fn lemma_mixed(dst: u32, src: u32, shift: u32, additive: bool)
    ensures
        0 <= mixed(dst, src, shift, additive) <= 510,
        additive || channel(src, shift) <= channel(src, 24) ==> mixed(dst, src, shift, additive)
            <= 255,
{
    lemma_channel(src, shift);
    lemma_channel(src, 24);
    lemma_channel(dst, shift);
    let d = channel(dst, shift);
    let keep = 255 - channel(src, 24);
    lemma_scaled(d, keep);
}

/// A premultiplied pixel is the sum of its four components when it is laid over another: each is
/// mixed on its own, and none spills into the next.
pub proof fn law_blend_is_per_channel(dst: u32, src: u32, additive: bool, shift: u32)
    requires
        additive || (channel(src, 16) <= channel(src, 24) && channel(src, 8) <= channel(src, 24)
            && channel(src, 0) <= channel(src, 24)),
        shift == 0 || shift == 8 || shift == 16 || shift == 24,
        0 < channel(src, 24),
        channel(src, 24) < 255 || additive,
    ensures
        channel(blended(dst, src, additive), shift) == mixed(dst, src, shift, additive),
{
    lemma_mixed(dst, src, 24, additive);
    lemma_mixed(dst, src, 16, additive);
    lemma_mixed(dst, src, 8, additive);
    lemma_mixed(dst, src, 0, additive);
    let a = mixed(dst, src, 24, additive) as u32;
    let r = mixed(dst, src, 16, additive) as u32;
    let g = mixed(dst, src, 8, additive) as u32;
    let b = mixed(dst, src, 0, additive) as u32;
    let v = (a << 24) | (r << 16) | (g << 8) | b;
    assert((v >> 24) & 0xff == a && (v >> 16) & 0xff == r && (v >> 8) & 0xff == g && (v >> 0) & 0xff
        == b) by (bit_vector)
        requires
            a <= 255,
            r <= 255,
            g <= 255,
            b <= 255,
            v == (a << 24) | (r << 16) | (g << 8) | b,
    ;
}

/// One component of a pixel under another.
fn mix_part(dst: u32, src: u32, shift: u32, additive: bool) -> (r: u32)
    requires
        shift <= 24,
    ensures
        r == mixed(dst, src, shift, additive),
{
    proof {
        lemma_mixed(dst, src, shift, additive);
    }
    let s: u32 = part(src, shift);
    let d: u32 = part(dst, shift);
    if additive {
        if s + d > 255 {
            255
        } else {
            s + d
        }
    } else {
        s + scale(d, 255 - part(src, 24))
    }
}

/// A pixel under a premultiplied one.
pub fn blend_pixel(dst: u32, src: u32, additive: bool) -> (r: u32)
    ensures
        r == blended(dst, src, additive),
{
    let a: u32 = part(src, 24);
    if a == 0 {
        return dst;
    }
    if a == 255 && !additive {
        return src;
    }
    (mix_part(dst, src, 24, additive) << 24) | (mix_part(dst, src, 16, additive) << 16) | (mix_part(
        dst,
        src,
        8,
        additive,
    ) << 8) | mix_part(dst, src, 0, additive)
}

/// Whether the bitmap at `(gx, gy)` covers the pixel `(x, y)`.
pub open spec fn bitmap_covers(bits: [u8; 8], cell: u32, gx: int, gy: int, x: int, y: int) -> bool {
    &&& 0 <= x - gx < 8 * cell
    &&& 0 <= y - gy < 8 * cell
    &&& (bits@[(y - gy) / cell as int] >> (((x - gx) / cell as int) as u8)) & 1 == 1
}

/// The pixel `(x, y)` under a glyph that is moved `dx` to the right: a bitmap covers it, and a
/// coverage lays the color over it that much.
pub open spec fn glyph_pixel(g: Glyph, dx: int, color: u32, x: int, y: int, dst: u32) -> u32 {
    match g.body {
        GlyphBody::Bits { bits, cell } => if bitmap_covers(bits, cell, g.x + dx, g.y as int, x, y) {
            color
        } else {
            dst
        },
        GlyphBody::Gray { gray, w, h, .. } => {
            let col = x - (g.x + dx);
            let row = y - g.y;
            if 0 <= col < w && 0 <= row < h {
                blended(dst, premultiplied((color & 0xff_ffff) as u32, gray@[row * w + col]) as u32, false)
            } else {
                dst
            }
        },
    }
}

/// The pixels under a glyph.
pub open spec fn under_glyph(buf: Seq<u32>, w: int, h: int, g: Glyph, dx: int, color: u32) -> Seq<u32> {
    Seq::new(
        buf.len(),
        |j: int|
            if j < w * h {
                glyph_pixel(g, dx, color, j % w, j / w, buf[j])
            } else {
                buf[j]
            },
    )
}

/// The pixels under the first `n` glyphs.
pub open spec fn under_glyphs(
    buf: Seq<u32>,
    w: int,
    h: int,
    glyphs: Seq<Glyph>,
    dx: int,
    color: u32,
    n: int,
) -> Seq<u32>
    decreases n,
{
    if n <= 0 {
        buf
    } else {
        under_glyph(under_glyphs(buf, w, h, glyphs, dx, color, n - 1), w, h, glyphs[n - 1], dx, color)
    }
}

pub proof fn lemma_place(x: int, y: int, w: int, h: int)
    requires
        0 <= x < w,
        0 <= y < h,
    ensures
        0 <= y * w + x < w * h,
        (y * w + x) / w == y,
        (y * w + x) % w == x,
{
    assert(0 <= y * w) by (nonlinear_arith)
        requires
            0 <= y,
            0 < w,
    ;
    assert(y * w + x < w * h) by (nonlinear_arith)
        requires
            0 <= x < w,
            0 <= y < h,
    ;
    div_mod::lemma_fundamental_div_mod_converse(y * w + x, w, y, x);
}

pub proof fn lemma_row_col(j: int, w: int, h: int)
    requires
        0 <= j < w * h,
        0 < w,
    ensures
        j == (j / w) * w + j % w,
        0 <= j % w < w,
        0 <= j / w < h,
{
    div_mod::lemma_fundamental_div_mod(j, w);
    assert((j / w) * w == w * (j / w)) by (nonlinear_arith);
    assert(0 <= j / w < h) by (nonlinear_arith)
        requires
            0 <= j < w * h,
            0 < w,
            j == w * (j / w) + j % w,
            0 <= j % w < w,
    ;
}

/// A rectangle of premultiplied pixels, row by row.
pub struct Canvas<'a> {
    pub buf: &'a mut [u32],
    pub width: u32,
    pub height: u32,
}

impl<'a> Canvas<'a> {
    /// Whether there is a pixel for each place.
    pub open spec fn wf(self) -> bool {
        self.width * self.height <= self.buf@.len() && self.width * self.height <= u32::MAX
    }

    /// The canvas over `buf`.
    pub fn new(buf: &'a mut [u32], width: u32, height: u32) -> (r: Self)
        ensures
            r.buf@ == old(buf)@,
            final(r.buf)@ == final(buf)@,
            r.width == width,
            r.height == height,
    {
        Canvas { buf, width, height }
    }

    /// The width and the height.
    pub fn size(&self) -> (r: (u32, u32))
        ensures
            r == (self.width, self.height),
    {
        (self.width, self.height)
    }

    /// Sets each pixel.
    pub fn fill(&mut self, color: u32)
        ensures
            final(self).buf@ == Seq::new(old(self).buf@.len(), |i: int| color),
            final(self).width == old(self).width,
            final(self).height == old(self).height,
            final(final(self).buf)@ == final(old(self).buf)@,
    {
        let ghost before = self.buf@;
        let n: usize = self.buf.len();
        let mut i: usize = 0;
        while i < n
            invariant
                i <= n,
                n == before.len(),
                self.buf@.len() == n,
                forall|j: int| 0 <= j < i ==> self.buf@[j] == color,
                self.width == old(self).width,
                self.height == old(self).height,
                final(self.buf)@ == final(old(self).buf)@,
            decreases n - i,
        {
            self.buf[i] = color;
            i = i + 1;
        }
        assert(self.buf@ =~= Seq::new(before.len(), |i: int| color));
    }

    /// Lays a premultiplied pixel over the one at `(x, y)`.
    pub fn over(&mut self, x: i32, y: i32, src: u32)
        requires
            old(self).wf(),
        ensures
            final(self).buf@ == old(self).put(x as int, y as int, src, false),
            final(self).width == old(self).width,
            final(self).height == old(self).height,
            final(final(self).buf)@ == final(old(self).buf)@,
    {
        self.blend(x as i64, y as i64, src, false);
    }

    /// Adds a premultiplied pixel to the one at `(x, y)`.
    pub fn add(&mut self, x: i32, y: i32, src: u32)
        requires
            old(self).wf(),
        ensures
            final(self).buf@ == old(self).put(x as int, y as int, src, true),
            final(self).width == old(self).width,
            final(self).height == old(self).height,
            final(final(self).buf)@ == final(old(self).buf)@,
    {
        self.blend(x as i64, y as i64, src, true);
    }

    /// The pixels after one is blended with that at `(x, y)`; a place beside the canvas has none.
    pub open spec fn put(self, x: int, y: int, src: u32, additive: bool) -> Seq<u32> {
        if 0 <= x < self.width && 0 <= y < self.height {
            let i = y * self.width + x;
            self.buf@.update(i, blended(self.buf@[i], src, additive))
        } else {
            self.buf@
        }
    }

    /// Blends a premultiplied pixel with the one at `(x, y)`.
    fn blend(&mut self, x: i64, y: i64, src: u32, additive: bool)
        requires
            old(self).wf(),
        ensures
            final(self).buf@ == old(self).put(x as int, y as int, src, additive),
            final(self).width == old(self).width,
            final(self).height == old(self).height,
            final(final(self).buf)@ == final(old(self).buf)@,
    {
        if x < 0 || y < 0 || x >= self.width as i64 || y >= self.height as i64 {
            return;
        }
        proof {
            lemma_place(x as int, y as int, self.width as int, self.height as int);
            assert(y * self.width <= y * self.width + x);
        }
        let i: usize = (y as u32 * self.width + x as u32) as usize;
        let dst: u32 = self.buf[i];
        self.buf[i] = blend_pixel(dst, src, additive);
    }

    /// Draws a line in the middle of the width, or from the left edge where it is wider.
    pub fn draw_run_centered(&mut self, run: &Run, color: u32)
        requires
            old(self).wf(),
            forall|i: int| 0 <= i < run.glyphs@.len() ==> (#[trigger] run.glyphs@[i]).body.wf(),
        ensures
            final(self).buf@ == under_glyphs(
                old(self).buf@,
                old(self).width as int,
                old(self).height as int,
                run.glyphs@,
                if old(self).width > run.width {
                    (old(self).width - run.width) / 2
                } else {
                    0
                },
                color,
                run.glyphs@.len() as int,
            ),
            final(self).buf@.len() == old(self).buf@.len(),
            final(self).width == old(self).width,
            final(self).height == old(self).height,
            final(final(self).buf)@ == final(old(self).buf)@,
    {
        let x: u32 = if self.width > run.width {
            (self.width - run.width) / 2
        } else {
            0
        };
        self.draw_run(run, x as i32, color);
    }

    /// Draws a line, moved `dx` to the right.
    pub fn draw_run(&mut self, run: &Run, dx: i32, color: u32)
        requires
            old(self).wf(),
            forall|i: int| 0 <= i < run.glyphs@.len() ==> (#[trigger] run.glyphs@[i]).body.wf(),
        ensures
            final(self).buf@ == under_glyphs(
                old(self).buf@,
                old(self).width as int,
                old(self).height as int,
                run.glyphs@,
                dx as int,
                color,
                run.glyphs@.len() as int,
            ),
            final(self).buf@.len() == old(self).buf@.len(),
            final(self).width == old(self).width,
            final(self).height == old(self).height,
            final(final(self).buf)@ == final(old(self).buf)@,
    {
        let ghost before = self.buf@;
        let ghost w = self.width as int;
        let ghost h = self.height as int;
        let mut i: usize = 0;
        while i < run.glyphs.len()
            invariant
                i <= run.glyphs@.len(),
                self.wf(),
                self.width == w,
                self.height == h,
                w == old(self).width,
                h == old(self).height,
                self.buf@.len() == before.len(),
                self.buf@ == under_glyphs(before, w, h, run.glyphs@, dx as int, color, i as int),
                final(self.buf)@ == final(old(self).buf)@,
                forall|i: int| 0 <= i < run.glyphs@.len() ==> (#[trigger] run.glyphs@[i]).body.wf(),
            decreases run.glyphs@.len() - i,
        {
            let g = &run.glyphs[i];
            assert(run.glyphs@[i as int].body.wf());
            self.draw_glyph(g, dx, color);
            i = i + 1;
        }
    }

    /// Draws a glyph, moved `dx` to the right.
    fn draw_glyph(&mut self, g: &Glyph, dx: i32, color: u32)
        requires
            old(self).wf(),
            g.body.wf(),
        ensures
            final(self).buf@ == under_glyph(
                old(self).buf@,
                old(self).width as int,
                old(self).height as int,
                *g,
                dx as int,
                color,
            ),
            final(self).width == old(self).width,
            final(self).height == old(self).height,
            final(final(self).buf)@ == final(old(self).buf)@,
    {
        let ghost before = self.buf@;
        let ghost w = self.width as int;
        let ghost h = self.height as int;
        let ghost goal = under_glyph(before, w, h, *g, dx as int, color);
        let (gw, gh): (i64, i64) = match &g.body {
            GlyphBody::Bits { cell, .. } => (8 * *cell as i64, 8 * *cell as i64),
            GlyphBody::Gray { w, h, .. } => (*w as i64, *h as i64),
        };
        let gx: i64 = g.x as i64 + dx as i64;
        let (x0, x1): (u32, u32) = clip(gx, gw, self.width);
        let (y0, y1): (u32, u32) = clip(g.y as i64, gh, self.height);
        let mut y: u32 = y0;
        assert forall|j: int| 0 <= j < w * h && !(x0 <= j % w < x1 && y0 <= j / w < y1) implies before[j]
            == goal[j] by {
            lemma_row_col(j, w, h);
        }
        while y < y1
            invariant
                y0 <= y <= y1,
                y1 <= h,
                x0 <= x1 <= w,
                self.wf(),
                g.body.wf(),
                self.width == w,
                self.height == h,
                w == old(self).width,
                h == old(self).height,
                self.buf@.len() == before.len(),
                goal == under_glyph(before, w, h, *g, dx as int, color),
                forall|j: int|
                    0 <= j < before.len() ==> #[trigger] self.buf@[j] == if j < w * h && x0 <= j % w
                        < x1 && y0 <= j / w < y1 && !(j / w < y) {
                        before[j]
                    } else {
                        goal[j]
                    },
                final(self.buf)@ == final(old(self).buf)@,
            decreases y1 - y,
        {
            let mut x: u32 = x0;
            while x < x1
                invariant
                    x0 <= x <= x1,
                    y0 <= y < y1,
                    y1 <= h,
                    x1 <= w,
                    self.wf(),
                    g.body.wf(),
                    self.width == w,
                    self.height == h,
                    w == old(self).width,
                    h == old(self).height,
                    self.buf@.len() == before.len(),
                    goal == under_glyph(before, w, h, *g, dx as int, color),
                    forall|j: int|
                        0 <= j < before.len() ==> #[trigger] self.buf@[j] == if j < w * h && x0 <= j % w
                            < x1 && y0 <= j / w < y1 && !(j / w < y || (j / w == y && j % w < x)) {
                            before[j]
                        } else {
                            goal[j]
                        },
                    final(self.buf)@ == final(old(self).buf)@,
                decreases x1 - x,
            {
                proof {
                    lemma_place(x as int, y as int, w, h);
                    assert(y * w <= y * w + x);
                }
                let i: usize = (y * self.width + x) as usize;
                let ghost had = self.buf@;
                let c: u32 = shade(g, dx, color, x, y, self.buf[i]);
                self.buf[i] = c;
                assert(c == goal[i as int]);
                assert forall|j: int| 0 <= j < before.len() implies #[trigger] self.buf@[j] == if j < w
                    * h && x0 <= j % w < x1 && y0 <= j / w < y1 && !(j / w < y || (j / w == y && j % w
                    < x + 1)) {
                    before[j]
                } else {
                    goal[j]
                } by {
                    if j != i && j < w * h {
                        lemma_row_col(j, w, h);
                        assert(self.buf@[j] == had[j]);
                    }
                }
                x = x + 1;
            }
            y = y + 1;
        }
        assert(self.buf@ =~= goal);
    }
}

/// The nearest number to `n` from `lo` to `hi`.
pub open spec fn limited(n: int, lo: int, hi: int) -> int {
    if n < lo {
        lo
    } else if n > hi {
        hi
    } else {
        n
    }
}

/// The places of a line of `size` from `at` on that are on a line of `len`.
fn clip(at: i64, size: i64, len: u32) -> (r: (u32, u32))
    requires
        -0x10_0000_0000 <= at <= 0x10_0000_0000,
        0 <= size <= 0x10_0000_0000,
    ensures
        r.0 <= r.1 <= len,
        r.0 == limited(at as int, 0, len as int),
        r.1 == limited(at + size, r.0 as int, len as int),
{
    let lo: i64 = if at < 0 {
        0
    } else if at > len as i64 {
        len as i64
    } else {
        at
    };
    let end: i64 = at + size;
    let hi: i64 = if end < lo {
        lo
    } else if end > len as i64 {
        len as i64
    } else {
        end
    };
    (lo as u32, hi as u32)
}

/// Whether a bitmap covers the pixel that is `(col, row)` from its upper left corner.
pub fn covers(bits: &[u8; 8], cell: u32, col: i64, row: i64) -> (r: bool)
    ensures
        r == bitmap_covers(*bits, cell, 0, 0, col as int, row as int),
{
    let size: i64 = 8 * cell as i64;
    if col < 0 || row < 0 || col >= size || row >= size {
        return false;
    }
    let cell: u64 = cell as u64;
    let (cx, cy): (u64, u64) = (col as u64 / cell, row as u64 / cell);
    proof {
        assert(col as int / (cell as int) < 8 && row as int / (cell as int) < 8) by (nonlinear_arith)
            requires
                0 <= col < 8 * cell,
                0 <= row < 8 * cell,
                cell > 0,
        ;
    }
    (bits[cy as usize] >> (cx as u8)) & 1 == 1
}

/// The pixel `(x, y)` under a glyph that is moved `dx` to the right.
fn shade(g: &Glyph, dx: i32, color: u32, x: u32, y: u32, dst: u32) -> (r: u32)
    requires
        g.body.wf(),
    ensures
        r == glyph_pixel(*g, dx as int, color, x as int, y as int, dst),
{
    let col: i64 = x as i64 - (g.x as i64 + dx as i64);
    let row: i64 = y as i64 - g.y as i64;
    match &g.body {
        GlyphBody::Bits { bits, cell } => {
            if covers(bits, *cell, col, row) {
                color
            } else {
                dst
            }
        },
        GlyphBody::Gray { gray, w, h, .. } => {
            if col < 0 || row < 0 || col >= *w as i64 || row >= *h as i64 {
                return dst;
            }
            proof {
                assert(row * *w + col < *w * *h && 0 <= row * *w) by (nonlinear_arith)
                    requires
                        0 <= col < *w,
                        0 <= row < *h,
                ;
            }
            let v: u8 = gray[(row as u32 * *w + col as u32) as usize];
            blend_pixel(dst, premultiply(color & 0xff_ffff, v), false)
        },
    }
}

/// How a time of hours, minutes and seconds reads: the hours, where there are any or where they always
/// show, the minutes and the seconds, with two digits each behind the first of them and also for the
/// first where zeros are shown; below a minute without zeros as seconds alone.
pub proof fn law_time_reads(h: u32, m: u32, s: u32, cs: Option<u32>)
    requires
        m < 60,
        s < 60,
        3600 * h + 60 * m + s <= u32::MAX,
    ensures
        ({
            let secs = (3600 * h + 60 * m + s) as u32;
            let tail = seq![':'] + strings::two_digits(s as nat) + fraction_text(cs);
            let long = seq![':'] + strings::two_digits(m as nat) + tail;
            &&& time_text(secs, cs, Pad::Full) == strings::two_digits(h as nat) + long
            &&& h > 0 ==> time_text(secs, cs, Pad::Zero) == strings::two_digits(h as nat) + long
            &&& h == 0 ==> time_text(secs, cs, Pad::Zero) == strings::two_digits(m as nat) + tail
            &&& h > 0 ==> time_text(secs, cs, Pad::Plain) == strings::digits(h as nat) + long
            &&& h == 0 && m > 0 ==> time_text(secs, cs, Pad::Plain) == strings::digits(m as nat) + tail
            &&& h == 0 && m == 0 ==> time_text(secs, cs, Pad::Plain) == strings::digits(s as nat)
                + fraction_text(cs) + seq!['s']
        }),
{
    let secs = 3600 * h + 60 * m + s;
    assert(secs / 3600 == h as int && secs % 3600 == 60 * m + s);
    assert((60 * m + s) / 60 == m as int && secs % 60 == s as int);
}

/// Three hexadecimal digits write the color in which each of them stands twice, and a digit counts
/// the same in upper and lower case.
pub proof fn law_short_colors(a: char, b: char, c: char)
    requires
        hex_value(a) is Some,
        hex_value(b) is Some,
        hex_value(c) is Some,
    ensures
        hex_color(seq!['#', a, b, c]) == hex_color(seq!['#', a, a, b, b, c, c]),
        hex_color(seq!['#', a, b, c]) is Some,
        'a' <= a <= 'f' ==> hex_value((a as int - 32) as char) == hex_value(a),
{
    let h = seq![a, b, c];
    let l = seq![a, a, b, b, c, c];
    assert(hex_body(seq!['#', a, b, c]) =~= h);
    assert(hex_body(seq!['#', a, a, b, b, c, c]) =~= l);
    assert(all_hex(h));
    assert(all_hex(l));
    reveal_with_fuel(hex_number, 7);
    assert(l.drop_last() =~= seq![a, a, b, b, c]);
    assert(seq![a, a, b, b, c].drop_last() =~= seq![a, a, b, b]);
    assert(seq![a, a, b, b].drop_last() =~= seq![a, a, b]);
    assert(seq![a, a, b].drop_last() =~= seq![a, a]);
    assert(seq![a, a].drop_last() =~= seq![a]);
    assert(seq![a].drop_last() =~= Seq::<char>::empty());
    let (x, y, z) = (hex_value(a)->0, hex_value(b)->0, hex_value(c)->0);
    assert(hex_number(l) == ((((x * 16 + x) * 16 + y) * 16 + y) * 16 + z) * 16 + z);
}

} // verus!
